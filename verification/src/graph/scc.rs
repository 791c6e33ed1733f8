use crate::graph::forest::lemma_bounded_set;
use crate::graph::{
    has_edge, is_graph, is_path, leads, lemma_leads_front, lemma_leads_on, lemma_leads_self,
    lemma_leads_step, lemma_unseen, unseen,
};
use vstd::prelude::*;

verus! {

/// The vertices with an edge to `x`, once for each edge, in the order of
/// the edges: those of the vertices before `m`, and of the vertex `m` as
/// far as its edges before `k` go.
pub open spec fn sources(g: Seq<Vec<usize>>, x: int, m: int, k: int) -> Seq<usize>
    decreases m, k,
{
    if k > 0 {
        if g[m]@[k - 1] == x {
            sources(g, x, m, k - 1).push(m as usize)
        } else {
            sources(g, x, m, k - 1)
        }
    } else if m > 0 {
        sources(g, x, m - 1, g[m - 1]@.len() as int)
    } else {
        Seq::empty()
    }
}

/// `rg` holds the edges of `g` turned round.
pub open spec fn is_reversed(g: Seq<Vec<usize>>, rg: Seq<Vec<usize>>) -> bool {
    &&& rg.len() == g.len()
    &&& forall|x: int| 0 <= x < g.len() ==> (#[trigger] rg[x])@ == sources(g, x, g.len() as int, 0)
}

/// The vertices with an edge to `x` are vertices.
pub proof fn lemma_sources(g: Seq<Vec<usize>>, x: int, m: int, k: int, j: int)
    requires
        0 <= m <= g.len() <= usize::MAX,
        m < g.len() || k == 0,
        0 <= k,
        m < g.len() ==> k <= g[m]@.len(),
        0 <= j < sources(g, x, m, k).len(),
    ensures
        sources(g, x, m, k)[j] < g.len(),
    decreases m, k,
{
    if k > 0 {
        if g[m]@[k - 1] == x {
            if j < sources(g, x, m, k - 1).len() {
                lemma_sources(g, x, m, k - 1, j);
            }
        } else {
            lemma_sources(g, x, m, k - 1, j);
        }
    } else if m > 0 {
        lemma_sources(g, x, m - 1, g[m - 1]@.len() as int, j);
    }
}

/// Every edge of `g` is noted among the vertices with an edge to its end.
pub proof fn lemma_sources_hold(g: Seq<Vec<usize>>, x: int, m: int, k: int, u: int, j: int)
    requires
        0 <= m <= g.len(),
        m < g.len() || k == 0,
        0 <= k,
        m < g.len() ==> k <= g[m]@.len(),
        0 <= u < g.len(),
        0 <= j < g[u]@.len(),
        g[u]@[j] == x,
        u < m || (u == m && j < k),
    ensures
        sources(g, x, m, k).contains(u as usize),
    decreases m, k,
{
    if k > 0 {
        let before = sources(g, x, m, k - 1);
        if u == m && j == k - 1 {
            assert(before.push(m as usize)[before.len() as int] == u as usize);
        } else {
            lemma_sources_hold(g, x, m, k - 1, u, j);
            let t = choose|t: int| 0 <= t < before.len() && before[t] == u as usize;
            if g[m]@[k - 1] == x {
                assert(before.push(m as usize)[t] == u as usize);
            }
        }
    } else if m > 0 {
        lemma_sources_hold(g, x, m - 1, g[m - 1]@.len() as int, u, j);
    }
}

/// Every vertex noted among those with an edge to `x` has an edge to `x`.
pub proof fn lemma_sources_edge(g: Seq<Vec<usize>>, x: int, m: int, k: int, t: int)
    requires
        0 <= m <= g.len() <= usize::MAX,
        m < g.len() || k == 0,
        0 <= k,
        m < g.len() ==> k <= g[m]@.len(),
        0 <= t < sources(g, x, m, k).len(),
    ensures
        sources(g, x, m, k)[t] < g.len(),
        has_edge(g, sources(g, x, m, k)[t] as int, x),
    decreases m, k,
{
    if k > 0 {
        if g[m]@[k - 1] == x {
            if t < sources(g, x, m, k - 1).len() {
                lemma_sources_edge(g, x, m, k - 1, t);
            } else {
                assert(g[m]@[k - 1] == x);
            }
        } else {
            lemma_sources_edge(g, x, m, k - 1, t);
        }
    } else if m > 0 {
        lemma_sources_edge(g, x, m - 1, g[m - 1]@.len() as int, t);
    }
}

/// A walk in the graph turned round, read from its end, is a walk in the
/// graph: where `a` leads to `b` there, `b` leads to `a` here.
pub proof fn lemma_turned(g: Seq<Vec<usize>>, rg: Seq<Vec<usize>>, walk: Seq<int>)
    requires
        g.len() <= usize::MAX,
        is_reversed(g, rg),
        is_path(rg, walk),
    ensures
        leads(g, walk.last(), walk[0]),
    decreases walk.len(),
{
    if walk.len() == 1 {
        lemma_leads_self(g, walk[0]);
    } else {
        let front = walk.drop_last();
        assert(is_path(rg, front)) by {
            assert forall|t: int| 0 <= t < front.len() - 1 implies has_edge(
                rg,
                #[trigger] front[t],
                front[t + 1],
            ) by {
                assert(has_edge(rg, walk[t], walk[t + 1]));
            }
        }
        lemma_turned(g, rg, front);
        let b = walk[walk.len() - 2];
        let x = walk.last();
        assert(front.last() == b);
        assert(has_edge(rg, walk[walk.len() - 2], walk[walk.len() - 2 + 1]));
        let t = choose|t: int| 0 <= t < rg[b]@.len() && #[trigger] rg[b]@[t] == x;
        assert(rg[b]@ == sources(g, b, g.len() as int, 0));
        lemma_sources_edge(g, b, g.len() as int, 0, t);
        let k = choose|k: int| 0 <= k < g[x]@.len() && #[trigger] g[x]@[k] == b;
        lemma_leads_front(g, x, k, walk[0]);
    }
}

/// A graph for the search of its strongly connected components.
pub struct Scc {
    pub g: Vec<Vec<usize>>,
    pub rg: Vec<Vec<usize>>,
    pub kaerigake: Vec<usize>,
    pub dag: Vec<Vec<usize>>,
    pub group_vs: Vec<Vec<usize>>,
}

/// The vertex at the place `i` of `order` leads to the vertex at the place
/// `j`, which was entered no earlier.
pub open spec fn in_block(g: Seq<Vec<usize>>, order: Seq<usize>, entry: Seq<int>, i: int, j: int) -> bool {
    leads(g, order[i] as int, order[j] as int) && entry[order[i] as int] <= entry[order[j] as int]
}

/// The edge `k` of the vertex at the place `i` of `order` leads to a seen
/// vertex that was entered before the search left the vertex at `i`.
pub open spec fn edge_inside(
    g: Seq<Vec<usize>>,
    seen: Seq<bool>,
    order: Seq<usize>,
    entry: Seq<int>,
    i: int,
    k: int,
) -> bool {
    let w = g[order[i] as int]@[k] as int;
    seen[w] && entry[w] <= i
}

/// What a search, depth first, has noted from the place `base` of `order`
/// on: `order` holds the vertices that it has left, and `entry` holds for
/// each seen vertex how many there were when it entered that vertex. A
/// vertex leads to every vertex that was left between its entry and its own
/// leaving, and those were entered no earlier; and every edge from a vertex
/// that was left leads to a vertex that was entered before.
pub open spec fn search_noted(
    g: Seq<Vec<usize>>,
    seen: Seq<bool>,
    order: Seq<usize>,
    entry: Seq<int>,
    base: int,
) -> bool {
    &&& seen.len() == g.len()
    &&& entry.len() == g.len()
    &&& 0 <= base <= order.len()
    &&& forall|i: int|
        base <= i < order.len() ==> (#[trigger] order[i]) < g.len() && seen[order[i] as int]
            && entry[order[i] as int] <= i
    &&& forall|x: int| 0 <= x < g.len() && seen[x] ==> base <= #[trigger] entry[x] <= order.len()
    &&& forall|i: int, j: int|
        base <= i < order.len() && entry[order[i] as int] <= j <= i ==> #[trigger] in_block(
            g,
            order,
            entry,
            i,
            j,
        )
    &&& forall|i: int, k: int|
        base <= i < order.len() && 0 <= k < g[order[i] as int]@.len() ==> #[trigger] edge_inside(
            g,
            seen,
            order,
            entry,
            i,
            k,
        )
}

/// The search enters a vertex that was not seen.
pub proof fn lemma_noted_enter(
    g: Seq<Vec<usize>>,
    seen: Seq<bool>,
    order: Seq<usize>,
    entry: Seq<int>,
    base: int,
    st: int,
)
    requires
        is_graph(g),
        search_noted(g, seen, order, entry, base),
        0 <= st < g.len(),
        !seen[st],
    ensures
        search_noted(g, seen.update(st, true), order, entry.update(st, order.len() as int), base),
{
    let seen2 = seen.update(st, true);
    let entry2 = entry.update(st, order.len() as int);
    assert forall|i: int, j: int|
        base <= i < order.len() && entry2[order[i] as int] <= j <= i implies #[trigger] in_block(
        g,
        order,
        entry2,
        i,
        j,
    ) by {
        assert(seen[order[i] as int]);
        assert(seen[order[j] as int]);
        assert(in_block(g, order, entry, i, j));
    }
    assert forall|i: int, k: int|
        base <= i < order.len() && 0 <= k < g[order[i] as int]@.len() implies #[trigger] edge_inside(
        g,
        seen2,
        order,
        entry2,
        i,
        k,
    ) by {
        assert(edge_inside(g, seen, order, entry, i, k));
        assert(g[order[i] as int]@[k] < g.len());
    }
}

/// The search leaves a vertex whose neighbours are all seen, and which
/// leads to every vertex left since it was entered.
pub proof fn lemma_noted_leave(
    g: Seq<Vec<usize>>,
    seen: Seq<bool>,
    order: Seq<usize>,
    entry: Seq<int>,
    base: int,
    st: usize,
)
    requires
        is_graph(g),
        search_noted(g, seen, order, entry, base),
        st < g.len(),
        seen[st as int],
        forall|k: int| 0 <= k < g[st as int]@.len() ==> seen[(#[trigger] g[st as int]@[k]) as int],
        forall|j: int|
            entry[st as int] <= j < order.len() ==> leads(g, st as int, (#[trigger] order[j]) as int)
                && entry[order[j] as int] >= entry[st as int],
    ensures
        search_noted(g, seen, order.push(st), entry, base),
{
    let order2 = order.push(st);
    let p = order.len() as int;
    lemma_leads_self(g, st as int);
    assert forall|i: int|
        base <= i < order2.len() implies (#[trigger] order2[i]) < g.len() && seen[order2[i] as int]
        && entry[order2[i] as int] <= i by {
        if i < p {
            assert(order2[i] == order[i]);
        }
    }
    assert forall|i: int, j: int|
        base <= i < order2.len() && entry[order2[i] as int] <= j <= i implies #[trigger] in_block(
        g,
        order2,
        entry,
        i,
        j,
    ) by {
        if i < p {
            assert(order2[i] == order[i] && order2[j] == order[j]);
            assert(in_block(g, order, entry, i, j));
        } else if j < p {
            assert(order2[j] == order[j]);
        }
    }
    assert forall|i: int, k: int|
        base <= i < order2.len() && 0 <= k < g[order2[i] as int]@.len() implies #[trigger] edge_inside(
        g,
        seen,
        order2,
        entry,
        i,
        k,
    ) by {
        if i < p {
            assert(order2[i] == order[i]);
            assert(edge_inside(g, seen, order, entry, i, k));
        } else {
            assert(g[st as int]@[k] < g.len());
        }
    }
}

/// A search of `g` from `st`, depth first: the vertices that it reaches are
/// marked as seen and added to `order` as the search leaves them.
fn dfs(
    g: &Vec<Vec<usize>>,
    st: usize,
    seen: &mut Vec<bool>,
    order: &mut Vec<usize>,
    Ghost(entry): Ghost<Seq<int>>,
    Ghost(base): Ghost<int>,
) -> (noted: Ghost<Seq<int>>)
    requires
        is_graph(g@),
        st < g@.len(),
        old(seen)@.len() == g@.len(),
        !old(seen)@[st as int],
        search_noted(g@, old(seen)@, old(order)@, entry, base),
    ensures
        search_noted(g@, final(seen)@, final(order)@, noted@, base),
        forall|x: int| 0 <= x < g@.len() && old(seen)@[x] ==> #[trigger] noted@[x] == entry[x],
        forall|j: int|
            old(order)@.len() <= j < final(order)@.len() ==> leads(
                g@,
                st as int,
                (#[trigger] final(order)@[j]) as int,
            ) && noted@[final(order)@[j] as int] >= old(order)@.len(),
        final(seen)@.len() == g@.len(),
        final(seen)@[st as int],
        forall|x: int| 0 <= x < g@.len() && old(seen)@[x] ==> final(seen)@[x],
        final(order)@.len() >= old(order)@.len(),
        final(order)@.subrange(0, old(order)@.len() as int) == old(order)@,
        forall|i: int|
            old(order)@.len() <= i < final(order)@.len() ==> (#[trigger] final(order)@[i]) < g@.len(),
        forall|x: int|
            0 <= x < g@.len() && final(seen)@[x] && !old(seen)@[x] ==> exists|i: int|
                old(order)@.len() <= i < final(order)@.len() && #[trigger] final(order)@[i] == x,
    decreases unseen(old(seen)@).len(),
{
    let ghost seen0 = seen@;
    let ghost order0 = order@;
    seen[st] = true;
    let ghost mut cur = entry.update(st as int, order0.len() as int);
    proof {
        lemma_unseen(seen0, seen@);
        lemma_noted_enter(g@, seen0, order0, entry, base, st as int);
        assert(seen@ =~= seen0.update(st as int, true));
    }
    let ghost seen1 = seen@;
    let mut k: usize = 0;
    while k < g[st].len()
        invariant
            is_graph(g@),
            st < g@.len(),
            k <= g@[st as int]@.len(),
            seen0 == old(seen)@,
            order0 == old(order)@,
            search_noted(g@, seen@, order@, cur, base),
            base <= order0.len(),
            entry.len() == g@.len(),
            cur[st as int] == order0.len(),
            forall|x: int| 0 <= x < g@.len() && seen0[x] ==> #[trigger] cur[x] == entry[x],
            forall|j: int|
                order0.len() <= j < order@.len() ==> leads(g@, st as int, (#[trigger] order@[j]) as int)
                    && cur[order@[j] as int] >= order0.len(),
            forall|j: int| 0 <= j < k ==> seen@[(#[trigger] g@[st as int]@[j]) as int],
            seen0.len() == g@.len(),
            seen@.len() == g@.len(),
            seen1 == seen0.update(st as int, true),
            !seen0[st as int],
            unseen(seen1).finite(),
            unseen(seen0).finite(),
            unseen(seen1).len() < unseen(seen0).len(),
            forall|x: int| 0 <= x < g@.len() && seen1[x] ==> seen@[x],
            order@.len() >= order0.len(),
            order@.subrange(0, order0.len() as int) == order0,
            forall|i: int| order0.len() <= i < order@.len() ==> (#[trigger] order@[i]) < g@.len(),
            forall|x: int|
                0 <= x < g@.len() && seen@[x] && !seen1[x] ==> exists|i: int|
                    order0.len() <= i < order@.len() && #[trigger] order@[i] == x,
        decreases g@[st as int]@.len() - k,
    {
        let nv = g[st][k];
        proof {
            assert(g@[st as int]@[k as int] < g@.len());
        }
        if seen[nv] {
            k += 1;
            continue ;
        }
        let ghost seen2 = seen@;
        let ghost order2 = order@;
        let ghost cur2 = cur;
        proof {
            lemma_unseen(seen1, seen@);
        }
        let inner = dfs(g, nv, seen, order, Ghost(cur), Ghost(base));
        proof {
            cur = inner@;
            assert forall|x: int| 0 <= x < g@.len() && seen0[x] implies #[trigger] cur[x] == entry[x] by {
                assert(seen1[x]);
                assert(seen2[x]);
                assert(cur2[x] == entry[x]);
            }
            assert(cur[st as int] == order0.len()) by {
                assert(seen1[st as int]);
                assert(seen2[st as int]);
            }
            assert forall|j: int| order0.len() <= j < order@.len() implies leads(
                g@,
                st as int,
                (#[trigger] order@[j]) as int,
            ) && cur[order@[j] as int] >= order0.len() by {
                if j < order2.len() {
                    assert(order@.subrange(0, order2.len() as int)[j] == order@[j]);
                    assert(order2[j] < g@.len() && seen2[order2[j] as int]);
                    assert(cur2[order2[j] as int] >= order0.len());
                } else {
                    lemma_leads_front(g@, st as int, k as int, order@[j] as int);
                }
            }
            assert forall|j: int| 0 <= j < k + 1 implies seen@[(#[trigger] g@[st as int]@[j]) as int] by {
                if j < k {
                    assert(seen2[g@[st as int]@[j] as int]);
                }
            }
            assert(order@.subrange(0, order0.len() as int) =~= order0) by {
                assert forall|i: int| 0 <= i < order0.len() implies order@[i] == order0[i] by {
                    assert(order@.subrange(0, order2.len() as int)[i] == order@[i]);
                    assert(order2.subrange(0, order0.len() as int)[i] == order2[i]);
                }
            }
            assert forall|x: int| 0 <= x < g@.len() && seen1[x] implies seen@[x] by {
                assert(seen2[x]);
            }
            assert forall|i: int| order0.len() <= i < order@.len() implies (#[trigger] order@[i])
                < g@.len() by {
                if i < order2.len() {
                    assert(order@.subrange(0, order2.len() as int)[i] == order@[i]);
                    assert(order2[i] < g@.len());
                }
            }
            assert forall|x: int| 0 <= x < g@.len() && seen@[x] && !seen1[x] implies exists|
                i: int,
            |
                order0.len() <= i < order@.len() && #[trigger] order@[i] == x by {
                if seen2[x] {
                    let i = choose|i: int|
                        order0.len() <= i < order2.len() && #[trigger] order2[i] == x;
                    assert(order@.subrange(0, order2.len() as int)[i] == order@[i]);
                    assert(order@[i] == x);
                } else {
                    let i = choose|i: int|
                        order2.len() <= i < order@.len() && #[trigger] order@[i] == x;
                    assert(order@[i] == x);
                }
            }
        }
        k += 1;
    }
    let ghost order3 = order@;
    proof {
        assert forall|x: int| 0 <= x < g@.len() && seen@[x] && !seen1[x] implies exists|i: int|
            order0.len() <= i < order3.len() && #[trigger] order3[i] == x by {}
    }
    order.push(st);
    proof {
        assert(seen@[st as int]) by {
            assert(seen1[st as int]);
        }
        lemma_noted_leave(g@, seen@, order3, cur, base, st);
        lemma_leads_self(g@, st as int);
        assert forall|j: int| order0.len() <= j < order@.len() implies leads(
            g@,
            st as int,
            (#[trigger] order@[j]) as int,
        ) && cur[order@[j] as int] >= order0.len() by {
            if j < order3.len() {
                assert(order@[j] == order3[j]);
            }
        }
        assert(order@.subrange(0, order0.len() as int) =~= order0) by {
            assert forall|i: int| 0 <= i < order0.len() implies order@[i] == order0[i] by {
                assert(order3.subrange(0, order0.len() as int)[i] == order3[i]);
            }
        }
        assert forall|x: int| 0 <= x < g@.len() && seen0[x] implies seen@[x] by {
            assert(seen1[x]);
        }
        assert(seen1[st as int]);
        assert forall|x: int| 0 <= x < g@.len() && seen@[x] && !seen0[x] implies exists|i: int|
            order0.len() <= i < order@.len() && #[trigger] order@[i] == x by {
            if x == st {
                assert(order@[order3.len() as int] == st);
            } else {
                assert(!seen1[x]);
                let i = choose|i: int|
                    order0.len() <= i < order3.len() && #[trigger] order3[i] == x;
                assert(order@[i] == order3[i]);
            }
        }
    }
    Ghost(cur)
}

/// A search of `rg` from `st`, depth first: the vertices that it reaches are
/// marked as seen and get the group `cnt`.
fn rdfs(rg: &Vec<Vec<usize>>, st: usize, seen: &mut Vec<bool>, group: &mut Vec<usize>, cnt: usize)
    requires
        is_graph(rg@),
        st < rg@.len(),
        old(seen)@.len() == rg@.len(),
        old(group)@.len() == rg@.len(),
        !old(seen)@[st as int],
    ensures
        final(seen)@.len() == rg@.len(),
        final(group)@.len() == rg@.len(),
        final(seen)@[st as int],
        forall|x: int| 0 <= x < rg@.len() && old(seen)@[x] ==> final(seen)@[x],
        forall|x: int|
            0 <= x < rg@.len() ==> #[trigger] final(group)@[x] == (if final(seen)@[x] && !old(seen)@[x] {
                cnt
            } else {
                old(group)@[x]
            }),
        forall|x: int, k: int|
            0 <= x < rg@.len() && final(seen)@[x] && !old(seen)@[x] && 0 <= k < rg@[x]@.len()
                ==> final(seen)@[(#[trigger] rg@[x]@[k]) as int],
        forall|x: int|
            0 <= x < rg@.len() && #[trigger] final(seen)@[x] && !old(seen)@[x] ==> leads(rg@, st as int, x),
    decreases unseen(old(seen)@).len(),
{
    let ghost seen0 = seen@;
    let ghost group0 = group@;
    seen[st] = true;
    group[st] = cnt;
    proof {
        lemma_unseen(seen0, seen@);
    }
    let ghost seen1 = seen@;
    let mut k: usize = 0;
    while k < rg[st].len()
        invariant
            is_graph(rg@),
            st < rg@.len(),
            k <= rg@[st as int]@.len(),
            seen0 == old(seen)@,
            group0 == old(group)@,
            seen0.len() == rg@.len(),
            group0.len() == rg@.len(),
            seen@.len() == rg@.len(),
            group@.len() == rg@.len(),
            seen1 == seen0.update(st as int, true),
            !seen0[st as int],
            unseen(seen1).finite(),
            unseen(seen0).finite(),
            unseen(seen1).len() < unseen(seen0).len(),
            forall|x: int| 0 <= x < rg@.len() && seen1[x] ==> seen@[x],
            forall|x: int|
                0 <= x < rg@.len() ==> #[trigger] group@[x] == (if seen@[x] && !seen0[x] {
                    cnt
                } else {
                    group0[x]
                }),
            forall|x: int, j: int|
                0 <= x < rg@.len() && seen@[x] && !seen1[x] && 0 <= j < rg@[x]@.len() ==> seen@[(
                #[trigger] rg@[x]@[j]) as int],
            forall|x: int| 0 <= x < rg@.len() && #[trigger] seen@[x] && !seen1[x] ==> leads(rg@, st as int, x),
            forall|j: int| 0 <= j < k ==> seen@[(#[trigger] rg@[st as int]@[j]) as int],
        decreases rg@[st as int]@.len() - k,
    {
        let nv = rg[st][k];
        proof {
            assert(rg@[st as int]@[k as int] < rg@.len());
        }
        if seen[nv] {
            k += 1;
            continue ;
        }
        let ghost seen2 = seen@;
        let ghost group2 = group@;
        proof {
            lemma_unseen(seen1, seen@);
        }
        rdfs(rg, nv, seen, group, cnt);
        proof {
            assert forall|x: int| 0 <= x < rg@.len() && seen1[x] implies seen@[x] by {
                assert(seen2[x]);
            }
            assert forall|x: int, j: int|
                0 <= x < rg@.len() && seen@[x] && !seen1[x] && 0 <= j < rg@[x]@.len() implies seen@[(
            #[trigger] rg@[x]@[j]) as int] by {
                if seen2[x] {
                    assert(seen2[rg@[x]@[j] as int]);
                    assert(rg@[x]@[j] < rg@.len());
                }
            }
            assert forall|x: int| 0 <= x < rg@.len() && #[trigger] seen@[x] && !seen1[x] implies leads(
                rg@,
                st as int,
                x,
            ) by {
                if !seen2[x] {
                    lemma_leads_front(rg@, st as int, k as int, x);
                }
            }
            assert forall|j: int| 0 <= j < k + 1 implies seen@[(#[trigger] rg@[st as int]@[j]) as int] by {
                if j < k {
                    assert(seen2[rg@[st as int]@[j] as int]);
                    assert(rg@[st as int]@[j] < rg@.len());
                }
            }
            assert forall|x: int| 0 <= x < rg@.len() implies #[trigger] group@[x] == (if seen@[x]
                && !seen0[x] {
                cnt
            } else {
                group0[x]
            }) by {
                assert(group2[x] == (if seen2[x] && !seen0[x] {
                    cnt
                } else {
                    group0[x]
                }));
                if seen0[x] {
                    assert(seen1[x]);
                    assert(seen2[x]);
                }
            }
        }
        k += 1;
    }
    proof {
        assert forall|x: int| 0 <= x < rg@.len() && seen0[x] implies seen@[x] by {
            assert(seen1[x]);
        }
        assert(seen1[st as int]);
        lemma_leads_self(rg@, st as int);
    }
}

/// Every vertex of `g` that is not seen has only neighbours that are not
/// seen, where every vertex with an edge to a seen vertex is seen.
pub proof fn lemma_unseen_closed(g: Seq<Vec<usize>>, rg: Seq<Vec<usize>>, seen: Seq<bool>)
    requires
        is_graph(g),
        g.len() <= usize::MAX,
        is_reversed(g, rg),
        seen.len() == g.len(),
        forall|x: int, k: int|
            0 <= x < g.len() && seen[x] && 0 <= k < rg[x]@.len() ==> seen[(#[trigger] rg[x]@[k]) as int],
    ensures
        forall|y: int, k: int|
            0 <= y < g.len() && !seen[y] && 0 <= k < g[y]@.len() ==> !seen[(#[trigger] g[y]@[k]) as int],
{
    assert forall|y: int, k: int| 0 <= y < g.len() && !seen[y] && 0 <= k < g[y]@.len() implies !seen[(
    #[trigger] g[y]@[k]) as int] by {
        let w = g[y]@[k] as int;
        if seen[w] {
            lemma_sources_hold(g, w, g.len() as int, 0, y, k);
            assert(rg[w]@ == sources(g, w, g.len() as int, 0));
            let t = choose|t: int| 0 <= t < rg[w]@.len() && rg[w]@[t] == y as usize;
            assert(seen[rg[w]@[t] as int]);
        }
    }
}

/// A vertex that is not seen in the second search, and from which a walk
/// leads to the vertex at the place `at` of `order`, behind which all are
/// seen, was left by the first search between the entry and the leaving of
/// that vertex: so that vertex leads to it.
pub proof fn lemma_in_block(
    g: Seq<Vec<usize>>,
    all: Seq<bool>,
    order: Seq<usize>,
    entry: Seq<int>,
    base: int,
    seen: Seq<bool>,
    at: int,
    walk: Seq<int>,
) -> (ix: int)
    requires
        is_graph(g),
        search_noted(g, all, order, entry, base),
        forall|x: int| 0 <= x < g.len() ==> #[trigger] is_noted(order, base, x),
        seen.len() == g.len(),
        forall|y: int, k: int|
            0 <= y < g.len() && !seen[y] && 0 <= k < g[y]@.len() ==> !seen[(#[trigger] g[y]@[k]) as int],
        forall|j: int| at < j < order.len() ==> seen[(#[trigger] order[j]) as int],
        base <= at < order.len(),
        is_path(g, walk),
        !seen[walk[0]],
        walk.last() == order[at],
    ensures
        entry[order[at] as int] <= ix <= at,
        order[ix] == walk[0],
        leads(g, order[at] as int, walk[0]),
    decreases walk.len(),
{
    let x = walk[0];
    assert(order[at] < g.len());
    if walk.len() == 1 {
        assert(in_block(g, order, entry, at, at));
        at
    } else {
        let next = walk[1];
        let rest = walk.drop_first();
        assert(is_path(g, rest)) by {
            assert forall|t: int| 0 <= t < rest.len() - 1 implies has_edge(g, #[trigger] rest[t], rest[t + 1]) by {
                assert(has_edge(g, walk[t + 1], walk[t + 1 + 1]));
            }
            assert forall|t: int| 0 <= t < rest.len() implies 0 <= #[trigger] rest[t] < g.len() by {
                assert(0 <= walk[t + 1] < g.len());
            }
        }
        assert(has_edge(g, walk[0], walk[0int + 1]));
        let k = choose|k: int| 0 <= k < g[x]@.len() && #[trigger] g[x]@[k] == next;
        assert(!seen[g[x]@[k] as int]);
        assert(rest[0] == next && rest.last() == walk.last());
        let i1 = lemma_in_block(g, all, order, entry, base, seen, at, rest);
        assert(is_noted(order, base, x));
        let ix = choose|ix: int| base <= ix < order.len() && #[trigger] order[ix] == x;
        if ix > at {
            assert(seen[order[ix] as int]);
        }
        assert(edge_inside(g, all, order, entry, ix, k));
        assert(in_block(g, order, entry, at, i1));
        assert(in_block(g, order, entry, at, ix));
        ix
    }
}

/// Every edge of `g` leads to a vertex of the same or a later group.
pub open spec fn ascending(g: Seq<Vec<usize>>, group: Seq<usize>) -> bool {
    forall|u: int, k: int|
        0 <= u < g.len() && 0 <= k < g[u]@.len() ==> group[u] <= group[(#[trigger] g[u]@[k]) as int]
}

/// Two vertices have the same group where each leads to the other, and
/// nowhere else.
pub open spec fn is_components(g: Seq<Vec<usize>>, group: Seq<usize>) -> bool {
    forall|x: int, y: int|
        0 <= x < g.len() && 0 <= y < g.len() ==> (#[trigger] group[x] == #[trigger] group[y] <==> leads(
            g,
            x,
            y,
        ) && leads(g, y, x))
}

/// The vertex `x` and the first vertex found of its group lead to each
/// other.
pub open spec fn tied(g: Seq<Vec<usize>>, roots: Seq<int>, group: Seq<usize>, x: int) -> bool {
    leads(g, x, roots[group[x] as int]) && leads(g, roots[group[x] as int], x)
}

/// Along a walk the groups do not fall, where they do not fall along the
/// edges.
pub proof fn lemma_ascending_walk(g: Seq<Vec<usize>>, group: Seq<usize>, walk: Seq<int>)
    requires
        ascending(g, group),
        is_path(g, walk),
    ensures
        group[walk[0]] <= group[walk.last()],
    decreases walk.len(),
{
    if walk.len() > 1 {
        let front = walk.drop_last();
        assert(is_path(g, front)) by {
            assert forall|t: int| 0 <= t < front.len() - 1 implies has_edge(
                g,
                #[trigger] front[t],
                front[t + 1],
            ) by {
                assert(has_edge(g, walk[t], walk[t + 1]));
            }
        }
        lemma_ascending_walk(g, group, front);
        let u = walk[walk.len() - 2];
        assert(front.last() == u);
        assert(has_edge(g, walk[walk.len() - 2], walk[walk.len() - 2 + 1]));
        let k = choose|k: int| 0 <= k < g[u]@.len() && #[trigger] g[u]@[k] == walk.last();
        assert(group[u] <= group[g[u]@[k] as int]);
    }
}

/// Groups that do not fall along the edges, each with a vertex that leads
/// to its vertices and to which they lead, are the strongly connected
/// components.
pub proof fn lemma_components(g: Seq<Vec<usize>>, rg: Seq<Vec<usize>>, roots: Seq<int>, group: Seq<usize>)
    requires
        is_graph(g),
        g.len() <= usize::MAX,
        is_reversed(g, rg),
        group.len() == g.len(),
        forall|x: int, k: int|
            0 <= x < g.len() && 0 <= k < rg[x]@.len() ==> group[(#[trigger] rg[x]@[k]) as int] <= group[x],
        forall|x: int| 0 <= x < g.len() ==> #[trigger] tied(g, roots, group, x),
    ensures
        ascending(g, group),
        is_components(g, group),
{
    assert forall|u: int, k: int| 0 <= u < g.len() && 0 <= k < g[u]@.len() implies group[u] <= group[(
    #[trigger] g[u]@[k]) as int] by {
        let w = g[u]@[k] as int;
        lemma_sources_hold(g, w, g.len() as int, 0, u, k);
        assert(rg[w]@ == sources(g, w, g.len() as int, 0));
        let t = choose|t: int| 0 <= t < rg[w]@.len() && rg[w]@[t] == u as usize;
        assert(group[rg[w]@[t] as int] <= group[w]);
    }
    assert forall|x: int, y: int| 0 <= x < g.len() && 0 <= y < g.len() implies (#[trigger] group[x]
        == #[trigger] group[y] <==> leads(g, x, y) && leads(g, y, x)) by {
        if group[x] == group[y] {
            assert(tied(g, roots, group, x));
            assert(tied(g, roots, group, y));
            let r = roots[group[x] as int];
            lemma_leads_on(g, x, r, y);
            lemma_leads_on(g, y, r, x);
        }
        if leads(g, x, y) && leads(g, y, x) {
            let there = choose|walk: Seq<int>| #[trigger] is_path(g, walk) && walk[0] == x && walk.last() == y;
            let back = choose|walk: Seq<int>| #[trigger] is_path(g, walk) && walk[0] == y && walk.last() == x;
            lemma_ascending_walk(g, group, there);
            lemma_ascending_walk(g, group, back);
        }
    }
}

/// The vertices before `m` that have the group `c`, in rising order.
pub open spec fn vertices_of(group: Seq<usize>, c: int, m: int) -> Seq<usize>
    decreases m,
{
    if m <= 0 {
        Seq::empty()
    } else if group[m - 1] == c {
        vertices_of(group, c, m - 1).push((m - 1) as usize)
    } else {
        vertices_of(group, c, m - 1)
    }
}

/// The groups that the edges from the group `c` lead to, but `c` itself,
/// once for each edge, in the order of the edges: those of the vertices
/// before `m`, and of the vertex `m` as far as its edges before `k` go.
pub open spec fn group_edges(g: Seq<Vec<usize>>, group: Seq<usize>, c: int, m: int, k: int) -> Seq<
    usize,
>
    decreases m, k,
{
    if k > 0 {
        if group[m] == c && group[g[m]@[k - 1] as int] != c {
            group_edges(g, group, c, m, k - 1).push(group[g[m]@[k - 1] as int])
        } else {
            group_edges(g, group, c, m, k - 1)
        }
    } else if m > 0 {
        group_edges(g, group, c, m - 1, g[m - 1]@.len() as int)
    } else {
        Seq::empty()
    }
}

/// The vertex `x` stands in `order` at the place `from` or behind it.
pub open spec fn is_noted(order: Seq<usize>, from: int, x: int) -> bool {
    exists|i: int| from <= i < order.len() && #[trigger] order[i] == x
}

/// Some vertex has the group `c`.
pub open spec fn has_member(group: Seq<usize>, c: int) -> bool {
    exists|x: int| 0 <= x < group.len() && #[trigger] group[x] == c
}

/// `group` sorts the vertices of `g` into the groups `group_vs`, which are
/// not empty, and `dag` holds the edges between different groups.
pub open spec fn is_grouping(
    g: Seq<Vec<usize>>,
    group: Seq<usize>,
    group_vs: Seq<Vec<usize>>,
    dag: Seq<Vec<usize>>,
) -> bool {
    &&& group.len() == g.len()
    &&& dag.len() == group_vs.len()
    &&& forall|v: int| 0 <= v < g.len() ==> (#[trigger] group[v]) < group_vs.len()
    &&& forall|c: int| 0 <= c < group_vs.len() ==> #[trigger] has_member(group, c)
    &&& forall|c: int|
        0 <= c < group_vs.len() ==> (#[trigger] group_vs[c])@ == vertices_of(group, c, g.len() as int)
    &&& forall|c: int|
        0 <= c < group_vs.len() ==> (#[trigger] dag[c])@ == group_edges(
            g,
            group,
            c,
            g.len() as int,
            0,
        )
}

impl Scc {
    /// The graph `g` with its edges turned round beside it, and nothing
    /// else yet.
    pub fn new(g: Vec<Vec<usize>>) -> (scc: Self)
        requires
            is_graph(g@),
        ensures
            scc.g@ == g@,
            is_reversed(scc.g@, scc.rg@),
            scc.kaerigake@.len() == 0,
            scc.dag@.len() == 0,
            scc.group_vs@.len() == 0,
    {
        let n = g.len();
        let mut rg: Vec<Vec<usize>> = Vec::new();
        let mut i: usize = 0;
        while i < n
            invariant
                i <= n,
                rg@.len() == i,
                forall|x: int| 0 <= x < i ==> (#[trigger] rg@[x])@.len() == 0,
            decreases n - i,
        {
            rg.push(Vec::new());
            i += 1;
        }
        let mut v: usize = 0;
        while v < n
            invariant
                n == g@.len(),
                is_graph(g@),
                v <= n,
                rg@.len() == n,
                forall|x: int| 0 <= x < n ==> (#[trigger] rg@[x])@ =~= sources(g@, x, v as int, 0),
            decreases n - v,
        {
            let mut k: usize = 0;
            while k < g[v].len()
                invariant
                    n == g@.len(),
                    is_graph(g@),
                    v < n,
                    k <= g@[v as int]@.len(),
                    rg@.len() == n,
                    forall|x: int|
                        0 <= x < n ==> (#[trigger] rg@[x])@ =~= sources(g@, x, v as int, k as int),
                decreases g@[v as int]@.len() - k,
            {
                let nv = g[v][k];
                proof {
                    assert(g@[v as int]@[k as int] < n);
                }
                let ghost before = rg@;
                rg[nv].push(v);
                proof {
                    assert forall|x: int| 0 <= x < n implies (#[trigger] rg@[x])@ =~= sources(
                        g@,
                        x,
                        v as int,
                        k + 1,
                    ) by {
                        assert(before[x]@ =~= sources(g@, x, v as int, k as int));
                    }
                }
                k += 1;
            }
            v += 1;
        }
        Scc { g, rg, kaerigake: Vec::new(), dag: Vec::new(), group_vs: Vec::new() }
    }

    /// The graph, its edges turned round beside it, and the vertices noted
    /// are vertices.
    pub open spec fn wf(&self) -> bool {
        &&& is_graph(self.g@)
        &&& is_reversed(self.g@, self.rg@)
        &&& forall|i: int| 0 <= i < self.kaerigake@.len() ==> (#[trigger] self.kaerigake@[i]) < self.g@.len()
    }

    /// Sorts the vertices into their strongly connected components, by a
    /// search of the graph and a search of the graph turned round in the
    /// order in which the first search left the vertices. `kaerigake` gets
    /// the vertices in the order in which the first search leaves them;
    /// `group_vs` gets the groups, and `dag` the edges between different
    /// groups. Two vertices are in one group where each leads to the other,
    /// and nowhere else; no edge leads to an earlier group.
    pub fn scc(&mut self)
        requires
            old(self).wf(),
        ensures
            final(self).g@ == old(self).g@,
            final(self).rg@ == old(self).rg@,
            final(self).wf(),
            final(self).kaerigake@.subrange(0, old(self).kaerigake@.len() as int) == old(self).kaerigake@,
            forall|x: int|
                0 <= x < old(self).g@.len() ==> #[trigger] is_noted(
                    final(self).kaerigake@,
                    old(self).kaerigake@.len() as int,
                    x,
                ),
            exists|group: Seq<usize>|
                #![trigger is_components(final(self).g@, group)]
                is_grouping(final(self).g@, group, final(self).group_vs@, final(self).dag@)
                    && is_components(final(self).g@, group) && ascending(final(self).g@, group),
    {
        let n = self.g.len();
        let ghost order0 = self.kaerigake@;
        proof {
            assert forall|v: int, k: int|
                0 <= v < self.rg@.len() && 0 <= k < self.rg@[v]@.len() implies (
            #[trigger] self.rg@[v]@[k]) < self.rg@.len() by {
                lemma_sources(self.g@, v, n as int, 0, k);
            }
        }
        let mut seen: Vec<bool> = vec![false; n];
        let ghost mut entry: Seq<int> = Seq::new(n as nat, |x: int| 0int);
        let mut v: usize = 0;
        while v < n
            invariant
                n == self.g@.len(),
                self.g@ == old(self).g@,
                self.rg@ == old(self).rg@,
                is_graph(self.g@),
                order0 == old(self).kaerigake@,
                search_noted(self.g@, seen@, self.kaerigake@, entry, order0.len() as int),
                forall|i: int| 0 <= i < order0.len() ==> (#[trigger] order0[i]) < n,
                v <= n,
                seen@.len() == n,
                forall|x: int| 0 <= x < v ==> #[trigger] seen@[x],
                self.kaerigake@.len() >= order0.len(),
                self.kaerigake@.subrange(0, order0.len() as int) == order0,
                forall|i: int|
                    order0.len() <= i < self.kaerigake@.len() ==> (#[trigger] self.kaerigake@[i]) < n,
                forall|x: int|
                    0 <= x < n && seen@[x] ==> exists|i: int|
                        order0.len() <= i < self.kaerigake@.len() && #[trigger] self.kaerigake@[i]
                            == x,
            decreases n - v,
        {
            if seen[v] {
                v += 1;
                continue ;
            }
            let ghost seen2 = seen@;
            let ghost order2 = self.kaerigake@;
            let noted = dfs(&self.g, v, &mut seen, &mut self.kaerigake, Ghost(entry), Ghost(order0.len() as int));
            proof {
                entry = noted@;
                let order = self.kaerigake@;
                assert(order.subrange(0, order0.len() as int) =~= order0) by {
                    assert forall|i: int| 0 <= i < order0.len() implies order[i] == order0[i] by {
                        assert(order.subrange(0, order2.len() as int)[i] == order[i]);
                        assert(order2.subrange(0, order0.len() as int)[i] == order2[i]);
                    }
                }
                assert forall|i: int| order0.len() <= i < order.len() implies (#[trigger] order[i])
                    < n by {
                    if i < order2.len() {
                        assert(order.subrange(0, order2.len() as int)[i] == order[i]);
                        assert(order2[i] < n);
                    }
                }
                assert forall|x: int| 0 <= x < n && seen@[x] implies exists|i: int|
                    order0.len() <= i < order.len() && #[trigger] order[i] == x by {
                    if seen2[x] {
                        let i = choose|i: int|
                            order0.len() <= i < order2.len() && #[trigger] order2[i] == x;
                        assert(order.subrange(0, order2.len() as int)[i] == order[i]);
                        assert(order[i] == x);
                    } else {
                        let i = choose|i: int|
                            order2.len() <= i < order.len() && #[trigger] order[i] == x;
                        assert(order[i] == x);
                    }
                }
                assert forall|x: int| 0 <= x < v + 1 implies #[trigger] seen@[x] by {
                    if x < v {
                        assert(seen2[x]);
                    }
                }
            }
            v += 1;
        }
        proof {
            assert forall|x: int| 0 <= x < n implies #[trigger] is_noted(
                self.kaerigake@,
                order0.len() as int,
                x,
            ) by {
                assert(seen@[x]);
            }
        }
        let ghost order = self.kaerigake@;
        let ghost all = seen@;
        let ghost g0 = self.g@;
        let ghost base = order0.len() as int;
        let ghost mut roots: Seq<int> = Seq::empty();
        proof {
            assert forall|j: int| 0 <= j < order.len() implies (#[trigger] order[j]) < n by {
                if j < order0.len() {
                    assert(order.subrange(0, order0.len() as int)[j] == order[j]);
                    assert(order0[j] < n);
                }
            }
        }
        let mut seen: Vec<bool> = vec![false; n];
        let mut group: Vec<usize> = vec![usize::MAX; n];
        let mut cnt: usize = 0;
        let mut i: usize = self.kaerigake.len();
        proof {
            lemma_unseen(seen@, seen@);
            lemma_bounded_set(unseen(seen@), n as int);
        }
        while i > 0
            invariant
                n == self.g@.len(),
                self.g@ == old(self).g@,
                self.rg@ == old(self).rg@,
                self.rg@.len() == n,
                is_graph(self.rg@),
                i <= self.kaerigake@.len(),
                self.kaerigake@ == order,
                order0 == old(self).kaerigake@,
                forall|x: int|
                    0 <= x < n ==> #[trigger] is_noted(order, order0.len() as int, x),
                forall|j: int| 0 <= j < self.kaerigake@.len() ==> (#[trigger] self.kaerigake@[j]) < n,
                seen@.len() == n,
                group@.len() == n,
                unseen(seen@).finite(),
                cnt + unseen(seen@).len() <= n,
                forall|j: int| i <= j < self.kaerigake@.len() ==> seen@[(#[trigger] self.kaerigake@[j]) as int],
                forall|x: int| 0 <= x < n && seen@[x] ==> (#[trigger] group@[x]) < cnt,
                forall|x: int| 0 <= x < n && !seen@[x] ==> (#[trigger] group@[x]) == usize::MAX,
                forall|c: int| 0 <= c < cnt ==> #[trigger] has_member(group@, c),
                g0 == self.g@,
                is_graph(g0),
                is_reversed(g0, self.rg@),
                base == order0.len(),
                search_noted(g0, all, order, entry, base),
                roots.len() == cnt,
                forall|x: int, k: int|
                    0 <= x < n && seen@[x] && 0 <= k < self.rg@[x]@.len() ==> seen@[(
                    #[trigger] self.rg@[x]@[k]) as int] && group@[self.rg@[x]@[k] as int] <= group@[x],
                forall|x: int| 0 <= x < n && seen@[x] ==> #[trigger] tied(g0, roots, group@, x),
            decreases i,
        {
            i -= 1;
            let v = self.kaerigake[i];
            if seen[v] {
                continue ;
            }
            let ghost seen2 = seen@;
            let ghost group2 = group@;
            let ghost roots2 = roots;
            rdfs(&self.rg, v, &mut seen, &mut group, cnt);
            proof {
                roots = roots2.push(v as int);
                lemma_unseen_closed(g0, self.rg@, seen2);
                assert(is_noted(order, base, v as int));
                assert(base <= i) by {
                    let j = choose|j: int| base <= j < order.len() && #[trigger] order[j] == v as int;
                    if j > i {
                        assert(seen2[self.kaerigake@[j] as int]);
                    }
                }
                assert forall|x: int| 0 <= x < n && seen@[x] implies #[trigger] tied(
                    g0,
                    roots,
                    group@,
                    x,
                ) by {
                    if seen2[x] {
                        assert(tied(g0, roots2, group2, x));
                        assert(group2[x] < cnt);
                        assert(group@[x] == group2[x]);
                    } else {
                        assert(group@[x] == cnt);
                        let turned = choose|walk: Seq<int>| #[trigger]
                            is_path(self.rg@, walk) && walk[0] == v as int && walk.last() == x;
                        lemma_turned(g0, self.rg@, turned);
                        let walk = choose|walk: Seq<int>| #[trigger]
                            is_path(g0, walk) && walk[0] == x && walk.last() == v as int;
                        let ix = lemma_in_block(g0, all, order, entry, base, seen2, i as int, walk);
                    }
                }
                assert forall|x: int, k: int|
                    0 <= x < n && seen@[x] && 0 <= k < self.rg@[x]@.len() implies seen@[(
                #[trigger] self.rg@[x]@[k]) as int] && group@[self.rg@[x]@[k] as int] <= group@[x] by {
                    let y = self.rg@[x]@[k] as int;
                    assert(0 <= y < n);
                    if seen2[x] {
                        assert(seen2[y] && group2[y] <= group2[x]);
                        assert(group@[x] == group2[x]);
                        assert(group@[y] == group2[y]);
                    } else {
                        assert(group@[x] == cnt);
                        assert(seen@[y]);
                        if seen2[y] {
                            assert(group2[y] < cnt);
                            assert(group@[y] == group2[y]);
                        } else {
                            assert(group@[y] == cnt);
                        }
                    }
                }
                lemma_unseen(seen2, seen@);
                assert(group@[v as int] == cnt);
                assert forall|c: int| 0 <= c < cnt + 1 implies #[trigger] has_member(
                    group@,
                    c,
                ) by {
                    if c < cnt {
                        assert(has_member(group2, c));
                        let x = choose|x: int| 0 <= x < n && #[trigger] group2[x] == c;
                        assert(group@[x] == (if seen@[x] && !seen2[x] {
                            cnt
                        } else {
                            group2[x]
                        }));
                        if seen@[x] && !seen2[x] {
                            assert(group2[x] == usize::MAX || seen2[x]);
                        }
                        assert(group@[x] == c);
                    } else {
                        assert(group@[v as int] == c);
                    }
                }
                assert forall|x: int| 0 <= x < n && seen@[x] implies (#[trigger] group@[x]) < cnt
                    + 1 by {
                    if seen2[x] {
                        assert(group2[x] < cnt);
                    }
                }
                assert forall|j: int| i <= j < self.kaerigake@.len() implies seen@[(
                #[trigger] self.kaerigake@[j]) as int] by {
                    if j > i {
                        assert(seen2[self.kaerigake@[j] as int]);
                    }
                }
            }
            cnt += 1;
        }
        proof {
            assert forall|x: int| 0 <= x < n implies (#[trigger] group@[x]) < cnt by {
                assert(is_noted(order, order0.len() as int, x));
                let j = choose|j: int| order0.len() <= j < order.len() && #[trigger] order[j] == x;
                assert(seen@[self.kaerigake@[j] as int]);
            }
            assert forall|x: int| 0 <= x < n implies #[trigger] tied(g0, roots, group@, x) by {
                assert(is_noted(order, order0.len() as int, x));
                let j = choose|j: int| order0.len() <= j < order.len() && #[trigger] order[j] == x;
                assert(seen@[self.kaerigake@[j] as int]);
            }
            assert forall|x: int, k: int| 0 <= x < n && 0 <= k < self.rg@[x]@.len() implies group@[(
            #[trigger] self.rg@[x]@[k]) as int] <= group@[x] by {
                assert(is_noted(order, order0.len() as int, x));
                let j = choose|j: int| order0.len() <= j < order.len() && #[trigger] order[j] == x;
                assert(seen@[self.kaerigake@[j] as int]);
            }
            lemma_components(g0, self.rg@, roots, group@);
        }
        let mut dag: Vec<Vec<usize>> = Vec::new();
        let mut group_vs: Vec<Vec<usize>> = Vec::new();
        let mut c: usize = 0;
        while c < cnt
            invariant
                c <= cnt,
                dag@.len() == c,
                group_vs@.len() == c,
                forall|d: int| 0 <= d < c ==> (#[trigger] dag@[d])@.len() == 0,
                forall|d: int| 0 <= d < c ==> (#[trigger] group_vs@[d])@.len() == 0,
            decreases cnt - c,
        {
            dag.push(Vec::new());
            group_vs.push(Vec::new());
            c += 1;
        }
        let mut v: usize = 0;
        while v < n
            invariant
                n == self.g@.len(),
                self.g@ == old(self).g@,
                self.rg@ == old(self).rg@,
                self.kaerigake@ == order,
                is_graph(self.g@),
                v <= n,
                group@.len() == n,
                dag@.len() == cnt,
                group_vs@.len() == cnt,
                forall|x: int| 0 <= x < n ==> (#[trigger] group@[x]) < cnt,
                forall|d: int|
                    0 <= d < cnt ==> (#[trigger] group_vs@[d])@ =~= vertices_of(group@, d, v as int),
                forall|d: int|
                    0 <= d < cnt ==> (#[trigger] dag@[d])@ =~= group_edges(
                        self.g@,
                        group@,
                        d,
                        v as int,
                        0,
                    ),
            decreases n - v,
        {
            let gv = group[v];
            let ghost before = group_vs@;
            group_vs[gv].push(v);
            proof {
                assert forall|d: int| 0 <= d < cnt implies (#[trigger] group_vs@[d])@ =~= vertices_of(
                    group@,
                    d,
                    v + 1,
                ) by {
                    assert(before[d]@ =~= vertices_of(group@, d, v as int));
                }
            }
            let mut k: usize = 0;
            while k < self.g[v].len()
                invariant
                    n == self.g@.len(),
                    self.g@ == old(self).g@,
                    self.rg@ == old(self).rg@,
                    self.kaerigake@ == order,
                    is_graph(self.g@),
                    v < n,
                    gv == group@[v as int],
                    k <= self.g@[v as int]@.len(),
                    group@.len() == n,
                    dag@.len() == cnt,
                    group_vs@.len() == cnt,
                    forall|x: int| 0 <= x < n ==> (#[trigger] group@[x]) < cnt,
                    forall|d: int|
                        0 <= d < cnt ==> (#[trigger] group_vs@[d])@ =~= vertices_of(
                            group@,
                            d,
                            v + 1,
                        ),
                    forall|d: int|
                        0 <= d < cnt ==> (#[trigger] dag@[d])@ =~= group_edges(
                            self.g@,
                            group@,
                            d,
                            v as int,
                            k as int,
                        ),
                decreases self.g@[v as int]@.len() - k,
            {
                let nv = self.g[v][k];
                proof {
                    assert(self.g@[v as int]@[k as int] < n);
                }
                let ghost edges = dag@;
                if group[v] == group[nv] {
                    proof {
                        assert forall|d: int| 0 <= d < cnt implies (#[trigger] dag@[d])@ =~= group_edges(
                            self.g@,
                            group@,
                            d,
                            v as int,
                            k + 1,
                        ) by {
                            assert(edges[d]@ =~= group_edges(self.g@, group@, d, v as int, k as int));
                        }
                    }
                    k += 1;
                    continue ;
                }
                let target = group[nv];
                dag[gv].push(target);
                proof {
                    assert forall|d: int| 0 <= d < cnt implies (#[trigger] dag@[d])@ =~= group_edges(
                        self.g@,
                        group@,
                        d,
                        v as int,
                        k + 1,
                    ) by {
                        assert(edges[d]@ =~= group_edges(self.g@, group@, d, v as int, k as int));
                    }
                }
                k += 1;
            }
            v += 1;
        }
        self.dag = dag;
        self.group_vs = group_vs;
        proof {
            assert(is_grouping(self.g@, group@, self.group_vs@, self.dag@));
            assert(self.g@ == g0);
        }
    }
}

} // verus!
