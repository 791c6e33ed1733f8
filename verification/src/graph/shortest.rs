use crate::graph::forest::lemma_bounded_set;
use vstd::prelude::*;

verus! {

/// `g` is a graph with costs in adjacency lists: each entry of a list is a
/// cost and a neighbour, which is a vertex.
pub open spec fn is_cost_graph(g: Seq<Vec<(usize, usize)>>) -> bool {
    forall|v: int, k: int| 0 <= v < g.len() && 0 <= k < g[v]@.len() ==> (#[trigger] g[v]@[k]).1 < g.len()
}

/// What stands for "no way": `2^60`.
pub open spec fn far() -> int {
    0x1000_0000_0000_0000
}

/// No cost of `g` is above `c`.
pub open spec fn costs_within(g: Seq<Vec<(usize, usize)>>, c: int) -> bool {
    forall|v: int, k: int| 0 <= v < g.len() && 0 <= k < g[v]@.len() ==> (#[trigger] g[v]@[k]).0 <= c
}

/// `a` comes before `b`, or is `b`, in the order of pairs: by the first
/// entry, and by the second where the first entries are equal.
pub open spec fn pair_le(a: (usize, usize), b: (usize, usize)) -> bool {
    a.0 < b.0 || (a.0 == b.0 && a.1 <= b.1)
}

/// Takes the least pair out of `heap`, where there is one.
fn pop_least(heap: &mut Vec<(usize, usize)>) -> (least: Option<(usize, usize)>)
    ensures
        old(heap)@.len() == 0 ==> least is None && final(heap)@.len() == 0,
        old(heap)@.len() > 0 ==> least is Some && old(heap)@.contains(least->0) && final(heap)@.len()
            == old(heap)@.len() - 1,
        forall|e: (usize, usize)| old(heap)@.contains(e) && least is Some ==> pair_le(least->0, e),
        forall|e: (usize, usize)|
            least is Some && e != least->0 ==> (final(heap)@.contains(e) <==> old(heap)@.contains(e)),
        forall|e: (usize, usize)| final(heap)@.contains(e) ==> old(heap)@.contains(e),
{
    if heap.len() == 0 {
        return None;
    }
    let ghost before = heap@;
    let mut best: usize = 0;
    let mut i: usize = 1;
    while i < heap.len()
        invariant
            heap@ == before,
            0 <= best < i <= before.len(),
            forall|j: int| 0 <= j < i ==> pair_le(before[best as int], #[trigger] before[j]),
        decreases before.len() - i,
    {
        let a = heap[i];
        let b = heap[best];
        if a.0 < b.0 || (a.0 == b.0 && a.1 < b.1) {
            best = i;
        }
        i += 1;
    }
    let least = heap.swap_remove(best);
    proof {
        let after = heap@;
        assert(before.contains(least));
        assert forall|e: (usize, usize)| before.contains(e) implies pair_le(least, e) by {
            let j = choose|j: int| 0 <= j < before.len() && before[j] == e;
            assert(pair_le(before[best as int], before[j]));
        }
        assert forall|e: (usize, usize)| after.contains(e) implies before.contains(e) by {
            let j = choose|j: int| 0 <= j < after.len() && after[j] == e;
            if j == best {
                assert(before[before.len() - 1] == e);
            } else {
                assert(before[j] == e);
            }
        }
        assert forall|e: (usize, usize)| e != least && before.contains(e) implies after.contains(
            e,
        ) by {
            let j = choose|j: int| 0 <= j < before.len() && before[j] == e;
            if j == before.len() - 1 {
                assert(after[best as int] == e);
            } else {
                assert(after[j] == e);
            }
        }
    }
    Some(least)
}

/// The vertices that are not settled.
pub open spec fn open_set(settled: Seq<bool>) -> Set<int> {
    Set::new(|x: int| 0 <= x < settled.len() && !settled[x])
}

/// Settling one more vertex leaves fewer open.
proof fn lemma_settle(settled: Seq<bool>, v: int)
    requires
        0 <= v < settled.len(),
        !settled[v],
    ensures
        open_set(settled).finite(),
        open_set(settled.update(v, true)).finite(),
        open_set(settled.update(v, true)).len() + 1 == open_set(settled).len(),
        open_set(settled).len() <= settled.len(),
{
    lemma_bounded_set(open_set(settled), settled.len() as int);
    lemma_bounded_set(open_set(settled.update(v, true)), settled.len() as int);
    assert(open_set(settled.update(v, true)).insert(v) =~= open_set(settled));
}

/// `dist` gives costs of ways from `st` that fit the edges of `g`: the
/// start costs 0; every edge from a vertex with a way leads to a vertex
/// whose way costs at most the cost of the edge more; every other vertex
/// with a way has an edge from a vertex with a way that it costs exactly
/// the cost of the edge more than; and `2^60` stands for no way.
pub open spec fn is_costs(g: Seq<Vec<(usize, usize)>>, st: int, dist: Seq<usize>) -> bool {
    &&& dist.len() == g.len()
    &&& dist[st] == 0
    &&& forall|x: int| 0 <= x < dist.len() ==> #[trigger] dist[x] <= far()
    &&& forall|u: int, k: int|
        0 <= u < g.len() && 0 <= k < g[u]@.len() && dist[u] < far() ==> dist[(
        #[trigger] g[u]@[k]).1 as int] <= dist[u] + g[u]@[k].0
    &&& forall|x: int|
        0 <= x < g.len() && x != st && #[trigger] dist[x] < far() ==> exists|u: int, k: int|
            0 <= u < g.len() && 0 <= k < g[u]@.len() && (#[trigger] g[u]@[k]).1 == x && dist[u]
                < far() && dist[x] == dist[u] + g[u]@[k].0
}

/// `way` is a way in `g`: a sequence of edges, each named by its vertex and
/// its place in the list of that vertex, that lead from one to the next.
pub open spec fn is_way(g: Seq<Vec<(usize, usize)>>, way: Seq<(int, int)>) -> bool {
    &&& forall|t: int|
        0 <= t < way.len() ==> 0 <= (#[trigger] way[t]).0 < g.len() && 0 <= way[t].1 < g[way[t].0]@.len()
    &&& forall|t: int|
        0 <= t < way.len() - 1 ==> g[(#[trigger] way[t]).0]@[way[t].1].1 == way[t + 1].0
}

/// The sum of the costs of the edges of `way`.
pub open spec fn way_cost(g: Seq<Vec<(usize, usize)>>, way: Seq<(int, int)>) -> int
    decreases way.len(),
{
    if way.len() == 0 {
        0
    } else {
        way_cost(g, way.drop_last()) + g[way.last().0]@[way.last().1].0
    }
}

/// Costs that fit the edges are the least: no way from the start costs
/// less than the cost noted for the vertex at its end.
pub proof fn lemma_costs_least(
    g: Seq<Vec<(usize, usize)>>,
    st: int,
    dist: Seq<usize>,
    way: Seq<(int, int)>,
)
    requires
        0 <= st < g.len(),
        is_cost_graph(g),
        is_costs(g, st, dist),
        is_way(g, way),
        way.len() >= 1,
        way[0].0 == st,
    ensures
        dist[g[way.last().0]@[way.last().1].1 as int] <= way_cost(g, way),
    decreases way.len(),
{
    let (u, k) = way.last();
    let x = g[u]@[k].1 as int;
    assert(x < g.len());
    assert(dist[x] <= far());
    assert(way_cost(g, way) == way_cost(g, way.drop_last()) + g[u]@[k].0);
    if way.len() > 1 {
        let front = way.drop_last();
        assert(is_way(g, front)) by {
            assert forall|t: int| 0 <= t < front.len() - 1 implies g[(
            #[trigger] front[t]).0]@[front[t].1].1 == front[t + 1].0 by {
                assert(g[way[t].0]@[way[t].1].1 == way[t + 1].0);
            }
        }
        lemma_costs_least(g, st, dist, front);
        assert(front.last() == way[way.len() - 2]);
        assert(g[way[way.len() - 2].0]@[way[way.len() - 2].1].1 == u);
        assert(dist[u] <= way_cost(g, front));
        if dist[u] < far() {
            assert(dist[g[u]@[k].1 as int] <= dist[u] + g[u]@[k].0);
        }
    } else {
        assert(way.drop_last().len() == 0);
        assert(way_cost(g, way.drop_last()) == 0);
        assert(u == st);
        assert(dist[g[u]@[k].1 as int] <= dist[u] + g[u]@[k].0);
    }
}

/// There is a way from `st` to `x` that costs `d`: the way of no edges
/// from `st` to itself, or a way of edges.
pub open spec fn has_way(g: Seq<Vec<(usize, usize)>>, st: int, x: int, d: int) -> bool {
    (x == st && d == 0) || exists|way: Seq<(int, int)>| #[trigger]
        is_way(g, way) && way.len() >= 1 && way[0].0 == st && g[way.last().0]@[way.last().1].1 == x
            && way_cost(g, way) == d
}

/// Every cost noted in `dist` is the cost of a way from `st`.
pub open spec fn ways_noted(g: Seq<Vec<(usize, usize)>>, st: int, dist: Seq<usize>) -> bool {
    forall|x: int| 0 <= x < g.len() && #[trigger] dist[x] < far() ==> has_way(g, st, x, dist[x] as int)
}

/// `dist` holds for every vertex the least cost of a way from `st` to it,
/// and `2^60` for the vertices to which there is no way.
pub open spec fn is_least_costs(g: Seq<Vec<(usize, usize)>>, st: int, dist: Seq<usize>) -> bool {
    &&& dist.len() == g.len()
    &&& ways_noted(g, st, dist)
    &&& forall|x: int, d: int|
        0 <= x < g.len() && #[trigger] has_way(g, st, x, d) ==> dist[x] < far() && dist[x] <= d
}

/// A way with one more edge at its end costs the cost of the edge more.
pub proof fn lemma_way_push(g: Seq<Vec<(usize, usize)>>, st: int, u: int, k: int, d: int)
    requires
        0 <= st < g.len(),
        0 <= u < g.len(),
        0 <= k < g[u]@.len(),
        has_way(g, st, u, d),
    ensures
        has_way(g, st, g[u]@[k].1 as int, d + g[u]@[k].0),
{
    if exists|way: Seq<(int, int)>| #[trigger]
        is_way(g, way) && way.len() >= 1 && way[0].0 == st && g[way.last().0]@[way.last().1].1 == u
            && way_cost(g, way) == d {
        let way = choose|way: Seq<(int, int)>| #[trigger]
            is_way(g, way) && way.len() >= 1 && way[0].0 == st && g[way.last().0]@[way.last().1].1
                == u && way_cost(g, way) == d;
        let longer = way.push((u, k));
        assert(longer.drop_last() =~= way);
        assert forall|t: int| 0 <= t < longer.len() - 1 implies g[(#[trigger] longer[t]).0]@[longer[t].1].1
            == longer[t + 1].0 by {
            if t < way.len() - 1 {
                assert(g[way[t].0]@[way[t].1].1 == way[t + 1].0);
            }
        }
        assert(is_way(g, longer) && longer[0].0 == st && way_cost(g, longer) == d + g[u]@[k].0);
    } else {
        let only = seq![(u, k)];
        assert(only.drop_last() =~= Seq::<(int, int)>::empty());
        assert(way_cost(g, only.drop_last()) == 0);
        assert(is_way(g, only) && only[0].0 == st && way_cost(g, only) == d + g[u]@[k].0);
    }
}

/// Where the vertices with a cost are closed under the edges, every way
/// from the start ends at a vertex with a cost.
pub proof fn lemma_way_reached(g: Seq<Vec<(usize, usize)>>, st: int, dist: Seq<usize>, way: Seq<(int, int)>)
    requires
        0 <= st < g.len(),
        is_cost_graph(g),
        dist.len() == g.len(),
        dist[st] < far(),
        forall|u: int, k: int|
            0 <= u < g.len() && 0 <= k < g[u]@.len() && dist[u] < far() ==> dist[(#[trigger] g[u]@[k]).1 as int]
                < far(),
        is_way(g, way),
        way.len() >= 1,
        way[0].0 == st,
    ensures
        dist[g[way.last().0]@[way.last().1].1 as int] < far(),
    decreases way.len(),
{
    let (u, k) = way.last();
    if way.len() > 1 {
        let front = way.drop_last();
        assert(is_way(g, front)) by {
            assert forall|t: int| 0 <= t < front.len() - 1 implies g[(
            #[trigger] front[t]).0]@[front[t].1].1 == front[t + 1].0 by {
                assert(g[way[t].0]@[way[t].1].1 == way[t + 1].0);
            }
        }
        lemma_way_reached(g, st, dist, front);
        assert(front.last() == way[way.len() - 2]);
        assert(g[way[way.len() - 2].0]@[way[way.len() - 2].1].1 == u);
    }
    assert(dist[g[u]@[k].1 as int] < far());
}

/// The edges from `u` before `upto` are settled: each leads to a vertex
/// whose way costs at most the cost of the edge more.
pub open spec fn edges_relaxed(g: Seq<Vec<(usize, usize)>>, dist: Seq<usize>, u: int, upto: int) -> bool {
    forall|k: int|
        0 <= k < upto && k < g[u]@.len() ==> dist[(#[trigger] g[u]@[k]).1 as int] <= dist[u]
            + g[u]@[k].0
}

/// The state of the search for the cheapest ways.
pub open spec fn cost_state(
    g: Seq<Vec<(usize, usize)>>,
    st: int,
    dist: Seq<usize>,
    settled: Seq<bool>,
    heap: Seq<(usize, usize)>,
    from: Seq<(int, int)>,
    depth: Seq<int>,
    cmax: int,
    level: int,
) -> bool {
    &&& dist.len() == g.len()
    &&& settled.len() == g.len()
    &&& from.len() == g.len()
    &&& depth.len() == g.len()
    &&& 0 <= st < g.len()
    &&& dist[st] == 0
    &&& 0 <= level
    &&& 0 <= cmax
    &&& (g.len() + 1) * cmax < far()
    &&& forall|x: int| 0 <= x < g.len() ==> #[trigger] dist[x] <= far()
    &&& forall|x: int|
        0 <= x < g.len() && #[trigger] dist[x] < far() ==> 0 <= depth[x] <= g.len() - open_set(
            settled,
        ).len() && dist[x] <= depth[x] * cmax
    &&& forall|x: int| 0 <= x < g.len() && #[trigger] settled[x] ==> dist[x] <= level
    &&& forall|e: (usize, usize)|
        #[trigger] heap.contains(e) ==> e.1 < g.len() && dist[e.1 as int] <= e.0 && level <= e.0
            && e.0 < far()
    &&& forall|x: int|
        0 <= x < g.len() && !settled[x] && #[trigger] dist[x] < far() ==> heap.contains(
            (dist[x], x as usize),
        )
    &&& forall|x: int|
        0 <= x < g.len() && x != st && #[trigger] dist[x] < far() ==> {
            &&& 0 <= from[x].0 < g.len()
            &&& 0 <= from[x].1 < g[from[x].0]@.len()
            &&& g[from[x].0]@[from[x].1].1 == x
            &&& settled[from[x].0]
            &&& dist[x] == dist[from[x].0] + g[from[x].0]@[from[x].1].0
        }
}

/// The costs of the cheapest ways from `st` along the edges of `g`, each a
/// cost and a neighbour, by Dijkstra's algorithm; `2^60` for the vertices
/// without a way.
pub fn dijkstra(st: usize, g: &[Vec<(usize, usize)>]) -> (dist: Vec<usize>)
    requires
        is_cost_graph(g@),
        st < g@.len(),
        usize::BITS == 64,
        exists|cmax: int| 0 <= cmax && #[trigger] costs_within(g@, cmax) && (g@.len() + 1) * cmax < far(),
    ensures
        is_costs(g@, st as int, dist@),
        is_least_costs(g@, st as int, dist@),
{
    let n = g.len();
    let wide: u64 = 0x1000_0000_0000_0000;
    let inf: usize = wide as usize;
    let mut fixed: Vec<bool> = vec![false; n];
    let mut dist: Vec<usize> = vec![inf; n];
    let mut pq: Vec<(usize, usize)> = Vec::new();
    let ghost cmax = choose|cmax: int|
        0 <= cmax && #[trigger] costs_within(g@, cmax) && (g@.len() + 1) * cmax < far();
    let ghost mut from: Seq<(int, int)> = Seq::new(n as nat, |x: int| (0int, 0int));
    let ghost mut depth: Seq<int> = Seq::new(n as nat, |x: int| 0int);
    let ghost mut level: int = 0;
    dist[st] = 0;
    pq.push((dist[st], st));
    proof {
        lemma_bounded_set(open_set(fixed@), n as int);
        assert(pq@[0] == (0usize, st));
        assert(0 * cmax == 0) by (nonlinear_arith);
        assert forall|e: (usize, usize)| #[trigger] pq@.contains(e) implies e == (0usize, st) by {
            let j = choose|j: int| 0 <= j < pq@.len() && pq@[j] == e;
        }
    }
    loop
        invariant
            n == g@.len(),
            inf == far(),
            is_cost_graph(g@),
            costs_within(g@, cmax),
            cost_state(g@, st as int, dist@, fixed@, pq@, from, depth, cmax, level),
            ways_noted(g@, st as int, dist@),
            open_set(fixed@).finite(),
            open_set(fixed@).len() <= n,
            forall|u: int|
                0 <= u < n && fixed@[u] ==> #[trigger] edges_relaxed(
                    g@,
                    dist@,
                    u,
                    g@[u]@.len() as int,
                ),
        ensures
            pq@.len() == 0,
            cost_state(g@, st as int, dist@, fixed@, pq@, from, depth, cmax, level),
            ways_noted(g@, st as int, dist@),
            forall|u: int|
                0 <= u < n && fixed@[u] ==> #[trigger] edges_relaxed(
                    g@,
                    dist@,
                    u,
                    g@[u]@.len() as int,
                ),
        decreases open_set(fixed@).len(), pq@.len(),
    {
        let ghost heap0 = pq@;
        let ghost settled0 = fixed@;
        let popped = pop_least(&mut pq);
        if popped.is_none() {
            break ;
        }
        let (d, v) = popped.unwrap();
        proof {
            assert(heap0.contains((d, v)));
        }
        if fixed[v] {
            proof {
                assert forall|x: int|
                    0 <= x < n && !fixed@[x] && #[trigger] dist@[x] < far() implies pq@.contains(
                    (dist@[x], x as usize),
                ) by {
                    assert(heap0.contains((dist@[x], x as usize)));
                }
            }
            continue ;
        }
        let ghost dv = dist@[v as int] as int;
        let ghost level0 = level;
        proof {
            assert(dist@[v as int] <= d && d < far() && level0 <= d);
            assert(heap0.contains((dist@[v as int], v)));
            assert(pair_le((d, v), (dist@[v as int], v)));
            assert(dv == d);
        }
        fixed[v] = true;
        proof {
            lemma_settle(settled0, v as int);
            assert(fixed@ =~= settled0.update(v as int, true));
            level = dv;
            assert forall|x: int| 0 <= x < n && #[trigger] fixed@[x] implies dist@[x]
                <= level by {
                if x != v {
                    assert(settled0[x]);
                }
            }
            assert forall|e: (usize, usize)| #[trigger] pq@.contains(e) implies e.1 < n
                && dist@[e.1 as int] <= e.0 && level <= e.0 && e.0 < far() by {
                assert(heap0.contains(e));
                assert(pair_le((d, v), e));
            }
            assert forall|x: int|
                0 <= x < n && !fixed@[x] && #[trigger] dist@[x] < far() implies pq@.contains(
                (dist@[x], x as usize),
            ) by {
                assert(!settled0[x]);
                assert(heap0.contains((dist@[x], x as usize)));
            }
            assert forall|x: int|
                0 <= x < n && x != st && #[trigger] dist@[x] < far() implies {
                &&& 0 <= from[x].0 < n
                &&& 0 <= from[x].1 < g@[from[x].0]@.len()
                &&& g@[from[x].0]@[from[x].1].1 == x
                &&& fixed@[from[x].0]
                &&& dist@[x] == dist@[from[x].0] + g@[from[x].0]@[from[x].1].0
            } by {
                assert(settled0[from[x].0]);
            }
            assert forall|x: int|
                0 <= x < n && #[trigger] dist@[x] < far() implies 0 <= depth[x] <= n - open_set(
                fixed@,
            ).len() && dist@[x] <= depth[x] * cmax by {
                assert(0 <= depth[x] <= n - open_set(settled0).len());
            }
            assert(depth[v as int] <= n - open_set(settled0).len());
        }
        let mut k: usize = 0;
        while k < g[v].len()
            invariant
                n == g@.len(),
                inf == far(),
                v < n,
                is_cost_graph(g@),
                costs_within(g@, cmax),
                k <= g@[v as int]@.len(),
                fixed@ == settled0.update(v as int, true),
                !settled0[v as int],
                settled0.len() == n,
                open_set(fixed@).finite(),
                open_set(settled0).finite(),
                open_set(fixed@).len() + 1 == open_set(settled0).len(),
                open_set(settled0).len() <= n,
                dist@[v as int] == dv,
                dv == level,
                dv < far(),
                depth[v as int] + 1 <= n - open_set(fixed@).len(),
                cost_state(g@, st as int, dist@, fixed@, pq@, from, depth, cmax, level),
                ways_noted(g@, st as int, dist@),
                edges_relaxed(g@, dist@, v as int, k as int),
                forall|u: int|
                    0 <= u < n && fixed@[u] && u != v ==> #[trigger] edges_relaxed(
                        g@,
                        dist@,
                        u,
                        g@[u]@.len() as int,
                    ),
            decreases g@[v as int]@.len() - k,
        {
            let (step, nv) = g[v][k];
            proof {
                assert(g@[v as int]@[k as int] == (step, nv));
                assert(nv < n);
                assert(step <= cmax);
                assert(dist@[v as int] <= depth[v as int] * cmax);
                assert(depth[v as int] * cmax + cmax <= (n + 1) * cmax) by (nonlinear_arith)
                    requires
                        depth[v as int] + 1 <= n,
                        0 <= cmax,
                ;
            }
            if dist[nv] > dist[v] + step {
                let ghost before = dist@;
                let ghost heap1 = pq@;
                let nd = dist[v] + step;
                dist[nv] = nd;
                pq.push((dist[nv], nv));
                proof {
                    assert(!fixed@[nv as int]) by {
                        if fixed@[nv as int] {
                            assert(before[nv as int] <= level);
                        }
                    }
                    assert(nv != st);
                    assert forall|x: int| 0 <= x < n && #[trigger] dist@[x] < far() implies has_way(
                        g@,
                        st as int,
                        x,
                        dist@[x] as int,
                    ) by {
                        if x == nv {
                            assert(before[v as int] < far());
                            lemma_way_push(g@, st as int, v as int, k as int, before[v as int] as int);
                        } else {
                            assert(before[x] < far());
                        }
                    }
                    from = from.update(nv as int, (v as int, k as int));
                    depth = depth.update(nv as int, depth[v as int] + 1);
                    assert(dist@ =~= before.update(nv as int, nd));
                    assert(pq@[heap1.len() as int] == (nd, nv));
                    assert((depth[v as int] + 1) * cmax == depth[v as int] * cmax + cmax)
                        by (nonlinear_arith);
                    assert forall|e: (usize, usize)| #[trigger] pq@.contains(e) implies e.1 < n
                        && dist@[e.1 as int] <= e.0 && level <= e.0 && e.0 < far() by {
                        let j = choose|j: int| 0 <= j < pq@.len() && pq@[j] == e;
                        if j < heap1.len() {
                            assert(heap1[j] == e);
                            assert(heap1.contains(e));
                            assert(before[e.1 as int] <= e.0);
                        }
                    }
                    assert forall|x: int|
                        0 <= x < n && !fixed@[x] && #[trigger] dist@[x] < far() implies pq@.contains(
                        (dist@[x], x as usize),
                    ) by {
                        if x != nv {
                            assert(before[x] < far());
                            assert(heap1.contains((before[x], x as usize)));
                            let j = choose|j: int|
                                0 <= j < heap1.len() && heap1[j] == (before[x], x as usize);
                            assert(pq@[j] == heap1[j]);
                        }
                    }
                    assert forall|x: int|
                        0 <= x < n && x != st && #[trigger] dist@[x] < far() implies {
                        &&& 0 <= from[x].0 < n
                        &&& 0 <= from[x].1 < g@[from[x].0]@.len()
                        &&& g@[from[x].0]@[from[x].1].1 == x
                        &&& fixed@[from[x].0]
                        &&& dist@[x] == dist@[from[x].0] + g@[from[x].0]@[from[x].1].0
                    } by {
                        if x != nv {
                            assert(before[x] < far());
                            assert(fixed@[from[x].0]);
                        }
                    }
                    assert forall|x: int|
                        0 <= x < n && #[trigger] dist@[x] < far() implies 0 <= depth[x] <= n
                        - open_set(fixed@).len() && dist@[x] <= depth[x] * cmax by {
                        if x != nv {
                            assert(before[x] < far());
                        } else {
                            assert(before[v as int] < far());
                        }
                    }
                    assert forall|x: int| 0 <= x < n && #[trigger] fixed@[x] implies dist@[x]
                        <= level by {
                        assert(before[x] <= level);
                    }
                    assert forall|u: int|
                        0 <= u < n && fixed@[u] && u != v implies #[trigger] edges_relaxed(
                        g@,
                        dist@,
                        u,
                        g@[u]@.len() as int,
                    ) by {
                        assert(edges_relaxed(g@, before, u, g@[u]@.len() as int));
                        assert forall|j: int| 0 <= j < g@[u]@.len() implies dist@[(
                        #[trigger] g@[u]@[j]).1 as int] <= dist@[u] + g@[u]@[j].0 by {
                            assert(before[g@[u]@[j].1 as int] <= before[u] + g@[u]@[j].0);
                        }
                    }
                    assert forall|j: int|
                        0 <= j < k + 1 && j < g@[v as int]@.len() implies dist@[(
                    #[trigger] g@[v as int]@[j]).1 as int] <= dist@[v as int] + g@[v as int]@[j].0 by {
                        if j < k {
                            assert(before[g@[v as int]@[j].1 as int] <= before[v as int]
                                + g@[v as int]@[j].0);
                        }
                    }
                }
            }
            k += 1;
        }
    }
    proof {
        assert forall|u: int, k: int|
            0 <= u < n && 0 <= k < g@[u]@.len() && dist@[u] < far() implies dist@[(
        #[trigger] g@[u]@[k]).1 as int] <= dist@[u] + g@[u]@[k].0 by {
            if !fixed@[u] {
                assert(pq@.contains((dist@[u], u as usize)));
            }
            assert(edges_relaxed(g@, dist@, u, g@[u]@.len() as int));
        }
        assert forall|x: int| 0 <= x < n && x != st && #[trigger] dist@[x] < far() implies exists|
            u: int,
            k: int,
        |
            0 <= u < n && 0 <= k < g@[u]@.len() && (#[trigger] g@[u]@[k]).1 == x && dist@[u]
                < far() && dist@[x] == dist@[u] + g@[u]@[k].0 by {
            let u = from[x].0;
            let k = from[x].1;
            assert(g@[u]@[k].1 == x);
            assert(fixed@[u]);
        }
        assert forall|u: int, k: int|
            0 <= u < n && 0 <= k < g@[u]@.len() && dist@[u] < far() implies dist@[(
        #[trigger] g@[u]@[k]).1 as int] < far() by {
            assert(g@[u]@[k].0 <= cmax);
            assert(dist@[u] <= depth[u] * cmax);
            assert(depth[u] * cmax + cmax <= (n + 1) * cmax) by (nonlinear_arith)
                requires
                    depth[u] <= n,
                    0 <= cmax,
            ;
        }
        assert forall|x: int, d: int| 0 <= x < n && #[trigger] has_way(g@, st as int, x, d) implies dist@[x]
            < far() && dist@[x] <= d by {
            if !(x == st && d == 0) {
                let way = choose|way: Seq<(int, int)>| #[trigger]
                    is_way(g@, way) && way.len() >= 1 && way[0].0 == st as int && g@[way.last().0]@[way.last().1].1
                        == x && way_cost(g@, way) == d;
                lemma_way_reached(g@, st as int, dist@, way);
                lemma_costs_least(g@, st as int, dist@, way);
            }
        }
    }
    dist
}

} // verus!
