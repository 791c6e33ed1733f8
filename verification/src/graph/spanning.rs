use crate::graph::least_forest::{
    ends_within, is_spanning_forest, lemma_taken_forest, lemma_taken_least,
};
use crate::graph::unionfind::UnionFind;
use vstd::prelude::*;

verus! {

/// `a` comes before `b`, or is `b`, in the order of edges: by the cost,
/// then by the first end, then by the second.
pub open spec fn edge_le(a: (isize, usize, usize), b: (isize, usize, usize)) -> bool {
    a.0 < b.0 || (a.0 == b.0 && (a.1 < b.1 || (a.1 == b.1 && a.2 <= b.2)))
}

/// The edges of `s` rise.
pub open spec fn edges_sorted(s: Seq<(isize, usize, usize)>) -> bool {
    forall|i: int, j: int| 0 <= i < j < s.len() ==> edge_le(#[trigger] s[i], #[trigger] s[j])
}

/// `<[T]>::sort` of std on edges: sorts them in rising order, which for
/// tuples of numbers is the order by the first entry, then by the second,
/// then by the third. The edges stay the same, each as often as before.
#[verifier::external_body]
fn sort_edges(e: &mut Vec<(isize, usize, usize)>)
    ensures
        final(e)@.to_multiset() == old(e)@.to_multiset(),
        edges_sorted(final(e)@),
{
    e.sort();
}

/// The labels of the parts after the parts of `a` and `b` have become one:
/// the vertices of the part of `b` get the label of `a`.
pub open spec fn merged(comp: Seq<int>, a: int, b: int) -> Seq<int> {
    Seq::new(
        comp.len(),
        |z: int|
            if comp[z] == comp[b] {
                comp[a]
            } else {
                comp[z]
            },
    )
}

/// The labels of the parts into which the first `k` edges of `e` join the
/// `n` vertices: two vertices have one label where edges lead from one to
/// the other.
pub open spec fn parts_after(e: Seq<(isize, usize, usize)>, n: nat, k: int) -> Seq<int>
    decreases k,
{
    if k <= 0 {
        Seq::new(n, |z: int| z)
    } else {
        let before = parts_after(e, n, k - 1);
        if before[e[k - 1].1 as int] == before[e[k - 1].2 as int] {
            before
        } else {
            merged(before, e[k - 1].1 as int, e[k - 1].2 as int)
        }
    }
}

/// The edges among the first `k` of `e` that join two parts: each edge
/// whose ends no edge taken before it has joined.
pub open spec fn taken(e: Seq<(isize, usize, usize)>, n: nat, k: int) -> Seq<(isize, usize, usize)>
    decreases k,
{
    if k <= 0 {
        Seq::empty()
    } else {
        let before = parts_after(e, n, k - 1);
        if before[e[k - 1].1 as int] == before[e[k - 1].2 as int] {
            taken(e, n, k - 1)
        } else {
            taken(e, n, k - 1).push(e[k - 1])
        }
    }
}

/// The sum of the costs of the edges of `s`.
pub open spec fn total_cost(s: Seq<(isize, usize, usize)>) -> int
    decreases s.len(),
{
    if s.len() == 0 {
        0
    } else {
        total_cost(s.drop_last()) + s.last().0
    }
}

/// The labels of the parts are as many as the vertices.
pub proof fn lemma_parts_len(e: Seq<(isize, usize, usize)>, n: nat, k: int)
    ensures
        parts_after(e, n, k).len() == n,
    decreases k,
{
    if k > 0 {
        lemma_parts_len(e, n, k - 1);
    }
}

/// The parts and the edges taken after the first `k` edges do not depend
/// on the edges behind them.
pub proof fn lemma_first_edges(
    e: Seq<(isize, usize, usize)>,
    f: Seq<(isize, usize, usize)>,
    n: nat,
    k: int,
)
    requires
        k <= e.len(),
        k <= f.len(),
        forall|i: int| 0 <= i < k ==> e[i] == f[i],
    ensures
        parts_after(e, n, k) == parts_after(f, n, k),
        taken(e, n, k) == taken(f, n, k),
    decreases k,
{
    if k > 0 {
        lemma_first_edges(e, f, n, k - 1);
    }
}

/// The edges taken are a spanning forest of the edges given: each edge
/// taken joins two parts that the edges taken before it have not joined,
/// so that taking from the edges taken gives them all again; and together
/// they join the vertices into the same parts as all the edges given.
pub proof fn lemma_taken_spans(e: Seq<(isize, usize, usize)>, n: nat, k: int)
    requires
        0 <= k <= e.len(),
    ensures
        parts_after(taken(e, n, k), n, taken(e, n, k).len() as int) == parts_after(e, n, k),
        taken(taken(e, n, k), n, taken(e, n, k).len() as int) == taken(e, n, k),
    decreases k,
{
    if k > 0 {
        lemma_taken_spans(e, n, k - 1);
        let before = parts_after(e, n, k - 1);
        let chosen = taken(e, n, k - 1);
        if before[e[k - 1].1 as int] != before[e[k - 1].2 as int] {
            let more = chosen.push(e[k - 1]);
            lemma_first_edges(more, chosen, n, chosen.len() as int);
            assert(more[more.len() - 1] == e[k - 1]);
        }
    }
}

/// The costs of the edges of `e` are from `-bound` to `bound`, and as
/// many times `bound` as there are edges is the value of an `isize`.
pub open spec fn costs_bounded(e: Seq<(isize, usize, usize)>, bound: int) -> bool {
    &&& 0 <= bound
    &&& bound * e.len() <= isize::MAX
    &&& forall|i: int| 0 <= i < e.len() ==> -bound <= (#[trigger] e[i]).0 <= bound
}

/// `root` names the same parts as `comp`.
pub open spec fn same_parts(uf: UnionFind, comp: Seq<int>) -> bool {
    &&& comp.len() == uf.spec_len()
    &&& forall|x: int, y: int|
        0 <= x < comp.len() && 0 <= y < comp.len() ==> ((#[trigger] uf.root_of(x) == #[trigger] uf.root_of(
            y,
        )) <==> comp[x] == comp[y])
}

/// The edges of `e`, in rising order, that join parts of the `n` vertices
/// not joined before, and the sum of their costs, found by Kruskal's
/// algorithm: a spanning forest of `e` that costs no more than any other.
pub fn kruskal(e: Vec<(isize, usize, usize)>, n: usize) -> (found: (Vec<(isize, usize, usize)>, isize))
    requires
        forall|i: int| 0 <= i < e@.len() ==> (#[trigger] e@[i]).1 < n && e@[i].2 < n,
        exists|bound: int| #[trigger] costs_bounded(e@, bound),
    ensures
        exists|sorted: Seq<(isize, usize, usize)>|
            sorted.to_multiset() == e@.to_multiset() && edges_sorted(sorted) && found.0@
                == #[trigger] taken(sorted, n as nat, sorted.len() as int),
        found.1 == total_cost(found.0@),
        is_spanning_forest(found.0@, e@, n as nat),
        forall|f: Seq<(isize, usize, usize)>| #[trigger]
            is_spanning_forest(f, e@, n as nat) ==> found.1 <= total_cost(f),
{
    let ghost bound = choose|bound: int| #[trigger] costs_bounded(e@, bound);
    let ghost given = e@;
    let mut e = e;
    sort_edges(&mut e);
    let ghost sorted = e@;
    proof {
        given.to_multiset_ensures();
        sorted.to_multiset_ensures();
        assert forall|i: int| 0 <= i < sorted.len() implies (#[trigger] sorted[i]).1 < n
            && sorted[i].2 < n && -bound <= sorted[i].0 <= bound by {
            assert(sorted.contains(sorted[i]));
            assert(sorted.to_multiset().count(sorted[i]) > 0);
            assert(given.contains(sorted[i]));
            let j = choose|j: int| 0 <= j < given.len() && given[j] == sorted[i];
            assert(given[j].1 < n);
        }
    }
    let mut uf = UnionFind::new(n);
    let mut ans_cost: isize = 0;
    let mut ans_e: Vec<(isize, usize, usize)> = Vec::new();
    let mut k: usize = 0;
    proof {
        lemma_parts_len(sorted, n as nat, 0);
    }
    while k < e.len()
        invariant
            e@ == sorted,
            sorted.len() == given.len(),
            k <= sorted.len(),
            0 <= bound,
            bound * sorted.len() <= isize::MAX,
            forall|i: int|
                0 <= i < sorted.len() ==> (#[trigger] sorted[i]).1 < n && sorted[i].2 < n && -bound
                    <= sorted[i].0 <= bound,
            uf.wf(),
            uf.spec_len() == n,
            same_parts(uf, parts_after(sorted, n as nat, k as int)),
            ans_e@ == taken(sorted, n as nat, k as int),
            ans_e@.len() <= k,
            ans_cost == total_cost(ans_e@),
            -bound * ans_e@.len() <= ans_cost <= bound * ans_e@.len(),
        decreases sorted.len() - k,
    {
        let (c, v, u) = e[k];
        let ghost parts = parts_after(sorted, n as nat, k as int);
        let ghost uf0 = uf;
        proof {
            assert(sorted[k as int] == (c, v, u));
            lemma_parts_len(sorted, n as nat, k + 1);
        }
        if uf.issame(v, u) {
            proof {
                assert(uf0.root_of(v as int) == uf0.root_of(u as int));
                assert(parts[v as int] == parts[u as int]);
                assert forall|x: int, y: int| 0 <= x < n && 0 <= y < n implies ((
                #[trigger] uf.root_of(x) == #[trigger] uf.root_of(y)) <==> parts[x] == parts[y]) by {
                    assert(uf0.root_of(x) == uf0.root_of(y) <==> parts[x] == parts[y]);
                }
            }
            k += 1;
            continue ;
        }
        let ghost uf1 = uf;
        uf.unite(v, u);
        proof {
            let next = merged(parts, v as int, u as int);
            assert(uf0.root_of(v as int) != uf0.root_of(u as int));
            assert(parts[v as int] != parts[u as int]);
            assert(next =~= parts_after(sorted, n as nat, k + 1));
            assert forall|x: int, y: int| 0 <= x < n && 0 <= y < n implies ((
            #[trigger] uf.root_of(x) == #[trigger] uf.root_of(y)) <==> next[x] == next[y]) by {
                uf1.lemma_root_of(v as int);
                uf1.lemma_root_of(u as int);
                assert(uf1.root_of(x) == uf0.root_of(x));
                assert(uf1.root_of(y) == uf0.root_of(y));
                assert(uf1.root_of(v as int) == uf0.root_of(v as int));
                assert(uf1.root_of(u as int) == uf0.root_of(u as int));
                assert(uf0.root_of(x) == uf0.root_of(y) <==> parts[x] == parts[y]);
                assert(uf0.root_of(x) == uf0.root_of(v as int) <==> parts[x] == parts[v as int]);
                assert(uf0.root_of(x) == uf0.root_of(u as int) <==> parts[x] == parts[u as int]);
                assert(uf0.root_of(y) == uf0.root_of(v as int) <==> parts[y] == parts[v as int]);
                assert(uf0.root_of(y) == uf0.root_of(u as int) <==> parts[y] == parts[u as int]);
            }
            let longer = ans_e@.push((c, v, u));
            assert(longer.drop_last() =~= ans_e@);
            assert(bound * (ans_e@.len() + 1) <= bound * sorted.len()) by (nonlinear_arith)
                requires
                    ans_e@.len() + 1 <= sorted.len(),
                    0 <= bound,
            ;
            assert(bound * (ans_e@.len() + 1) == bound * ans_e@.len() + bound)
                by (nonlinear_arith);
            assert(-bound * (ans_e@.len() + 1) == -bound * ans_e@.len() - bound)
                by (nonlinear_arith);
            assert(-bound * (ans_e@.len() + 1) >= -(bound * sorted.len())) by (nonlinear_arith)
                requires
                    ans_e@.len() + 1 <= sorted.len(),
                    0 <= bound,
            ;
            assert(-bound <= c <= bound);
        }
        ans_cost += c;
        ans_e.push((c, v, u));
        k += 1;
    }
    proof {
        assert(ans_e@ == taken(sorted, n as nat, sorted.len() as int));
        assert(ends_within(sorted, n as nat));
        lemma_taken_forest(sorted, n as nat, sorted.len() as int);
        assert forall|x: (isize, usize, usize)| given.contains(x) <==> sorted.contains(x) by {
            if given.contains(x) {
                assert(given.to_multiset().count(x) > 0);
            }
            if sorted.contains(x) {
                assert(sorted.to_multiset().count(x) > 0);
            }
        }
        assert(is_spanning_forest(ans_e@, given, n as nat)) by {
            assert forall|j: int| 0 <= j < ans_e@.len() implies given.contains(#[trigger] ans_e@[j]) by {
                assert(sorted.contains(ans_e@[j]));
            }
            assert forall|i: int| 0 <= i < given.len() implies parts_after(
                ans_e@,
                n as nat,
                ans_e@.len() as int,
            )[(#[trigger] given[i]).1 as int] == parts_after(ans_e@, n as nat, ans_e@.len() as int)[given[i].2 as int] by {
                assert(given.contains(given[i]));
                assert(sorted.contains(given[i]));
                let k = choose|k: int| 0 <= k < sorted.len() && sorted[k] == given[i];
                assert(sorted[k] == given[i]);
            }
        }
        assert forall|f: Seq<(isize, usize, usize)>| #[trigger]
            is_spanning_forest(f, given, n as nat) implies ans_cost <= total_cost(f) by {
            assert(is_spanning_forest(f, sorted, n as nat)) by {
                assert forall|j: int| 0 <= j < f.len() implies sorted.contains(#[trigger] f[j]) by {
                    assert(given.contains(f[j]));
                }
                assert forall|i: int| 0 <= i < sorted.len() implies parts_after(
                    f,
                    n as nat,
                    f.len() as int,
                )[(#[trigger] sorted[i]).1 as int] == parts_after(f, n as nat, f.len() as int)[sorted[i].2 as int] by {
                    assert(sorted.contains(sorted[i]));
                    assert(given.contains(sorted[i]));
                    let k = choose|k: int| 0 <= k < given.len() && given[k] == sorted[i];
                    assert(given[k] == sorted[i]);
                }
            }
            lemma_taken_least(sorted, n as nat, f, bound);
        }
    }
    (ans_e, ans_cost)
}

} // verus!
