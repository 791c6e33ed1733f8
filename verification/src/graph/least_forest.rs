use crate::graph::spanning::{
    edge_le, edges_sorted, lemma_first_edges, lemma_parts_len, lemma_taken_spans, merged, parts_after,
    taken, total_cost,
};
use vstd::prelude::*;

verus! {

/// The ends of the edges of `e` are among the `n` vertices.
pub open spec fn ends_within(e: Seq<(isize, usize, usize)>, n: nat) -> bool {
    forall|i: int| 0 <= i < e.len() ==> (#[trigger] e[i]).1 < n && e[i].2 < n
}

/// Some vertex before `m` has the label `l`.
pub open spec fn has_label(parts: Seq<int>, l: int, m: int) -> bool {
    exists|z: int| 0 <= z < m && #[trigger] parts[z] == l
}

/// No vertex before `z` has the label of `z`.
pub open spec fn is_first(parts: Seq<int>, z: int) -> bool {
    !has_label(parts, parts[z], z)
}

/// The number of parts that hold a vertex before `m`.
pub open spec fn part_count(parts: Seq<int>, m: int) -> int
    decreases m,
{
    if m <= 0 {
        0
    } else {
        part_count(parts, m - 1) + if is_first(parts, m - 1) {
            1int
        } else {
            0int
        }
    }
}

/// Vertices in one part of `p` are in one part of `q`.
pub open spec fn refines(p: Seq<int>, q: Seq<int>) -> bool {
    &&& p.len() == q.len()
    &&& forall|x: int, y: int|
        0 <= x < p.len() && 0 <= y < p.len() && #[trigger] p[x] == #[trigger] p[y] ==> q[x] == q[y]
}

/// Finer parts are more parts.
pub proof fn lemma_refines_count(p: Seq<int>, q: Seq<int>, m: int)
    requires
        refines(p, q),
        0 <= m <= p.len(),
    ensures
        part_count(p, m) >= part_count(q, m),
    decreases m,
{
    if m > 0 {
        lemma_refines_count(p, q, m - 1);
        if is_first(q, m - 1) && !is_first(p, m - 1) {
            let y = choose|y: int| 0 <= y < m - 1 && #[trigger] p[y] == p[m - 1];
            assert(q[y] == q[m - 1]);
        }
    }
}

/// Where every vertex is a part of its own, there are as many parts as
/// vertices.
pub proof fn lemma_count_alone(n: nat, m: int)
    requires
        0 <= m <= n,
    ensures
        part_count(Seq::new(n, |z: int| z), m) == m,
    decreases m,
{
    if m > 0 {
        lemma_count_alone(n, m - 1);
        let p = Seq::new(n, |z: int| z);
        if has_label(p, p[m - 1], m - 1) {
            let y = choose|y: int| 0 <= y < m - 1 && #[trigger] p[y] == p[m - 1];
            assert(false);
        }
    }
}

/// When two parts become one, the parts before `m` are one fewer where
/// both had a vertex before `m`, and as many as before elsewhere.
pub proof fn lemma_merge_count(p: Seq<int>, a: int, b: int, m: int)
    requires
        0 <= a < p.len(),
        0 <= b < p.len(),
        p[a] != p[b],
        0 <= m <= p.len(),
    ensures
        part_count(p, m) - part_count(merged(p, a, b), m) == (if has_label(p, p[a], m) && has_label(
            p,
            p[b],
            m,
        ) {
            1int
        } else {
            0int
        }),
    decreases m,
{
    if m > 0 {
        lemma_merge_count(p, a, b, m - 1);
        let z = m - 1;
        let after = merged(p, a, b);
        assert forall|y: int| 0 <= y < p.len() implies #[trigger] after[y] == (if p[y] == p[b] {
            p[a]
        } else {
            p[y]
        }) by {}
        assert(has_label(p, p[a], m) <==> has_label(p, p[a], z) || p[z] == p[a]) by {
            if has_label(p, p[a], m) {
                let y = choose|y: int| 0 <= y < m && #[trigger] p[y] == p[a];
                if y < z {
                    assert(has_label(p, p[a], z));
                }
            }
            if has_label(p, p[a], z) {
                let y = choose|y: int| 0 <= y < z && #[trigger] p[y] == p[a];
                assert(0 <= y < m && p[y] == p[a]);
            }
            if p[z] == p[a] {
                assert(0 <= z < m && p[z] == p[a]);
            }
        }
        assert(has_label(p, p[b], m) <==> has_label(p, p[b], z) || p[z] == p[b]) by {
            if has_label(p, p[b], m) {
                let y = choose|y: int| 0 <= y < m && #[trigger] p[y] == p[b];
                if y < z {
                    assert(has_label(p, p[b], z));
                }
            }
            if has_label(p, p[b], z) {
                let y = choose|y: int| 0 <= y < z && #[trigger] p[y] == p[b];
                assert(0 <= y < m && p[y] == p[b]);
            }
            if p[z] == p[b] {
                assert(0 <= z < m && p[z] == p[b]);
            }
        }
        if p[z] == p[a] || p[z] == p[b] {
            assert(after[z] == p[a]);
            assert(has_label(after, after[z], z) <==> has_label(p, p[a], z) || has_label(p, p[b], z)) by {
                if has_label(after, after[z], z) {
                    let y = choose|y: int| 0 <= y < z && #[trigger] after[y] == after[z];
                    if p[y] == p[b] {
                        assert(has_label(p, p[b], z));
                    } else {
                        assert(p[y] == p[a]);
                        assert(has_label(p, p[a], z));
                    }
                }
                if has_label(p, p[a], z) {
                    let y = choose|y: int| 0 <= y < z && #[trigger] p[y] == p[a];
                    assert(after[y] == after[z]);
                }
                if has_label(p, p[b], z) {
                    let y = choose|y: int| 0 <= y < z && #[trigger] p[y] == p[b];
                    assert(after[y] == after[z]);
                }
            }
        } else {
            assert(after[z] == p[z]);
            assert(has_label(after, after[z], z) <==> has_label(p, p[z], z)) by {
                if has_label(after, after[z], z) {
                    let y = choose|y: int| 0 <= y < z && #[trigger] after[y] == after[z];
                    assert(p[y] == p[z]);
                }
                if has_label(p, p[z], z) {
                    let y = choose|y: int| 0 <= y < z && #[trigger] p[y] == p[z];
                    assert(after[y] == after[z]);
                }
            }
        }
    }
}

/// The edges taken and the parts left are together as many as the
/// vertices.
pub proof fn lemma_taken_count(e: Seq<(isize, usize, usize)>, n: nat, k: int)
    requires
        0 <= k <= e.len(),
        ends_within(e, n),
    ensures
        taken(e, n, k).len() + part_count(parts_after(e, n, k), n as int) == n,
    decreases k,
{
    if k == 0 {
        lemma_count_alone(n, n as int);
    } else {
        lemma_taken_count(e, n, k - 1);
        lemma_parts_len(e, n, k - 1);
        let before = parts_after(e, n, k - 1);
        let a = e[k - 1].1 as int;
        let b = e[k - 1].2 as int;
        if before[a] != before[b] {
            lemma_merge_count(before, a, b, n as int);
            assert(0 <= a < n && before[a] == before[a]);
            assert(0 <= b < n && before[b] == before[b]);
        }
    }
}

/// The ends of each of the first `k` edges are in one part after them.
pub proof fn lemma_joined(e: Seq<(isize, usize, usize)>, n: nat, k: int, i: int)
    requires
        0 <= i < k <= e.len(),
        ends_within(e, n),
    ensures
        parts_after(e, n, k)[e[i].1 as int] == parts_after(e, n, k)[e[i].2 as int],
    decreases k,
{
    lemma_parts_len(e, n, k - 1);
    let before = parts_after(e, n, k - 1);
    let x = e[i].1 as int;
    let y = e[i].2 as int;
    assert(0 <= x < n && 0 <= y < n);
    let a = e[k - 1].1 as int;
    let b = e[k - 1].2 as int;
    assert(0 <= a < n && 0 <= b < n);
    if i < k - 1 {
        lemma_joined(e, n, k - 1, i);
    }
}

/// Edges whose ends are each in one part of `q` join the vertices into
/// parts that are finer than those of `q`.
pub proof fn lemma_inside_refines(f: Seq<(isize, usize, usize)>, n: nat, j: int, q: Seq<int>)
    requires
        0 <= j <= f.len(),
        ends_within(f, n),
        q.len() == n,
        forall|i: int| 0 <= i < j ==> q[(#[trigger] f[i]).1 as int] == q[f[i].2 as int],
    ensures
        refines(parts_after(f, n, j), q),
    decreases j,
{
    lemma_parts_len(f, n, j);
    if j > 0 {
        lemma_inside_refines(f, n, j - 1, q);
        lemma_parts_len(f, n, j - 1);
        let before = parts_after(f, n, j - 1);
        let now = parts_after(f, n, j);
        let a = f[j - 1].1 as int;
        let b = f[j - 1].2 as int;
        assert(0 <= a < n && 0 <= b < n);
        assert(q[a] == q[b]);
        assert forall|x: int, y: int|
            0 <= x < now.len() && 0 <= y < now.len() && #[trigger] now[x] == #[trigger] now[y] implies q[x]
            == q[y] by {
            if before[a] != before[b] {
                if before[x] == before[b] {
                    assert(q[x] == q[b]);
                }
                if before[y] == before[b] {
                    assert(q[y] == q[b]);
                }
                if before[x] == before[a] {
                    assert(q[x] == q[a]);
                }
                if before[y] == before[a] {
                    assert(q[y] == q[a]);
                }
                if before[x] == before[y] {
                    assert(q[x] == q[y]);
                }
            } else {
                assert(before[x] == before[y]);
            }
        }
    }
}

/// `f` is a forest: each of its edges joins two parts that the edges
/// before it have not joined.
pub open spec fn is_forest(f: Seq<(isize, usize, usize)>, n: nat) -> bool {
    &&& ends_within(f, n)
    &&& forall|j: int|
        0 <= j < f.len() ==> parts_after(f, n, j)[(#[trigger] f[j]).1 as int] != parts_after(f, n, j)[f[j].2 as int]
}

/// `f` is a spanning forest of the edges `e`: a forest of edges of `e`
/// that joins the ends of every edge of `e`.
pub open spec fn is_spanning_forest(f: Seq<(isize, usize, usize)>, e: Seq<(isize, usize, usize)>, n: nat) -> bool {
    &&& is_forest(f, n)
    &&& forall|j: int| 0 <= j < f.len() ==> e.contains(#[trigger] f[j])
    &&& forall|i: int|
        0 <= i < e.len() ==> parts_after(f, n, f.len() as int)[(#[trigger] e[i]).1 as int] == parts_after(
            f,
            n,
            f.len() as int,
        )[e[i].2 as int]
}

/// The edges of a forest and its parts are together as many as the
/// vertices.
pub proof fn lemma_forest_count(f: Seq<(isize, usize, usize)>, n: nat, j: int)
    requires
        is_forest(f, n),
        0 <= j <= f.len(),
    ensures
        j + part_count(parts_after(f, n, j), n as int) == n,
    decreases j,
{
    if j == 0 {
        lemma_count_alone(n, n as int);
    } else {
        lemma_forest_count(f, n, j - 1);
        lemma_parts_len(f, n, j - 1);
        let before = parts_after(f, n, j - 1);
        let a = f[j - 1].1 as int;
        let b = f[j - 1].2 as int;
        lemma_merge_count(before, a, b, n as int);
        assert(0 <= a < n && before[a] == before[a]);
        assert(0 <= b < n && before[b] == before[b]);
    }
}

/// The number of edges of `s` that cost at most `t`.
pub open spec fn cheap_total(s: Seq<(isize, usize, usize)>, t: int) -> int
    decreases s.len(),
{
    if s.len() == 0 {
        0
    } else {
        cheap_total(s.drop_last(), t) + if s.last().0 <= t {
            1int
        } else {
            0int
        }
    }
}

/// The edges of `s` that cost at most `t`, in their order.
pub open spec fn cheap(s: Seq<(isize, usize, usize)>, t: int) -> Seq<(isize, usize, usize)>
    decreases s.len(),
{
    if s.len() == 0 {
        Seq::empty()
    } else if s.last().0 <= t {
        cheap(s.drop_last(), t).push(s.last())
    } else {
        cheap(s.drop_last(), t)
    }
}

/// The cheap edges of `s` are edges of `s` that cost at most `t`, as many
/// as `cheap_total` counts, and no more than `s` has.
pub proof fn lemma_cheap(s: Seq<(isize, usize, usize)>, t: int)
    ensures
        cheap(s, t).len() == cheap_total(s, t),
        0 <= cheap_total(s, t) <= s.len(),
        forall|i: int| 0 <= i < cheap(s, t).len() ==> s.contains(#[trigger] cheap(s, t)[i]) && cheap(s, t)[i].0 <= t,
    decreases s.len(),
{
    if s.len() > 0 {
        let rest = s.drop_last();
        lemma_cheap(rest, t);
        assert forall|i: int| 0 <= i < cheap(s, t).len() implies s.contains(#[trigger] cheap(s, t)[i]) && cheap(
            s,
            t,
        )[i].0 <= t by {
            let x = cheap(s, t)[i];
            if i < cheap(rest, t).len() {
                assert(x == cheap(rest, t)[i]);
                assert(rest.contains(x));
                let k = choose|k: int| 0 <= k < rest.len() && rest[k] == x;
                assert(s[k] == x);
            } else {
                assert(x == s[s.len() - 1]);
            }
        }
    }
}

/// A forest without its last edge is a forest.
pub proof fn lemma_forest_front(f: Seq<(isize, usize, usize)>, n: nat)
    requires
        is_forest(f, n),
        f.len() > 0,
    ensures
        is_forest(f.drop_last(), n),
        parts_after(f.drop_last(), n, f.len() - 1) == parts_after(f, n, f.len() - 1),
{
    let rest = f.drop_last();
    assert forall|j: int| 0 <= j < rest.len() implies parts_after(rest, n, j)[(#[trigger] rest[j]).1 as int]
        != parts_after(rest, n, j)[rest[j].2 as int] by {
        lemma_first_edges(rest, f, n, j);
        assert(rest[j] == f[j]);
    }
    assert forall|i: int| 0 <= i < rest.len() implies (#[trigger] rest[i]).1 < n && rest[i].2 < n by {
        assert(rest[i] == f[i]);
    }
    lemma_first_edges(rest, f, n, f.len() - 1);
}

/// When the same two vertices are joined in finer and in coarser parts,
/// the finer parts stay finer.
pub proof fn lemma_merge_refines(p: Seq<int>, q: Seq<int>, a: int, b: int)
    requires
        refines(p, q),
        0 <= a < p.len(),
        0 <= b < p.len(),
    ensures
        refines(merged(p, a, b), merged(q, a, b)),
        refines(p, merged(q, a, b)),
{
    let pm = merged(p, a, b);
    let qm = merged(q, a, b);
    assert forall|x: int, y: int|
        0 <= x < pm.len() && 0 <= y < pm.len() && #[trigger] pm[x] == #[trigger] pm[y] implies qm[x]
        == qm[y] by {
        if p[x] == p[b] {
            assert(q[x] == q[b]);
        }
        if p[y] == p[b] {
            assert(q[y] == q[b]);
        }
        if p[x] == p[a] {
            assert(q[x] == q[a]);
        }
        if p[y] == p[a] {
            assert(q[y] == q[a]);
        }
        if p[x] == p[y] {
            assert(q[x] == q[y]);
        }
    }
    assert forall|x: int, y: int|
        0 <= x < p.len() && 0 <= y < p.len() && #[trigger] p[x] == #[trigger] p[y] implies qm[x] == qm[y] by {
        assert(q[x] == q[y]);
    }
}

/// The cheap edges of a forest are a forest of their own: they and their
/// parts are together as many as the vertices, and their parts are finer
/// than those of the whole forest.
pub proof fn lemma_cheap_forest(f: Seq<(isize, usize, usize)>, n: nat, t: int)
    requires
        is_forest(f, n),
    ensures
        ends_within(cheap(f, t), n),
        refines(parts_after(cheap(f, t), n, cheap(f, t).len() as int), parts_after(f, n, f.len() as int)),
        cheap(f, t).len() + part_count(parts_after(cheap(f, t), n, cheap(f, t).len() as int), n as int) == n,
    decreases f.len(),
{
    lemma_parts_len(f, n, f.len() as int);
    if f.len() == 0 {
        lemma_count_alone(n, n as int);
        lemma_parts_len(cheap(f, t), n, 0);
    } else {
        let rest = f.drop_last();
        let x = f.last();
        let a = x.1 as int;
        let b = x.2 as int;
        lemma_forest_front(f, n);
        lemma_cheap_forest(rest, n, t);
        let low = cheap(rest, t);
        let fine = parts_after(low, n, low.len() as int);
        let before = parts_after(f, n, f.len() - 1);
        lemma_parts_len(low, n, low.len() as int);
        lemma_parts_len(f, n, f.len() - 1);
        assert(before[a] != before[b]);
        assert(parts_after(f, n, f.len() as int) == merged(before, a, b));
        lemma_merge_refines(fine, before, a, b);
        if x.0 <= t {
            let more = low.push(x);
            lemma_first_edges(more, low, n, low.len() as int);
            assert(more[more.len() - 1] == x);
            assert(fine[a] != fine[b]);
            assert(parts_after(more, n, more.len() as int) == merged(fine, a, b));
            lemma_merge_count(fine, a, b, n as int);
            assert(0 <= a < n && fine[a] == fine[a]);
            assert(0 <= b < n && fine[b] == fine[b]);
            assert forall|i: int| 0 <= i < more.len() implies (#[trigger] more[i]).1 < n && more[i].2 < n by {
                if i < low.len() {
                    assert(more[i] == low[i]);
                }
            }
        }
    }
}

/// Where the edges rise, those that cost at most `t` are the first, as
/// many as `cheap_total` counts.
pub proof fn lemma_cheap_first(s: Seq<(isize, usize, usize)>, t: int)
    requires
        edges_sorted(s),
    ensures
        0 <= cheap_total(s, t) <= s.len(),
        forall|i: int| 0 <= i < s.len() ==> (i < cheap_total(s, t) <==> (#[trigger] s[i]).0 <= t),
    decreases s.len(),
{
    if s.len() > 0 {
        let rest = s.drop_last();
        assert(edges_sorted(rest)) by {
            assert forall|i: int, j: int| 0 <= i < j < rest.len() implies edge_le(
                #[trigger] rest[i],
                #[trigger] rest[j],
            ) by {
                assert(edge_le(s[i], s[j]));
            }
        }
        lemma_cheap_first(rest, t);
        assert forall|i: int| 0 <= i < s.len() implies (i < cheap_total(s, t) <==> (#[trigger] s[i]).0 <= t) by {
            if i < rest.len() {
                assert(rest[i] == s[i]);
                assert(edge_le(s[i], s[s.len() - 1]));
                if s.last().0 <= t {
                    assert(rest[i].0 <= t);
                }
            }
            if s.last().0 <= t && rest.len() > 0 {
                assert(edge_le(s[rest.len() - 1], s[s.len() - 1]));
                assert(rest[rest.len() - 1] == s[rest.len() - 1]);
                assert(rest[rest.len() - 1].0 <= t);
            }
        }
    }
}

/// The edges taken hold at least as many edges that cost at most `t` as
/// were taken among the first `p` edges, where those cost at most `t`.
pub proof fn lemma_taken_cheap(s: Seq<(isize, usize, usize)>, n: nat, t: int, p: int, k: int)
    requires
        0 <= p <= s.len(),
        0 <= k <= s.len(),
        forall|i: int| 0 <= i < p ==> (#[trigger] s[i]).0 <= t,
    ensures
        k <= p ==> cheap_total(taken(s, n, k), t) == taken(s, n, k).len(),
        k >= p ==> cheap_total(taken(s, n, k), t) >= taken(s, n, p).len(),
    decreases k,
{
    if k > 0 {
        lemma_taken_cheap(s, n, t, p, k - 1);
        let before = parts_after(s, n, k - 1);
        if before[s[k - 1].1 as int] != before[s[k - 1].2 as int] {
            let more = taken(s, n, k - 1).push(s[k - 1]);
            assert(more.drop_last() =~= taken(s, n, k - 1));
            assert(more.last() == s[k - 1]);
        }
    }
}

/// A spanning forest of edges that rise holds, for every cost, no more
/// edges of at most that cost than the edges taken.
pub proof fn lemma_cheap_fewer(
    s: Seq<(isize, usize, usize)>,
    n: nat,
    f: Seq<(isize, usize, usize)>,
    t: int,
)
    requires
        edges_sorted(s),
        ends_within(s, n),
        is_forest(f, n),
        forall|j: int| 0 <= j < f.len() ==> s.contains(#[trigger] f[j]),
    ensures
        cheap_total(f, t) <= cheap_total(taken(s, n, s.len() as int), t),
{
    let p = cheap_total(s, t);
    lemma_cheap_first(s, t);
    lemma_taken_cheap(s, n, t, p, s.len() as int);
    lemma_taken_count(s, n, p);
    let low = cheap(f, t);
    lemma_cheap(f, t);
    lemma_cheap_forest(f, n, t);
    let q = parts_after(s, n, p);
    lemma_parts_len(s, n, p);
    assert forall|i: int| 0 <= i < low.len() implies q[(#[trigger] low[i]).1 as int] == q[low[i].2 as int] by {
        let x = low[i];
        assert(f.contains(x));
        let j = choose|j: int| 0 <= j < f.len() && f[j] == x;
        assert(s.contains(f[j]));
        let k = choose|k: int| 0 <= k < s.len() && s[k] == x;
        assert(s[k].0 <= t);
        lemma_joined(s, n, p, k);
    }
    lemma_inside_refines(low, n, low.len() as int, q);
    lemma_refines_count(parts_after(low, n, low.len() as int), q, n as int);
}

/// The sum of the numbers of edges of `s` that cost at most `t`, over the
/// costs `t` from `lo` to below `hi`.
pub open spec fn level_sum(s: Seq<(isize, usize, usize)>, lo: int, hi: int) -> int
    decreases hi - lo,
{
    if hi <= lo {
        0
    } else {
        level_sum(s, lo, hi - 1) + cheap_total(s, hi - 1)
    }
}

/// One edge more, of a cost from `lo` on, adds to the sum one for every
/// cost from its own to below `hi`.
pub proof fn lemma_level_last(s: Seq<(isize, usize, usize)>, lo: int, hi: int)
    requires
        s.len() > 0,
        lo <= s.last().0,
        lo <= hi,
    ensures
        level_sum(s, lo, hi) == level_sum(s.drop_last(), lo, hi) + (if hi <= s.last().0 {
            0
        } else {
            hi - s.last().0
        }),
    decreases hi - lo,
{
    if hi > lo {
        lemma_level_last(s, lo, hi - 1);
    }
}

/// The cost of edges whose costs are from `-b` to `b` is `b` for each,
/// less one for each edge and each cost from `-b` to below `b` that the
/// edge does not cost more than.
pub proof fn lemma_cost_by_levels(s: Seq<(isize, usize, usize)>, b: int)
    requires
        0 <= b,
        forall|i: int| 0 <= i < s.len() ==> -b <= (#[trigger] s[i]).0 <= b,
    ensures
        total_cost(s) == b * s.len() - level_sum(s, -b, b),
    decreases s.len(),
{
    if s.len() == 0 {
        lemma_level_none(s, -b, b);
        assert(b * s.len() == 0) by (nonlinear_arith)
            requires
                s.len() == 0,
        ;
    } else {
        let rest = s.drop_last();
        assert forall|i: int| 0 <= i < rest.len() implies -b <= (#[trigger] rest[i]).0 <= b by {
            assert(rest[i] == s[i]);
        }
        lemma_cost_by_levels(rest, b);
        assert(-b <= s[s.len() - 1].0 <= b);
        lemma_level_last(s, -b, b);
        assert(b * s.len() == b * rest.len() + b) by (nonlinear_arith)
            requires
                s.len() == rest.len() + 1,
        ;
    }
}

/// No edges, no sum.
pub proof fn lemma_level_none(s: Seq<(isize, usize, usize)>, lo: int, hi: int)
    requires
        s.len() == 0,
    ensures
        level_sum(s, lo, hi) == 0,
    decreases hi - lo,
{
    if hi > lo {
        lemma_level_none(s, lo, hi - 1);
    }
}

/// Where `a` holds for every cost no more edges of at most that cost than
/// `b`, its sum is no more.
pub proof fn lemma_level_fewer(a: Seq<(isize, usize, usize)>, b: Seq<(isize, usize, usize)>, lo: int, hi: int)
    requires
        forall|t: int| lo <= t < hi ==> #[trigger] cheap_total(a, t) <= cheap_total(b, t),
    ensures
        level_sum(a, lo, hi) <= level_sum(b, lo, hi),
    decreases hi - lo,
{
    if hi > lo {
        lemma_level_fewer(a, b, lo, hi - 1);
        assert(cheap_total(a, hi - 1) <= cheap_total(b, hi - 1));
    }
}

/// Where every edge costs at most `t`, all are counted.
pub proof fn lemma_all_cheap(s: Seq<(isize, usize, usize)>, t: int)
    requires
        forall|i: int| 0 <= i < s.len() ==> (#[trigger] s[i]).0 <= t,
    ensures
        cheap_total(s, t) == s.len(),
    decreases s.len(),
{
    if s.len() > 0 {
        let rest = s.drop_last();
        assert forall|i: int| 0 <= i < rest.len() implies (#[trigger] rest[i]).0 <= t by {
            assert(rest[i] == s[i]);
        }
        lemma_all_cheap(rest, t);
        assert(s[s.len() - 1].0 <= t);
    }
}

/// The edges that Kruskal's algorithm takes from edges that rise cost no
/// more than any spanning forest of those edges.
pub proof fn lemma_taken_least(
    s: Seq<(isize, usize, usize)>,
    n: nat,
    f: Seq<(isize, usize, usize)>,
    b: int,
)
    requires
        edges_sorted(s),
        ends_within(s, n),
        0 <= b,
        forall|i: int| 0 <= i < s.len() ==> -b <= (#[trigger] s[i]).0 <= b,
        is_spanning_forest(f, s, n),
    ensures
        total_cost(taken(s, n, s.len() as int)) <= total_cost(f),
{
    let m = s.len() as int;
    let all = taken(s, n, m);
    lemma_taken_members(s, n, m);
    assert forall|j: int| 0 <= j < f.len() implies -b <= (#[trigger] f[j]).0 <= b by {
        assert(s.contains(f[j]));
        let k = choose|k: int| 0 <= k < s.len() && s[k] == f[j];
        assert(-b <= s[k].0 <= b);
    }
    assert forall|j: int| 0 <= j < all.len() implies -b <= (#[trigger] all[j]).0 <= b by {
        assert(s.contains(all[j]));
        let k = choose|k: int| 0 <= k < s.len() && s[k] == all[j];
        assert(-b <= s[k].0 <= b);
    }
    assert forall|t: int| -b <= t < b + 1 implies #[trigger] cheap_total(f, t) <= cheap_total(all, t) by {
        lemma_cheap_fewer(s, n, f, t);
    }
    lemma_level_fewer(f, all, -b, b);
    lemma_cost_by_levels(f, b);
    lemma_cost_by_levels(all, b);
    lemma_all_cheap(f, b);
    lemma_cheap(all, b);
    assert(cheap_total(f, b) <= cheap_total(all, b));
    lemma_forest_count(f, n, f.len() as int);
    lemma_taken_count(s, n, m);
    lemma_parts_len(f, n, f.len() as int);
    lemma_inside_refines(s, n, m, parts_after(f, n, f.len() as int));
    lemma_parts_len(s, n, m);
    lemma_refines_count(parts_after(s, n, m), parts_after(f, n, f.len() as int), n as int);
    assert(all.len() == f.len());
    assert(b * all.len() == b * f.len());
}

/// The edges taken are among the edges given.
pub proof fn lemma_taken_members(s: Seq<(isize, usize, usize)>, n: nat, k: int)
    requires
        0 <= k <= s.len(),
    ensures
        forall|j: int| 0 <= j < taken(s, n, k).len() ==> s.contains(#[trigger] taken(s, n, k)[j]),
        taken(s, n, k).len() <= k,
    decreases k,
{
    if k > 0 {
        lemma_taken_members(s, n, k - 1);
        let chosen = taken(s, n, k - 1);
        assert forall|j: int| 0 <= j < taken(s, n, k).len() implies s.contains(#[trigger] taken(s, n, k)[j]) by {
            if j < chosen.len() {
                assert(taken(s, n, k)[j] == chosen[j]);
            } else {
                assert(taken(s, n, k)[j] == s[k - 1]);
            }
        }
    }
}

/// The edges taken are a spanning forest of the edges given.
pub proof fn lemma_taken_forest(s: Seq<(isize, usize, usize)>, n: nat, k: int)
    requires
        0 <= k <= s.len(),
        ends_within(s, n),
    ensures
        is_forest(taken(s, n, k), n),
        is_spanning_forest(taken(s, n, s.len() as int), s, n) || k < s.len(),
    decreases k,
{
    let now = taken(s, n, k);
    if k > 0 {
        lemma_taken_forest(s, n, k - 1);
        lemma_taken_spans(s, n, k - 1);
        let chosen = taken(s, n, k - 1);
        let before = parts_after(s, n, k - 1);
        if before[s[k - 1].1 as int] != before[s[k - 1].2 as int] {
            assert forall|j: int| 0 <= j < now.len() implies parts_after(now, n, j)[(#[trigger] now[j]).1 as int]
                != parts_after(now, n, j)[now[j].2 as int] by {
                lemma_first_edges(now, chosen, n, j);
                if j < chosen.len() {
                    assert(now[j] == chosen[j]);
                } else {
                    assert(now[j] == s[k - 1]);
                }
            }
            assert forall|i: int| 0 <= i < now.len() implies (#[trigger] now[i]).1 < n && now[i].2 < n by {
                if i < chosen.len() {
                    assert(now[i] == chosen[i]);
                } else {
                    assert(now[i] == s[k - 1]);
                }
            }
        }
    }
    if k == s.len() {
        lemma_taken_members(s, n, k);
        lemma_taken_spans(s, n, k);
        assert forall|i: int| 0 <= i < s.len() implies parts_after(now, n, now.len() as int)[(
        #[trigger] s[i]).1 as int] == parts_after(now, n, now.len() as int)[s[i].2 as int] by {
            lemma_joined(s, n, k, i);
        }
    }
}

} // verus!
