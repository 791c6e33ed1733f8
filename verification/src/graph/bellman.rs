use crate::graph::forest::lemma_bounded_set;
use vstd::prelude::*;

verus! {

/// `g` is a graph with signed costs in adjacency lists: each entry of a list
/// is a cost and a neighbour, which is a vertex.
pub open spec fn is_signed_graph(g: Seq<Vec<(isize, usize)>>) -> bool {
    forall|v: int, k: int| 0 <= v < g.len() && 0 <= k < g[v]@.len() ==> (#[trigger] g[v]@[k]).1 < g.len()
}

/// `c` is not negative, and no cost of `g` is above `c` or below `-c`.
pub open spec fn costs_inside(g: Seq<Vec<(isize, usize)>>, c: int) -> bool {
    &&& 0 <= c
    &&& forall|v: int, k: int|
        0 <= v < g.len() && 0 <= k < g[v]@.len() ==> -c <= (#[trigger] g[v]@[k]).0 <= c
}

/// The number of edges that leave the vertices below `v`.
pub open spec fn arcs_before(g: Seq<Vec<(isize, usize)>>, v: int) -> int
    decreases v,
{
    if v <= 0 {
        0
    } else {
        arcs_before(g, v - 1) + g[v - 1]@.len()
    }
}

/// `e` names an edge of `g`: a vertex and a place in its list.
pub open spec fn is_arc(g: Seq<Vec<(isize, usize)>>, e: (int, int)) -> bool {
    0 <= e.0 < g.len() && 0 <= e.1 < g[e.0]@.len()
}

/// The cost of the edge `e`.
pub open spec fn arc_cost(g: Seq<Vec<(isize, usize)>>, e: (int, int)) -> int {
    g[e.0]@[e.1].0 as int
}

/// The vertex that the edge `e` leads to.
pub open spec fn arc_end(g: Seq<Vec<(isize, usize)>>, e: (int, int)) -> int {
    g[e.0]@[e.1].1 as int
}

/// The vertex at which `route` stands before its edge `t`; after its last
/// edge it stands at `to`.
pub open spec fn stop(route: Seq<(int, int)>, to: int, t: int) -> int {
    if t < route.len() {
        route[t].0
    } else {
        to
    }
}

/// `route` is a way in `g` from `from` to `to`: a sequence of edges that
/// lead from one to the next.
pub open spec fn is_route(g: Seq<Vec<(isize, usize)>>, from: int, route: Seq<(int, int)>, to: int) -> bool {
    &&& 0 <= from < g.len()
    &&& stop(route, to, 0) == from
    &&& forall|t: int|
        0 <= t < route.len() ==> #[trigger] is_arc(g, route[t]) && arc_end(g, route[t]) == stop(
            route,
            to,
            t + 1,
        )
}

/// The sum of the costs of the edges of `route`.
pub open spec fn route_cost(g: Seq<Vec<(isize, usize)>>, route: Seq<(int, int)>) -> int
    decreases route.len(),
{
    if route.len() == 0 {
        0
    } else {
        route_cost(g, route.drop_last()) + arc_cost(g, route.last())
    }
}

/// There is a way from `st` to `x`.
pub open spec fn reachable(g: Seq<Vec<(isize, usize)>>, st: int, x: int) -> bool {
    exists|route: Seq<(int, int)>| is_route(g, st, route, x)
}

/// `route` leads from `st` to `x` and has between its stops `i` and `j` a
/// cycle of negative cost.
pub open spec fn falls(g: Seq<Vec<(isize, usize)>>, st: int, x: int, route: Seq<(int, int)>, i: int, j: int) -> bool {
    &&& is_route(g, st, route, x)
    &&& 0 <= i < j <= route.len()
    &&& stop(route, x, i) == stop(route, x, j)
    &&& route_cost(g, route.subrange(i, j)) < 0
}

/// There is a way from `st` to `x` through a cycle of negative cost, so
/// that ways from `st` to `x` cost as little as one likes.
pub open spec fn bottomless(g: Seq<Vec<(isize, usize)>>, st: int, x: int) -> bool {
    exists|route: Seq<(int, int)>, i: int, j: int| falls(g, st, x, route, i, j)
}

/// `d` is the least cost of a way from `st` to `x`.
pub open spec fn is_least_cost(g: Seq<Vec<(isize, usize)>>, st: int, x: int, d: int) -> bool {
    &&& exists|route: Seq<(int, int)>| is_route(g, st, route, x) && route_cost(g, route) == d
    &&& forall|route: Seq<(int, int)>| is_route(g, st, route, x) ==> d <= route_cost(g, route)
}

/// The cost of two ways, one after the other, is the sum of their costs.
pub proof fn lemma_cost_concat(g: Seq<Vec<(isize, usize)>>, a: Seq<(int, int)>, b: Seq<(int, int)>)
    ensures
        route_cost(g, a + b) == route_cost(g, a) + route_cost(g, b),
    decreases b.len(),
{
    if b.len() == 0 {
        assert(a + b =~= a);
    } else {
        assert((a + b).drop_last() =~= a + b.drop_last());
        lemma_cost_concat(g, a, b.drop_last());
    }
}

/// A way of `k` edges costs between `-k * c` and `k * c`, where the costs of
/// the edges are between `-c` and `c`.
pub proof fn lemma_cost_bound(g: Seq<Vec<(isize, usize)>>, route: Seq<(int, int)>, c: int)
    requires
        costs_inside(g, c),
        forall|t: int| 0 <= t < route.len() ==> #[trigger] is_arc(g, route[t]),
    ensures
        -(route.len() * c) <= route_cost(g, route) <= route.len() * c,
    decreases route.len(),
{
    if route.len() > 0 {
        let rest = route.drop_last();
        let e = route.last();
        assert(is_arc(g, e));
        assert(-c <= g[e.0]@[e.1].0 <= c);
        lemma_cost_bound(g, rest, c);
        assert(rest.len() * c + c == route.len() * c) by (nonlinear_arith)
            requires
                rest.len() + 1 == route.len(),
        ;
    }
}

/// A way with one more edge at its end.
pub proof fn lemma_route_push(
    g: Seq<Vec<(isize, usize)>>,
    from: int,
    route: Seq<(int, int)>,
    to: int,
    e: (int, int),
)
    requires
        is_route(g, from, route, to),
        is_arc(g, e),
        e.0 == to,
    ensures
        is_route(g, from, route.push(e), arc_end(g, e)),
        route_cost(g, route.push(e)) == route_cost(g, route) + arc_cost(g, e),
{
    let longer = route.push(e);
    assert(longer.drop_last() =~= route);
    assert forall|t: int| 0 <= t < longer.len() implies #[trigger] is_arc(g, longer[t]) && arc_end(
        g,
        longer[t],
    ) == stop(longer, arc_end(g, e), t + 1) by {
        if t < route.len() {
            assert(longer[t] == route[t]);
            assert(is_arc(g, route[t]));
        }
    }
}

/// The parts of a way between two of its stops are ways, and the costs of
/// the parts add up to the cost of the way.
pub proof fn lemma_route_parts(
    g: Seq<Vec<(isize, usize)>>,
    from: int,
    route: Seq<(int, int)>,
    to: int,
    i: int,
    j: int,
)
    requires
        is_route(g, from, route, to),
        is_signed_graph(g),
        0 <= i <= j <= route.len(),
    ensures
        is_route(g, from, route.take(i), stop(route, to, i)),
        is_route(g, stop(route, to, i), route.subrange(i, j), stop(route, to, j)),
        is_route(g, stop(route, to, j), route.skip(j), to),
        route_cost(g, route) == route_cost(g, route.take(i)) + route_cost(g, route.subrange(i, j))
            + route_cost(g, route.skip(j)),
{
    let a = route.take(i);
    let b = route.subrange(i, j);
    let c = route.skip(j);
    assert(route =~= (a + b) + c);
    lemma_cost_concat(g, a + b, c);
    lemma_cost_concat(g, a, b);
    assert forall|t: int| 0 <= t < route.len() implies 0 <= #[trigger] stop(route, to, t + 1) < g.len() by {
        assert(is_arc(g, route[t]));
    }
    if i > 0 {
        assert(0 <= stop(route, to, (i - 1) + 1) < g.len());
    }
    if j > 0 {
        assert(0 <= stop(route, to, (j - 1) + 1) < g.len());
    }
    assert forall|t: int| 0 <= t < a.len() implies #[trigger] is_arc(g, a[t]) && arc_end(g, a[t]) == stop(
        a,
        stop(route, to, i),
        t + 1,
    ) by {
        assert(a[t] == route[t]);
        assert(is_arc(g, route[t]));
    }
    assert forall|t: int| 0 <= t < b.len() implies #[trigger] is_arc(g, b[t]) && arc_end(g, b[t]) == stop(
        b,
        stop(route, to, j),
        t + 1,
    ) by {
        assert(b[t] == route[i + t]);
        assert(is_arc(g, route[i + t]));
    }
    assert forall|t: int| 0 <= t < c.len() implies #[trigger] is_arc(g, c[t]) && arc_end(g, c[t]) == stop(
        c,
        to,
        t + 1,
    ) by {
        assert(c[t] == route[j + t]);
        assert(is_arc(g, route[j + t]));
    }
}

/// Two ways, one after the other, are a way.
pub proof fn lemma_route_concat(
    g: Seq<Vec<(isize, usize)>>,
    from: int,
    a: Seq<(int, int)>,
    mid: int,
    b: Seq<(int, int)>,
    to: int,
)
    requires
        is_route(g, from, a, mid),
        is_route(g, mid, b, to),
    ensures
        is_route(g, from, a + b, to),
        route_cost(g, a + b) == route_cost(g, a) + route_cost(g, b),
{
    let both = a + b;
    lemma_cost_concat(g, a, b);
    assert forall|t: int| 0 <= t < both.len() implies #[trigger] is_arc(g, both[t]) && arc_end(
        g,
        both[t],
    ) == stop(both, to, t + 1) by {
        if t < a.len() {
            assert(both[t] == a[t]);
            assert(is_arc(g, a[t]));
        } else {
            assert(both[t] == b[t - a.len()]);
            assert(is_arc(g, b[t - a.len()]));
        }
    }
}

/// Among more than `n` numbers below `n`, one stands twice.
pub proof fn lemma_repeat(s: Seq<int>, n: int)
    requires
        0 <= n < s.len(),
        forall|t: int| 0 <= t < s.len() ==> 0 <= #[trigger] s[t] < n,
    ensures
        exists|i: int, j: int| 0 <= i < j < s.len() && s[i] == s[j],
{
    if s.no_duplicates() {
        s.unique_seq_to_set();
        assert forall|z: int| s.to_set().contains(z) implies 0 <= z < n by {
            let t = choose|t: int| 0 <= t < s.len() && s[t] == z;
            assert(0 <= s[t] < n);
        }
        lemma_bounded_set(s.to_set(), n);
    } else {
        let (i, j) = choose|i: int, j: int| 0 <= i < s.len() && 0 <= j < s.len() && i != j && s[i] == s[j];
        if i < j {
            assert(0 <= i < j < s.len() && s[i] == s[j]);
        } else {
            assert(0 <= j < i < s.len() && s[j] == s[i]);
        }
    }
}

/// A way of as many edges as there are vertices comes by one vertex twice;
/// without what lies between, it is a shorter way to the same end.
pub proof fn lemma_cut(g: Seq<Vec<(isize, usize)>>, st: int, route: Seq<(int, int)>, x: int) -> (at: (int, int))
    requires
        is_signed_graph(g),
        is_route(g, st, route, x),
        route.len() >= g.len(),
    ensures
        0 <= at.0 < at.1 <= route.len(),
        stop(route, x, at.0) == stop(route, x, at.1),
        is_route(g, st, route.take(at.0) + route.skip(at.1), x),
        route_cost(g, route) == route_cost(g, route.take(at.0) + route.skip(at.1)) + route_cost(
            g,
            route.subrange(at.0, at.1),
        ),
{
    let stops = Seq::new(route.len() + 1, |t: int| stop(route, x, t));
    assert forall|t: int| 0 <= t < stops.len() implies 0 <= #[trigger] stops[t] < g.len() by {
        if t > 0 {
            assert(is_arc(g, route[t - 1]));
            assert(arc_end(g, route[t - 1]) == stop(route, x, (t - 1) + 1));
        }
    }
    lemma_repeat(stops, g.len() as int);
    let (i, j) = choose|i: int, j: int| 0 <= i < j < stops.len() && stops[i] == stops[j];
    lemma_route_parts(g, st, route, x, i, j);
    lemma_route_concat(g, st, route.take(i), stop(route, x, i), route.skip(j), x);
    (i, j)
}

/// Where there is a way, there is one of fewer edges than there are
/// vertices.
pub proof fn lemma_short_route(g: Seq<Vec<(isize, usize)>>, st: int, route: Seq<(int, int)>, x: int)
    requires
        is_signed_graph(g),
        is_route(g, st, route, x),
    ensures
        exists|s: Seq<(int, int)>| is_route(g, st, s, x) && s.len() < g.len(),
    decreases route.len(),
{
    if route.len() >= g.len() {
        let at = lemma_cut(g, st, route, x);
        lemma_short_route(g, st, route.take(at.0) + route.skip(at.1), x);
    }
}

/// A way either is no cheaper than some way of fewer edges than there are
/// vertices, or shows that its end is bottomless.
pub proof fn lemma_cheap_route(g: Seq<Vec<(isize, usize)>>, st: int, route: Seq<(int, int)>, x: int)
    requires
        is_signed_graph(g),
        is_route(g, st, route, x),
    ensures
        bottomless(g, st, x) || exists|s: Seq<(int, int)>|
            is_route(g, st, s, x) && s.len() < g.len() && route_cost(g, s) <= route_cost(g, route),
    decreases route.len(),
{
    if route.len() >= g.len() {
        let at = lemma_cut(g, st, route, x);
        if route_cost(g, route.subrange(at.0, at.1)) < 0 {
            assert(falls(g, st, x, route, at.0, at.1));
        } else {
            lemma_cheap_route(g, st, route.take(at.0) + route.skip(at.1), x);
        }
    }
}

/// A way without its last edge is a way to the vertex that the edge leaves.
pub proof fn lemma_route_drop(g: Seq<Vec<(isize, usize)>>, from: int, route: Seq<(int, int)>, to: int)
    requires
        is_signed_graph(g),
        is_route(g, from, route, to),
        route.len() > 0,
    ensures
        is_route(g, from, route.drop_last(), route.last().0),
        is_arc(g, route.last()),
        arc_end(g, route.last()) == to,
        route_cost(g, route) == route_cost(g, route.drop_last()) + arc_cost(g, route.last()),
{
    let k = route.len() - 1;
    lemma_route_parts(g, from, route, to, k, k);
    assert(route.take(k) =~= route.drop_last());
    assert(is_arc(g, route[k]));
}

/// The edges before `v` are among the edges before `n`, where `v` is at
/// most `n`.
pub proof fn lemma_arcs_before(g: Seq<Vec<(isize, usize)>>, v: int, n: int)
    requires
        0 <= v <= n,
    ensures
        0 <= arcs_before(g, v) <= arcs_before(g, n),
    decreases n,
{
    if v < n {
        lemma_arcs_before(g, v, n - 1);
    } else if n > 0 {
        lemma_arcs_before(g, v - 1, n - 1);
    }
}

/// A number between `-k * c` and `k * c` is between `-s * c` and `s * c`
/// where `k` is at most `s`.
pub proof fn lemma_room(k: int, s: int, c: int, v: int)
    requires
        0 <= k <= s,
        0 <= c,
        -(k * c) <= v <= k * c,
    ensures
        -(s * c) <= v <= s * c,
{
    assert(k * c <= s * c) by (nonlinear_arith)
        requires
            0 <= k <= s,
            0 <= c,
    ;
}

/// `dist` holds for `x` the cost of a way from `st` of at most `t` edges.
pub open spec fn has_route(g: Seq<Vec<(isize, usize)>>, st: int, x: int, d: int, t: int) -> bool {
    exists|route: Seq<(int, int)>| #[trigger]
        is_route(g, st, route, x) && route_cost(g, route) == d && route.len() <= t
}

/// Each entry of `dist` that is no mark is the cost of a way from `st` of at
/// most `t` edges.
pub open spec fn witnessed(g: Seq<Vec<(isize, usize)>>, st: int, dist: Seq<isize>, t: int) -> bool {
    forall|x: int|
        0 <= x < dist.len() && #[trigger] dist[x] != isize::MAX && dist[x] != isize::MIN ==> has_route(
            g,
            st,
            x,
            dist[x] as int,
            t,
        )
}

/// No way from `st` of at most `k` edges is cheaper than the entry of `dist`
/// for its end.
pub open spec fn short(g: Seq<Vec<(isize, usize)>>, st: int, dist: Seq<isize>, k: int) -> bool {
    forall|route: Seq<(int, int)>, x: int| #[trigger]
        is_route(g, st, route, x) && route.len() <= k ==> dist[x] <= route_cost(g, route)
}

/// The edge `e` has nothing to pass on: it leads from or to a vertex
/// without a way, or from a bottomless vertex to a bottomless one, or to a
/// vertex that costs no more than the edge after the vertex it leaves.
pub open spec fn edge_settled(g: Seq<Vec<(isize, usize)>>, dist: Seq<isize>, e: (int, int)) -> bool {
    let from = dist[e.0];
    let to = dist[arc_end(g, e)];
    to == isize::MAX || from == isize::MAX || to == isize::MIN || (from != isize::MIN && to <= from
        + arc_cost(g, e))
}

/// No edge of `g` has anything to pass on.
pub open spec fn settled(g: Seq<Vec<(isize, usize)>>, dist: Seq<isize>) -> bool {
    forall|e: (int, int)| #[trigger] is_arc(g, e) ==> edge_settled(g, dist, e)
}

/// Every edge from a vertex with a way leads to a vertex with a way.
pub open spec fn closed(g: Seq<Vec<(isize, usize)>>, dist: Seq<isize>) -> bool {
    forall|e: (int, int)| #[trigger]
        is_arc(g, e) && dist[e.0] != isize::MAX ==> dist[arc_end(g, e)] != isize::MAX
}

/// A way from a vertex with a way ends at a vertex with a way.
pub proof fn lemma_closed_route(
    g: Seq<Vec<(isize, usize)>>,
    dist: Seq<isize>,
    from: int,
    route: Seq<(int, int)>,
    to: int,
)
    requires
        is_signed_graph(g),
        closed(g, dist),
        is_route(g, from, route, to),
        dist[from] != isize::MAX,
    ensures
        dist[to] != isize::MAX,
    decreases route.len(),
{
    if route.len() > 0 {
        lemma_route_drop(g, from, route, to);
        lemma_closed_route(g, dist, from, route.drop_last(), route.last().0);
    }
}

/// In a settled table, a way to a vertex that is not bottomless starts at
/// one that is not, and the entries differ by at most the cost of the way.
pub proof fn lemma_clean_route(
    g: Seq<Vec<(isize, usize)>>,
    dist: Seq<isize>,
    from: int,
    route: Seq<(int, int)>,
    to: int,
)
    requires
        is_signed_graph(g),
        closed(g, dist),
        settled(g, dist),
        is_route(g, from, route, to),
        dist[from] != isize::MAX,
        dist[to] != isize::MIN,
    ensures
        dist[from] != isize::MIN,
        dist[to] <= dist[from] + route_cost(g, route),
    decreases route.len(),
{
    if route.len() > 0 {
        let e = route.last();
        lemma_route_drop(g, from, route, to);
        lemma_closed_route(g, dist, from, route.drop_last(), e.0);
        lemma_closed_route(g, dist, from, route, to);
        assert(edge_settled(g, dist, e));
        lemma_clean_route(g, dist, from, route.drop_last(), e.0);
    }
}

/// In a settled table every bottomless vertex is marked.
pub proof fn lemma_bottomless_marked(g: Seq<Vec<(isize, usize)>>, dist: Seq<isize>, st: int, x: int)
    requires
        is_signed_graph(g),
        closed(g, dist),
        settled(g, dist),
        dist[st] != isize::MAX,
        bottomless(g, st, x),
    ensures
        dist[x] == isize::MIN,
{
    let (route, i, j) = choose|route: Seq<(int, int)>, i: int, j: int| falls(g, st, x, route, i, j);
    lemma_route_parts(g, st, route, x, i, j);
    let at = stop(route, x, i);
    lemma_closed_route(g, dist, st, route.take(i), at);
    if dist[x] != isize::MIN {
        lemma_clean_route(g, dist, at, route.skip(j), x);
        lemma_clean_route(g, dist, at, route.subrange(i, j), at);
    }
}

/// One edge further from a bottomless vertex the vertex is bottomless.
pub proof fn lemma_bottomless_step(g: Seq<Vec<(isize, usize)>>, st: int, v: int, e: (int, int))
    requires
        is_signed_graph(g),
        bottomless(g, st, v),
        is_arc(g, e),
        e.0 == v,
    ensures
        bottomless(g, st, arc_end(g, e)),
{
    let (route, i, j) = choose|route: Seq<(int, int)>, i: int, j: int| falls(g, st, v, route, i, j);
    lemma_route_push(g, st, route, v, e);
    let longer = route.push(e);
    assert(longer.subrange(i, j) =~= route.subrange(i, j));
    assert(falls(g, st, arc_end(g, e), longer, i, j));
}

/// An edge that could still lower an entry, after as many rounds as would
/// have brought every way that comes by no vertex twice, leads to a
/// bottomless vertex.
pub proof fn lemma_late_gain(
    g: Seq<Vec<(isize, usize)>>,
    st: int,
    dist: Seq<isize>,
    t: int,
    e: (int, int),
)
    requires
        is_signed_graph(g),
        short(g, st, dist, g.len() - 1),
        is_arc(g, e),
        has_route(g, st, e.0, dist[e.0] as int, t),
        dist[arc_end(g, e)] > dist[e.0] + arc_cost(g, e),
    ensures
        bottomless(g, st, arc_end(g, e)),
{
    let route = choose|route: Seq<(int, int)>| #[trigger]
        is_route(g, st, route, e.0) && route_cost(g, route) == dist[e.0] as int && route.len() <= t;
    lemma_route_push(g, st, route, e.0, e);
    lemma_cheap_route(g, st, route.push(e), arc_end(g, e));
}

/// A graph with an edge has at least one edge.
pub proof fn lemma_arcs_some(g: Seq<Vec<(isize, usize)>>, e: (int, int))
    requires
        is_arc(g, e),
    ensures
        arcs_before(g, g.len() as int) >= 1,
        arcs_before(g, e.0 + 1) == arcs_before(g, e.0) + g[e.0]@.len(),
{
    lemma_arcs_before(g, e.0, e.0 + 1);
    lemma_arcs_before(g, e.0 + 1, g.len() as int);
}

/// Ways of at most `t` edges are ways of at most `u` edges, where `t` is
/// at most `u`.
pub proof fn lemma_witnessed_more(g: Seq<Vec<(isize, usize)>>, st: int, dist: Seq<isize>, t: int, u: int)
    requires
        witnessed(g, st, dist, t),
        t <= u,
    ensures
        witnessed(g, st, dist, u),
{
    assert forall|x: int|
        0 <= x < dist.len() && #[trigger] dist[x] != isize::MAX && dist[x] != isize::MIN implies has_route(
        g,
        st,
        x,
        dist[x] as int,
        u,
    ) by {
        assert(has_route(g, st, x, dist[x] as int, t));
        let route = choose|route: Seq<(int, int)>| #[trigger]
            is_route(g, st, route, x) && route_cost(g, route) == dist[x] as int && route.len() <= t;
        assert(is_route(g, st, route, x) && route.len() <= u);
    }
}

/// The entry for the start of an edge and the cost of the edge, put at the
/// end of the edge, are the cost of a way with one edge more.
pub proof fn lemma_witnessed_set(
    g: Seq<Vec<(isize, usize)>>,
    st: int,
    dist: Seq<isize>,
    t: int,
    e: (int, int),
    sum: isize,
)
    requires
        is_signed_graph(g),
        dist.len() == g.len(),
        witnessed(g, st, dist, t),
        is_arc(g, e),
        dist[e.0] != isize::MAX,
        dist[e.0] != isize::MIN,
        sum == dist[e.0] + arc_cost(g, e),
    ensures
        witnessed(g, st, dist.update(arc_end(g, e), sum), t + 1),
{
    let after = dist.update(arc_end(g, e), sum);
    lemma_witnessed_more(g, st, dist, t, t + 1);
    assert(has_route(g, st, e.0, dist[e.0] as int, t));
    let route = choose|route: Seq<(int, int)>| #[trigger]
        is_route(g, st, route, e.0) && route_cost(g, route) == dist[e.0] as int && route.len() <= t;
    lemma_route_push(g, st, route, e.0, e);
    assert forall|x: int|
        0 <= x < after.len() && #[trigger] after[x] != isize::MAX && after[x] != isize::MIN implies has_route(
        g,
        st,
        x,
        after[x] as int,
        t + 1,
    ) by {
        if x == arc_end(g, e) {
            assert(is_route(g, st, route.push(e), x));
        } else {
            assert(dist[x] == after[x]);
        }
    }
}

/// The entry of a vertex with a way of at most `t` edges is between
/// `-t * c` and `t * c`.
pub proof fn lemma_entry_bound(g: Seq<Vec<(isize, usize)>>, st: int, dist: Seq<isize>, t: int, c: int, x: int)
    requires
        costs_inside(g, c),
        witnessed(g, st, dist, t),
        0 <= x < dist.len(),
        dist[x] != isize::MAX,
        dist[x] != isize::MIN,
    ensures
        0 <= t,
        -(t * c) <= dist[x] <= t * c,
{
    assert(has_route(g, st, x, dist[x] as int, t));
    let route = choose|route: Seq<(int, int)>| #[trigger]
        is_route(g, st, route, x) && route_cost(g, route) == dist[x] as int && route.len() <= t;
    lemma_cost_bound(g, route, c);
    lemma_room(route.len() as int, t, c, dist[x] as int);
}

/// The edge `e` comes before place `k` of vertex `v`, in the order in which
/// a round takes the edges.
pub open spec fn taken(e: (int, int), v: int, k: int) -> bool {
    e.0 < v || (e.0 == v && e.1 < k)
}

/// After a round over all the edges, no way of at most one edge more is
/// cheaper than the entry for its end.
pub proof fn lemma_round(
    g: Seq<Vec<(isize, usize)>>,
    st: int,
    before: Seq<isize>,
    dist: Seq<isize>,
    k: int,
    c: int,
)
    requires
        is_signed_graph(g),
        costs_inside(g, c),
        before.len() == g.len(),
        dist.len() == g.len(),
        0 <= k,
        arcs_before(g, g.len() as int) >= 1 ==> k * c < isize::MAX,
        short(g, st, before, k),
        forall|x: int| 0 <= x < g.len() ==> dist[x] <= #[trigger] before[x],
        forall|e: (int, int)| #[trigger]
            is_arc(g, e) && before[e.0] != isize::MAX ==> dist[arc_end(g, e)] <= before[e.0] + arc_cost(
                g,
                e,
            ),
    ensures
        short(g, st, dist, k + 1),
{
    assert forall|route: Seq<(int, int)>, x: int| #[trigger]
        is_route(g, st, route, x) && route.len() <= k + 1 implies dist[x] <= route_cost(g, route) by {
        if route.len() <= k {
            if route.len() > 0 {
                lemma_route_drop(g, st, route, x);
            }
            assert(dist[x] <= before[x]);
        } else {
            let e = route.last();
            let rest = route.drop_last();
            lemma_route_drop(g, st, route, x);
            lemma_arcs_some(g, e);
            assert(is_route(g, st, rest, e.0));
            lemma_cost_bound(g, rest, c);
            assert(rest.len() * c == k * c);
        }
    }
}

/// One round: every edge from a vertex with a way lowers the entry for
/// its end where the way over the edge is cheaper.
fn relax_all(
    g: &[Vec<(isize, usize)>],
    dist: &mut Vec<isize>,
    Ghost(st): Ghost<int>,
    Ghost(c): Ghost<int>,
    Ghost(t): Ghost<int>,
    Ghost(k): Ghost<int>,
)
    requires
        is_signed_graph(g@),
        costs_inside(g@, c),
        old(dist)@.len() == g.len(),
        0 <= st < g.len(),
        0 <= t,
        0 <= k < g.len(),
        (t + arcs_before(g@, g.len() as int)) * c < isize::MAX,
        arcs_before(g@, g.len() as int) >= 1 ==> k * c < isize::MAX,
        witnessed(g@, st, old(dist)@, t),
        forall|x: int| 0 <= x < g.len() ==> #[trigger] old(dist)@[x] != isize::MIN,
        short(g@, st, old(dist)@, k),
    ensures
        final(dist)@.len() == g.len(),
        witnessed(g@, st, final(dist)@, t + arcs_before(g@, g.len() as int)),
        forall|x: int| 0 <= x < g.len() ==> #[trigger] final(dist)@[x] != isize::MIN,
        short(g@, st, final(dist)@, k + 1),
{
    let n = g.len();
    let ghost before = dist@;
    let ghost all = arcs_before(g@, n as int);
    let mut v: usize = 0;
    while v < n
        invariant
            n == g.len(),
            dist@.len() == n,
            before.len() == n,
            0 <= v <= n,
            is_signed_graph(g@),
            costs_inside(g@, c),
            0 <= t,
            all == arcs_before(g@, n as int),
            (t + all) * c < isize::MAX,
            forall|x: int| 0 <= x < n ==> dist@[x] <= #[trigger] before[x],
            forall|x: int| 0 <= x < n ==> #[trigger] dist@[x] != isize::MIN,
            witnessed(g@, st, dist@, t + arcs_before(g@, v as int)),
            forall|e: (int, int)| #[trigger]
                is_arc(g@, e) && taken(e, v as int, 0) && before[e.0] != isize::MAX ==> dist@[arc_end(
                    g@,
                    e,
                )] <= before[e.0] + arc_cost(g@, e),
        decreases n - v,
    {
        proof {
            lemma_arcs_before(g@, v as int, v as int + 1);
            lemma_arcs_before(g@, v as int + 1, n as int);
        }
        let ghost start = t + arcs_before(g@, v as int);
        if dist[v] != isize::MAX {
            let mut j: usize = 0;
            while j < g[v].len()
                invariant
                    n == g.len(),
                    dist@.len() == n,
                    before.len() == n,
                    0 <= v < n,
                    0 <= j <= g@[v as int]@.len(),
                    is_signed_graph(g@),
                    costs_inside(g@, c),
                    0 <= t,
                    all == arcs_before(g@, n as int),
                    (t + all) * c < isize::MAX,
                    start == t + arcs_before(g@, v as int),
                    0 <= arcs_before(g@, v as int),
                    arcs_before(g@, v as int) + g@[v as int]@.len() <= all,
                    dist@[v as int] != isize::MAX,
                    forall|x: int| 0 <= x < n ==> dist@[x] <= #[trigger] before[x],
                    forall|x: int| 0 <= x < n ==> #[trigger] dist@[x] != isize::MIN,
                    witnessed(g@, st, dist@, start + j),
                    forall|e: (int, int)| #[trigger]
                        is_arc(g@, e) && taken(e, v as int, j as int) && before[e.0] != isize::MAX
                            ==> dist@[arc_end(g@, e)] <= before[e.0] + arc_cost(g@, e),
                decreases g@[v as int]@.len() - j,
            {
                let edge = g[v][j];
                let cost = edge.0;
                let nv = edge.1;
                let ghost e = (v as int, j as int);
                let ghost was = dist@;
                proof {
                    assert(is_arc(g@, e));
                    assert(g@[v as int]@[j as int].1 < n);
                    assert(-c <= g@[v as int]@[j as int].0 <= c);
                    lemma_entry_bound(g@, st, dist@, start + j, c, v as int);
                    let q = start + j;
                    assert((q + 1) * c <= (t + all) * c) by (nonlinear_arith)
                        requires
                            0 <= q + 1 <= t + all,
                            0 <= c,
                    ;
                    assert((q + 1) * c == q * c + c) by (nonlinear_arith);
                }
                let sum: isize = dist[v] + cost;
                if dist[nv] > sum {
                    dist.set(nv, sum);
                    proof {
                        lemma_witnessed_set(g@, st, was, start + j, e, sum);
                    }
                } else {
                    proof {
                        lemma_witnessed_more(g@, st, was, start + j, start + j + 1);
                    }
                }
                proof {
                    assert forall|f: (int, int)| #[trigger]
                        is_arc(g@, f) && taken(f, v as int, j as int + 1) && before[f.0]
                            != isize::MAX implies dist@[arc_end(g@, f)] <= before[f.0] + arc_cost(g@, f) by {
                        if f == e {
                            assert(was[v as int] <= before[v as int]);
                        } else {
                            assert(taken(f, v as int, j as int));
                            assert(was[arc_end(g@, f)] <= before[f.0] + arc_cost(g@, f));
                        }
                    }
                }
                j += 1;
            }
        } else {
            proof {
                lemma_witnessed_more(g@, st, dist@, start, t + arcs_before(g@, v as int + 1));
            }
        }
        v += 1;
    }
    proof {
        assert forall|e: (int, int)| #[trigger]
            is_arc(g@, e) && before[e.0] != isize::MAX implies dist@[arc_end(g@, e)] <= before[e.0]
            + arc_cost(g@, e) by {
            assert(taken(e, n as int, 0));
        }
        lemma_round(g@, st, before, dist@, k, c);
    }
}

/// Each entry of `dist` is the entry of `base`, or the mark of a bottomless
/// vertex in the place of a cost.
pub open spec fn marked_from(base: Seq<isize>, dist: Seq<isize>) -> bool {
    &&& dist.len() == base.len()
    &&& forall|x: int|
        0 <= x < dist.len() ==> #[trigger] dist[x] == base[x] || (dist[x] == isize::MIN && base[x]
            != isize::MAX)
}

/// Every vertex that `dist` marks as bottomless is bottomless.
pub open spec fn marks_sound(g: Seq<Vec<(isize, usize)>>, st: int, dist: Seq<isize>) -> bool {
    forall|x: int| 0 <= x < dist.len() && #[trigger] dist[x] == isize::MIN ==> bottomless(g, st, x)
}

/// The vertices that `dist` marks as bottomless.
pub open spec fn marks(dist: Seq<isize>) -> Set<int> {
    Set::new(|x: int| 0 <= x < dist.len() && dist[x] == isize::MIN)
}

/// The marked vertices are at most as many as the vertices, and one more
/// with each new mark.
pub proof fn lemma_mark(dist: Seq<isize>, x: int)
    requires
        0 <= x < dist.len(),
    ensures
        marks(dist).finite(),
        marks(dist).len() <= dist.len(),
        dist[x] != isize::MIN ==> marks(dist.update(x, isize::MIN)).len() == marks(dist).len() + 1,
{
    lemma_bounded_set(marks(dist), dist.len() as int);
    if dist[x] != isize::MIN {
        assert(marks(dist.update(x, isize::MIN)) =~= marks(dist).insert(x));
    }
}

/// Where every vertex is marked, no edge has anything to pass on.
pub proof fn lemma_all_marked(g: Seq<Vec<(isize, usize)>>, dist: Seq<isize>)
    requires
        is_signed_graph(g),
        dist.len() == g.len(),
        marks(dist).len() >= dist.len(),
    ensures
        settled(g, dist),
{
    let n = dist.len() as int;
    if n > 0 {
        lemma_mark(dist, 0);
        vstd::set_lib::lemma_int_range(0, n);
        let range = vstd::set_lib::set_int_range(0, n);
        assert(marks(dist).subset_of(range));
        vstd::set_lib::lemma_subset_equality(marks(dist), range);
        assert forall|e: (int, int)| #[trigger] is_arc(g, e) implies edge_settled(g, dist, e) by {
            assert(range.contains(arc_end(g, e)));
            assert(marks(dist).contains(arc_end(g, e)));
        }
    }
}

/// One round: every edge that could still lower the entry for its end, and
/// every edge from a bottomless vertex, marks its end as bottomless.
fn mark_all(
    g: &[Vec<(isize, usize)>],
    dist: &mut Vec<isize>,
    Ghost(st): Ghost<int>,
    Ghost(c): Ghost<int>,
    Ghost(base): Ghost<Seq<isize>>,
    Ghost(t): Ghost<int>,
)
    requires
        is_signed_graph(g@),
        costs_inside(g@, c),
        0 <= st < g.len(),
        base.len() == g.len(),
        forall|x: int| 0 <= x < g.len() ==> #[trigger] base[x] != isize::MIN,
        witnessed(g@, st, base, t),
        short(g@, st, base, g.len() - 1),
        (t + 1) * c < isize::MAX,
        marked_from(base, old(dist)@),
        marks_sound(g@, st, old(dist)@),
    ensures
        marked_from(base, final(dist)@),
        marks_sound(g@, st, final(dist)@),
        settled(g@, old(dist)@) ==> final(dist)@ == old(dist)@,
        (final(dist)@ == old(dist)@ && settled(g@, final(dist)@)) || marks(final(dist)@).len() >= marks(
            old(dist)@,
        ).len() + 1,
{
    let n = g.len();
    let ghost before = dist@;
    let mut v: usize = 0;
    while v < n
        invariant
            n == g.len(),
            base.len() == n,
            before.len() == n,
            0 <= v <= n,
            is_signed_graph(g@),
            costs_inside(g@, c),
            0 <= st < n,
            forall|x: int| 0 <= x < n ==> #[trigger] base[x] != isize::MIN,
            witnessed(g@, st, base, t),
            short(g@, st, base, n - 1),
            (t + 1) * c < isize::MAX,
            marked_from(base, dist@),
            marks_sound(g@, st, dist@),
            marks(dist@).len() >= marks(before).len(),
            settled(g@, before) ==> dist@ == before,
            (dist@ == before && forall|e: (int, int)| #[trigger]
                is_arc(g@, e) && taken(e, v as int, 0) ==> edge_settled(g@, dist@, e)) || marks(
                dist@,
            ).len() >= marks(before).len() + 1,
        decreases n - v,
    {
        let mut j: usize = 0;
        while j < g[v].len()
            invariant
                n == g.len(),
                base.len() == n,
                before.len() == n,
                0 <= v < n,
                0 <= j <= g@[v as int]@.len(),
                is_signed_graph(g@),
                costs_inside(g@, c),
                0 <= st < n,
                forall|x: int| 0 <= x < n ==> #[trigger] base[x] != isize::MIN,
                witnessed(g@, st, base, t),
                short(g@, st, base, n - 1),
                (t + 1) * c < isize::MAX,
                marked_from(base, dist@),
                marks_sound(g@, st, dist@),
                marks(dist@).len() >= marks(before).len(),
                settled(g@, before) ==> dist@ == before,
                (dist@ == before && forall|e: (int, int)| #[trigger]
                    is_arc(g@, e) && taken(e, v as int, j as int) ==> edge_settled(g@, dist@, e))
                    || marks(dist@).len() >= marks(before).len() + 1,
            decreases g@[v as int]@.len() - j,
        {
            let edge = g[v][j];
            let cost = edge.0;
            let nv = edge.1;
            let ghost e = (v as int, j as int);
            let ghost was = dist@;
            proof {
                assert(is_arc(g@, e));
                assert(g@[v as int]@[j as int].1 < n);
                assert(-c <= g@[v as int]@[j as int].0 <= c);
                lemma_mark(was, nv as int);
            }
            if dist[nv] != isize::MAX {
                let from = dist[v];
                let gain = if from == isize::MAX {
                    false
                } else if from == isize::MIN {
                    true
                } else {
                    proof {
                        assert(was[v as int] == base[v as int]);
                        lemma_entry_bound(g@, st, base, t, c, v as int);
                        assert((t + 1) * c == t * c + c) by (nonlinear_arith);
                    }
                    dist[nv] > from + cost
                };
                if gain {
                    proof {
                        if from == isize::MIN {
                            lemma_bottomless_step(g@, st, v as int, e);
                        } else if was[nv as int] != isize::MIN {
                            assert(was[nv as int] == base[nv as int]);
                            assert(has_route(g@, st, v as int, base[v as int] as int, t));
                            lemma_late_gain(g@, st, base, t, e);
                        }
                    }
                    dist.set(nv, isize::MIN);
                }
            }
            proof {
                if dist@ =~= was {
                    assert(edge_settled(g@, dist@, e));
                    assert forall|f: (int, int)| #[trigger]
                        is_arc(g@, f) && taken(f, v as int, j as int + 1) && dist@
                            == before implies edge_settled(g@, dist@, f) by {
                        if f != e {
                            assert(taken(f, v as int, j as int));
                        }
                    }
                } else {
                    assert(was[nv as int] != isize::MIN);
                    assert(!edge_settled(g@, was, e));
                }
            }
            j += 1;
        }
        v += 1;
    }
    proof {
        if dist@ == before && marks(dist@).len() < marks(before).len() + 1 {
            assert forall|e: (int, int)| #[trigger] is_arc(g@, e) implies edge_settled(g@, dist@, e) by {
                assert(taken(e, n as int, 0));
            }
        }
    }
}

/// `dist` holds for every vertex of `g` what the ways from `st` to it
/// cost: the largest number where there is none, the least number where
/// they cost as little as one likes, and else the least cost of a way.
pub open spec fn is_signed_costs(g: Seq<Vec<(isize, usize)>>, st: int, dist: Seq<isize>) -> bool {
    &&& dist.len() == g.len()
    &&& forall|x: int| 0 <= x < g.len() ==> (#[trigger] dist[x] == isize::MAX <==> !reachable(g, st, x))
    &&& forall|x: int| 0 <= x < g.len() ==> (#[trigger] dist[x] == isize::MIN <==> bottomless(g, st, x))
    &&& forall|x: int|
        0 <= x < g.len() && isize::MIN < #[trigger] dist[x] < isize::MAX ==> is_least_cost(
            g,
            st,
            x,
            dist[x] as int,
        )
}

/// A settled table with sound marks, whose costs are costs of ways and
/// whose vertices without a way cannot be reached, holds what the ways
/// from `st` cost.
pub proof fn lemma_signed_costs(g: Seq<Vec<(isize, usize)>>, st: int, dist: Seq<isize>, t: int)
    requires
        is_signed_graph(g),
        0 <= st < g.len(),
        dist.len() == g.len(),
        settled(g, dist),
        marks_sound(g, st, dist),
        witnessed(g, st, dist, t),
        dist[st] == isize::MIN || dist[st] <= 0,
        forall|x: int| 0 <= x < g.len() ==> (#[trigger] dist[x] == isize::MAX <==> !reachable(g, st, x)),
    ensures
        is_signed_costs(g, st, dist),
{
    assert(is_route(g, st, Seq::<(int, int)>::empty(), st));
    assert(reachable(g, st, st));
    assert forall|e: (int, int)| #[trigger] is_arc(g, e) && dist[e.0] != isize::MAX implies dist[arc_end(
        g,
        e,
    )] != isize::MAX by {
        let route = choose|route: Seq<(int, int)>| is_route(g, st, route, e.0);
        lemma_route_push(g, st, route, e.0, e);
        assert(reachable(g, st, arc_end(g, e)));
    }
    assert forall|x: int| 0 <= x < g.len() && bottomless(g, st, x) implies #[trigger] dist[x]
        == isize::MIN by {
        lemma_bottomless_marked(g, dist, st, x);
    }
    assert forall|x: int| 0 <= x < g.len() && isize::MIN < #[trigger] dist[x] < isize::MAX implies is_least_cost(
        g,
        st,
        x,
        dist[x] as int,
    ) by {
        assert(has_route(g, st, x, dist[x] as int, t));
        assert forall|route: Seq<(int, int)>| is_route(g, st, route, x) implies dist[x] <= route_cost(
            g,
            route,
        ) by {
            lemma_clean_route(g, dist, st, route, x);
        }
    }
}

/// What the ways from `st` to each vertex cost, where costs may be
/// negative: the largest number where there is no way, the least number
/// where ways cost as little as one likes, and else the least cost of a way.
pub fn bellman_ford(st: usize, g: &[Vec<(isize, usize)>]) -> (dist: Vec<isize>)
    requires
        is_signed_graph(g@),
        st < g.len(),
        exists|c: int| costs_inside(g@, c) && g.len() * arcs_before(g@, g.len() as int) * c < isize::MAX,
    ensures
        is_signed_costs(g@, st as int, dist@),
{
    let n = g.len();
    let ghost all = arcs_before(g@, n as int);
    let ghost given = choose|c: int| costs_inside(g@, c) && n * all * c < isize::MAX;
    let ghost c = if all == 0 {
        0
    } else {
        given
    };
    proof {
        if all == 0 {
            assert forall|v: int, k: int| 0 <= v < g@.len() && 0 <= k < g@[v]@.len() implies -c <= (
            #[trigger] g@[v]@[k]).0 <= c by {
                lemma_arcs_some(g@, (v, k));
            }
            assert(n * all * c == 0) by (nonlinear_arith)
                requires
                    c == 0,
            ;
        }
    }
    let mut dist: Vec<isize> = vec![isize::MAX; n];
    dist.set(st, 0);
    let ghost mut used: int = 0;
    proof {
        lemma_arcs_before(g@, 0, n as int);
        let nothing = Seq::<(int, int)>::empty();
        assert(is_route(g@, st as int, nothing, st as int));
        assert(route_cost(g@, nothing) == 0);
        assert(has_route(g@, st as int, st as int, 0, 0));
    }
    let mut round: usize = 1;
    while round < n
        invariant
            n == g.len(),
            dist@.len() == n,
            st < n,
            1 <= round <= n,
            is_signed_graph(g@),
            costs_inside(g@, c),
            all == arcs_before(g@, n as int),
            0 <= all,
            n * all * c < isize::MAX,
            used == (round - 1) * all,
            witnessed(g@, st as int, dist@, used),
            forall|x: int| 0 <= x < n ==> #[trigger] dist@[x] != isize::MIN,
            short(g@, st as int, dist@, round - 1),
        decreases n - round,
    {
        proof {
            assert((used + all) * c <= n * all * c && 0 <= used && used + all == round * all
                && (all >= 1 ==> (round - 1) * c <= n * all * c)) by (nonlinear_arith)
                requires
                    used == (round - 1) * all,
                    1 <= round < n,
                    0 <= all,
                    0 <= c,
            ;
        }
        relax_all(g, &mut dist, Ghost(st as int), Ghost(c), Ghost(used), Ghost(round - 1));
        proof {
            used = used + all;
        }
        round += 1;
    }
    let ghost base = dist@;
    proof {
        assert((used + 1) * c <= n * all * c || all == 0) by (nonlinear_arith)
            requires
                used == (n - 1) * all,
                1 <= n,
                0 <= all,
                0 <= c,
        ;
        assert((n - 1) * c <= n * all * c || all == 0) by (nonlinear_arith)
            requires
                1 <= n,
                0 <= all,
                0 <= c,
        ;
        if all == 0 {
            assert((used + 1) * c == 0) by (nonlinear_arith)
                requires
                    c == 0,
            ;
        }
    }
    let mut turn: usize = 0;
    while turn < n
        invariant
            n == g.len(),
            base.len() == n,
            st < n,
            0 <= turn <= n,
            is_signed_graph(g@),
            costs_inside(g@, c),
            forall|x: int| 0 <= x < n ==> #[trigger] base[x] != isize::MIN,
            witnessed(g@, st as int, base, used),
            short(g@, st as int, base, n - 1),
            (used + 1) * c < isize::MAX,
            marked_from(base, dist@),
            marks_sound(g@, st as int, dist@),
            settled(g@, dist@) || marks(dist@).len() >= turn,
        decreases n - turn,
    {
        mark_all(g, &mut dist, Ghost(st as int), Ghost(c), Ghost(base), Ghost(used));
        turn += 1;
    }
    proof {
        let s = st as int;
        if !settled(g@, dist@) {
            lemma_all_marked(g@, dist@);
        }
        assert(is_route(g@, s, Seq::<(int, int)>::empty(), s));
        assert(base[s] <= route_cost(g@, Seq::<(int, int)>::empty()));
        assert forall|x: int| 0 <= x < n implies (#[trigger] dist@[x] == isize::MAX <==> !reachable(
            g@,
            s,
            x,
        )) by {
            if reachable(g@, s, x) {
                let route = choose|route: Seq<(int, int)>| is_route(g@, s, route, x);
                lemma_short_route(g@, s, route, x);
                let brief = choose|brief: Seq<(int, int)>| is_route(g@, s, brief, x) && brief.len() < n;
                lemma_cost_bound(g@, brief, c);
                if brief.len() > 0 {
                    assert(is_arc(g@, brief[0]));
                    lemma_arcs_some(g@, brief[0]);
                    lemma_room(brief.len() as int, n - 1, c, route_cost(g@, brief));
                }
                assert(base[x] <= route_cost(g@, brief));
                assert(base[x] != isize::MAX);
            }
            if base[x] != isize::MAX {
                assert(has_route(g@, s, x, base[x] as int, used));
            }
        }
        assert forall|x: int|
            0 <= x < n && #[trigger] dist@[x] != isize::MAX && dist@[x] != isize::MIN implies has_route(
            g@,
            s,
            x,
            dist@[x] as int,
            used,
        ) by {
            assert(dist@[x] == base[x]);
        }
        lemma_signed_costs(g@, s, dist@, used);
    }
    dist
}

} // verus!
