pub mod bellman;
pub mod forest;
pub mod least_forest;
pub mod potential;
pub mod scc;
pub mod shortest;
pub mod spanning;
pub mod tree_tour;
pub mod unionfind;

pub use crate::graph::bellman::bellman_ford;
pub use crate::graph::shortest::dijkstra;
pub use crate::graph::spanning::kruskal;

use crate::graph::bellman::is_signed_graph;
use crate::graph::forest::lemma_bounded_set;
use crate::graph::tree_tour::{
    is_rooted_tree, lemma_pushed_done, lemma_pushed_none, lemma_pushed_pair, lemma_pushed_skip,
    lemma_tree_end, lemma_tree_enter, lemma_tree_leave, lemma_tree_start, nested_in_tree,
    pushed_apart, tree_tour,
};
use std::collections::VecDeque;
use vstd::prelude::*;

verus! {

/// `g` is a graph in adjacency lists: the neighbours of each vertex are
/// vertices.
pub open spec fn is_graph(g: Seq<Vec<usize>>) -> bool {
    forall|v: int, k: int| 0 <= v < g.len() && 0 <= k < g[v]@.len() ==> (#[trigger] g[v]@[k]) < g.len()
}

/// The last place at which `pos` stands in `h`, and -1 where it does not
/// stand in `h`.
pub open spec fn last_occurrence(h: Seq<usize>, pos: usize) -> int
    decreases h.len(),
{
    if h.len() == 0 {
        -1
    } else if h.last() == pos {
        h.len() - 1
    } else {
        last_occurrence(h.drop_last(), pos)
    }
}

/// The last occurrence is a place of `h`, or -1.
pub proof fn lemma_last_occurrence(h: Seq<usize>, pos: usize)
    ensures
        -1 <= last_occurrence(h, pos) < h.len(),
        last_occurrence(h, pos) >= 0 ==> h[last_occurrence(h, pos)] == pos,
        forall|i: int| last_occurrence(h, pos) < i < h.len() ==> h[i] != pos,
    decreases h.len(),
{
    if h.len() > 0 && h.last() != pos {
        lemma_last_occurrence(h.drop_last(), pos);
        assert forall|i: int| last_occurrence(h, pos) < i < h.len() implies h[i] != pos by {
            if i < h.len() - 1 {
                assert(h.drop_last()[i] == h[i]);
            }
        }
    }
}

/// The cycle that ends a walk: `history` without its last entry is cut at
/// the last place where `pos` stands; the part from there on is returned,
/// in order, and the part before it stays. Where `pos` does not stand
/// there, everything is returned.
pub fn cycle_reconstruct(pos: usize, history: &mut Vec<usize>) -> (cycle: Vec<usize>)
    ensures
        ({
            let walk = if old(history)@.len() > 0 {
                old(history)@.drop_last()
            } else {
                old(history)@
            };
            let cut = if last_occurrence(walk, pos) >= 0 {
                last_occurrence(walk, pos)
            } else {
                0
            };
            &&& cycle@ == walk.subrange(cut, walk.len() as int)
            &&& final(history)@ == walk.subrange(0, cut)
        }),
{
    let mut cycle: Vec<usize> = Vec::new();
    history.pop();
    let ghost walk = history@;
    proof {
        lemma_last_occurrence(walk, pos);
    }
    loop
        invariant_except_break
            forall|i: int| history@.len() <= i < walk.len() ==> walk[i] != pos,
        invariant
            history@ == walk.subrange(0, history@.len() as int),
            history@.len() + cycle@.len() == walk.len(),
            forall|j: int| 0 <= j < cycle@.len() ==> cycle@[j] == walk[walk.len() - 1 - j],
        ensures
            history@ == walk.subrange(0, history@.len() as int),
            history@.len() + cycle@.len() == walk.len(),
            forall|j: int| 0 <= j < cycle@.len() ==> cycle@[j] == walk[walk.len() - 1 - j],
            history@.len() == (if last_occurrence(walk, pos) >= 0 {
                last_occurrence(walk, pos)
            } else {
                0
            }),
        decreases history@.len(),
    {
        proof {
            lemma_last_occurrence(walk, pos);
        }
        match history.pop() {
            Some(v) => {
                proof {
                    assert(history@ =~= walk.subrange(0, history@.len() as int));
                }
                cycle.push(v);
                if v == pos {
                    break ;
                }
            },
            None => {
                break ;
            },
        }
    }
    let mut ordered: Vec<usize> = Vec::new();
    let mut i: usize = cycle.len();
    while i > 0
        invariant
            i <= cycle@.len(),
            ordered@.len() == cycle@.len() - i,
            forall|k: int| 0 <= k < ordered@.len() ==> ordered@[k] == cycle@[cycle@.len() - 1 - k],
        decreases i,
    {
        i -= 1;
        ordered.push(cycle[i]);
    }
    proof {
        assert(ordered@ =~= walk.subrange(history@.len() as int, walk.len() as int));
    }
    ordered
}

/// The vertices with a distance in `dist`.
pub open spec fn reached(dist: Seq<isize>) -> Set<int> {
    Set::new(|x: int| 0 <= x < dist.len() && dist[x] >= 0)
}

/// `dist` gives distances from `st` that fit the edges of `g`: the start
/// has the distance 0; every edge from a reached vertex leads to a reached
/// vertex that is at most one step farther; and every other reached vertex
/// has an edge from a reached vertex that is one step nearer.
pub open spec fn is_distances(g: Seq<Vec<usize>>, st: int, dist: Seq<isize>) -> bool {
    &&& dist.len() == g.len()
    &&& dist[st] == 0
    &&& forall|x: int| 0 <= x < dist.len() ==> #[trigger] dist[x] >= -1
    &&& forall|u: int, k: int|
        0 <= u < g.len() && 0 <= k < g[u]@.len() && dist[u] >= 0 ==> 0 <= dist[(
        #[trigger] g[u]@[k]) as int] <= dist[u] + 1
    &&& forall|x: int|
        0 <= x < g.len() && x != st && #[trigger] dist[x] >= 0 ==> exists|u: int, k: int|
            0 <= u < g.len() && 0 <= k < g[u]@.len() && #[trigger] g[u]@[k] == x && dist[u] >= 0
                && dist[x] == dist[u] + 1
}

/// The state of a breadth-first search: the vertices of `queue` are reached
/// and wait in the order of their distances, which differ by at most one;
/// no reached vertex is farther than one step behind the first in the
/// queue; every reached vertex has a distance below the number of reached
/// vertices; and `from` names, for every reached vertex but the start, an
/// edge from a reached vertex one step nearer.
pub open spec fn search_state(
    g: Seq<Vec<usize>>,
    st: int,
    dist: Seq<isize>,
    queue: Seq<usize>,
    from: Seq<(int, int)>,
    level: int,
) -> bool {
    &&& dist.len() == g.len()
    &&& from.len() == g.len()
    &&& 0 <= st < g.len()
    &&& dist[st] == 0
    &&& forall|x: int| 0 <= x < dist.len() ==> -1 <= #[trigger] dist[x] < reached(dist).len()
    &&& forall|x: int| 0 <= x < dist.len() ==> #[trigger] dist[x] <= level + 1
    &&& forall|t: int|
        0 <= t < queue.len() ==> (#[trigger] queue[t]) < g.len() && level <= dist[queue[t] as int]
    &&& forall|s: int, t: int|
        0 <= s < t < queue.len() ==> dist[(#[trigger] queue[s]) as int] <= dist[(
        #[trigger] queue[t]) as int]
    &&& forall|x: int|
        0 <= x < g.len() && x != st && #[trigger] dist[x] >= 0 ==> {
            &&& 0 <= from[x].0 < g.len()
            &&& 0 <= from[x].1 < g[from[x].0]@.len()
            &&& g[from[x].0]@[from[x].1] == x
            &&& dist[from[x].0] >= 0
            &&& dist[x] == dist[from[x].0] + 1
        }
}

/// Every edge from the vertex `u` leads to a reached vertex that is at most
/// one step farther, as far as the edges before `upto` go.
pub open spec fn edges_settled(g: Seq<Vec<usize>>, dist: Seq<isize>, u: int, upto: int) -> bool {
    forall|k: int|
        0 <= k < upto && k < g[u]@.len() ==> 0 <= dist[(#[trigger] g[u]@[k]) as int] <= dist[u] + 1
}

/// Reaching one more vertex makes the set of reached vertices larger by
/// one.
pub proof fn lemma_reach(dist: Seq<isize>, x: int, d: isize)
    requires
        0 <= x < dist.len(),
        dist[x] < 0,
        d >= 0,
    ensures
        reached(dist.update(x, d)) == reached(dist).insert(x),
        reached(dist).finite(),
        reached(dist.update(x, d)).finite(),
        reached(dist.update(x, d)).len() == reached(dist).len() + 1,
        reached(dist.update(x, d)).len() <= dist.len(),
{
    lemma_bounded_set(reached(dist), dist.len() as int);
    lemma_bounded_set(reached(dist.update(x, d)), dist.len() as int);
    assert(reached(dist.update(x, d)) =~= reached(dist).insert(x));
}

/// The distances from `st` in steps along the edges of `g`, by a
/// breadth-first search; -1 for the vertices that cannot be reached.
pub fn bfs(st: usize, g: &[Vec<usize>]) -> (dist: Vec<isize>)
    requires
        is_graph(g@),
        st < g@.len() <= isize::MAX,
    ensures
        is_distances(g@, st as int, dist@),
{
    let n = g.len();
    let mut dist: Vec<isize> = vec![-1; n];
    let mut q: VecDeque<usize> = VecDeque::new();
    let ghost mut from: Seq<(int, int)> = Seq::new(n as nat, |x: int| (0int, 0int));
    let ghost mut level: int = 0;
    q.push_back(st);
    proof {
        lemma_reach(dist@, st as int, 0);
    }
    dist[st] = 0;
    proof {
        assert(reached(dist@).contains(st as int));
        assert(q@[0] == st);
        assert(q@.contains(st));
    }
    loop
        invariant
            n == g@.len() <= isize::MAX,
            is_graph(g@),
            search_state(g@, st as int, dist@, q@, from, level),
            0 <= level,
            reached(dist@).finite(),
            reached(dist@).len() <= n,
            forall|u: int|
                0 <= u < n && dist@[u] >= 0 && !q@.contains(u as usize) ==> #[trigger] edges_settled(
                    g@,
                    dist@,
                    u,
                    g@[u]@.len() as int,
                ),
        ensures
            q@.len() == 0,
            search_state(g@, st as int, dist@, q@, from, level),
            forall|u: int|
                0 <= u < n && dist@[u] >= 0 ==> #[trigger] edges_settled(
                    g@,
                    dist@,
                    u,
                    g@[u]@.len() as int,
                ),
        decreases n - reached(dist@).len(), q@.len(),
    {
        let ghost waiting = q@;
        let popped = q.pop_front();
        if popped.is_none() {
            proof {
                assert forall|u: int| 0 <= u < n && dist@[u] >= 0 implies #[trigger] edges_settled(
                    g@,
                    dist@,
                    u,
                    g@[u]@.len() as int,
                ) by {
                    assert(!q@.contains(u as usize));
                }
            }
            break ;
        }
        let v = popped.unwrap();
        proof {
            assert(waiting[0] == v);
            level = dist@[v as int] as int;
            assert(q@ =~= waiting.subrange(1, waiting.len() as int));
            assert forall|t: int| 0 <= t < q@.len() implies (#[trigger] q@[t]) < n && level
                <= dist@[q@[t] as int] by {
                assert(q@[t] == waiting[t + 1]);
            }
            assert forall|s: int, t: int| 0 <= s < t < q@.len() implies dist@[(
            #[trigger] q@[s]) as int] <= dist@[(#[trigger] q@[t]) as int] by {
                assert(q@[s] == waiting[s + 1]);
                assert(q@[t] == waiting[t + 1]);
            }
        }
        let ghost rest = q@;
        let ghost count = reached(dist@).len();
        proof {
            assert forall|u: int|
                0 <= u < n && dist@[u] >= 0 && u != v && !q@.contains(
                    u as usize,
                ) implies #[trigger] edges_settled(g@, dist@, u, g@[u]@.len() as int) by {
                if waiting.contains(u as usize) {
                    let t = choose|t: int| 0 <= t < waiting.len() && waiting[t] == u as usize;
                    assert(q@[t - 1] == u as usize);
                }
            }
        }
        let mut k: usize = 0;
        while k < g[v].len()
            invariant
                n == g@.len() <= isize::MAX,
                is_graph(g@),
                v < n,
                k <= g@[v as int]@.len(),
                dist@[v as int] == level,
                0 <= level,
                search_state(g@, st as int, dist@, q@, from, level),
                reached(dist@).finite(),
                reached(dist@).len() <= n,
                edges_settled(g@, dist@, v as int, k as int),
                rest.len() <= q@.len(),
                q@.len() - rest.len() == reached(dist@).len() - count,
                forall|t: int| 0 <= t < rest.len() ==> q@[t] == rest[t],
                forall|t: int| rest.len() <= t < q@.len() ==> q@[t] != v,
                forall|u: int|
                    0 <= u < n && dist@[u] >= 0 && u != v && !q@.contains(u as usize)
                        ==> #[trigger] edges_settled(g@, dist@, u, g@[u]@.len() as int),
            decreases g@[v as int]@.len() - k,
        {
            let nv = g[v][k];
            proof {
                assert(g@[v as int]@[k as int] < n);
            }
            if dist[nv] != -1 {
                k += 1;
                continue ;
            }
            let ghost before = dist@;
            let ghost lined = q@;
            proof {
                lemma_reach(before, nv as int, (dist@[v as int] + 1) as isize);
            }
            let d = dist[v] + 1;
            dist[nv] = d;
            q.push_back(nv);
            proof {
                from = from.update(nv as int, (v as int, k as int));
                assert(dist@ =~= before.update(nv as int, d));
                assert forall|u: int|
                    0 <= u < n && dist@[u] >= 0 && u != v && !q@.contains(
                        u as usize,
                    ) implies #[trigger] edges_settled(g@, dist@, u, g@[u]@.len() as int) by {
                    assert(u != nv) by {
                        assert(q@[lined.len() as int] == nv);
                    }
                    assert(!lined.contains(u as usize)) by {
                        if lined.contains(u as usize) {
                            let t = choose|t: int| 0 <= t < lined.len() && lined[t] == u as usize;
                            assert(q@[t] == u as usize);
                        }
                    }
                    assert(edges_settled(g@, before, u, g@[u]@.len() as int));
                    assert forall|j: int| 0 <= j < g@[u]@.len() implies 0 <= dist@[(
                    #[trigger] g@[u]@[j]) as int] <= dist@[u] + 1 by {
                        assert(0 <= before[g@[u]@[j] as int] <= before[u] + 1);
                    }
                }
                assert forall|j: int| 0 <= j < k + 1 && j < g@[v as int]@.len() implies 0 <= dist@[(
                #[trigger] g@[v as int]@[j]) as int] <= dist@[v as int] + 1 by {
                    if j < k {
                        assert(0 <= before[g@[v as int]@[j] as int] <= before[v as int] + 1);
                    }
                }
                assert forall|s: int, t: int| 0 <= s < t < q@.len() implies dist@[(
                #[trigger] q@[s]) as int] <= dist@[(#[trigger] q@[t]) as int] by {
                    assert(q@[s] == lined[s]);
                    assert(level <= before[lined[s] as int] <= level + 1);
                    if t < lined.len() {
                        assert(q@[t] == lined[t]);
                        assert(level <= before[lined[t] as int]);
                        assert(before[lined[s] as int] <= before[lined[t] as int]);
                    }
                }
                assert forall|t: int| 0 <= t < q@.len() implies (#[trigger] q@[t]) < n && level
                    <= dist@[q@[t] as int] by {
                    if t < lined.len() {
                        assert(q@[t] == lined[t]);
                    }
                }
                assert forall|x: int|
                    0 <= x < n && x != st && #[trigger] dist@[x] >= 0 implies {
                    &&& 0 <= from[x].0 < n
                    &&& 0 <= from[x].1 < g@[from[x].0]@.len()
                    &&& g@[from[x].0]@[from[x].1] == x
                    &&& dist@[from[x].0] >= 0
                    &&& dist@[x] == dist@[from[x].0] + 1
                } by {
                    if x != nv {
                        assert(before[x] >= 0);
                        assert(before[from[x].0] >= 0);
                    } else {
                        assert(before[v as int] >= 0);
                    }
                }
            }
            k += 1;
        }
        proof {
            assert forall|u: int|
                0 <= u < n && dist@[u] >= 0 && !q@.contains(
                    u as usize,
                ) implies #[trigger] edges_settled(g@, dist@, u, g@[u]@.len() as int) by {}
        }
    }
    proof {
        assert forall|u: int, k: int|
            0 <= u < n && 0 <= k < g@[u]@.len() && dist@[u] >= 0 implies 0 <= dist@[(
        #[trigger] g@[u]@[k]) as int] <= dist@[u] + 1 by {
            assert(edges_settled(g@, dist@, u, g@[u]@.len() as int));
        }
        assert forall|x: int| 0 <= x < n && x != st && #[trigger] dist@[x] >= 0 implies exists|
            u: int,
            k: int,
        |
            0 <= u < n && 0 <= k < g@[u]@.len() && #[trigger] g@[u]@[k] == x && dist@[u] >= 0
                && dist@[x] == dist@[u] + 1 by {
            let u = from[x].0;
            let k = from[x].1;
            assert(g@[u]@[k] == x);
        }
    }
    dist
}

/// `colour` gives each vertex one of two colours so that no edge joins two
/// vertices of one colour.
pub open spec fn is_colouring(g: Seq<Vec<usize>>, colour: Seq<int>) -> bool {
    &&& colour.len() == g.len()
    &&& forall|x: int| 0 <= x < g.len() ==> #[trigger] colour[x] == 0 || colour[x] == 1
    &&& forall|u: int, k: int|
        0 <= u < g.len() && 0 <= k < g[u]@.len() ==> colour[u] != colour[(
        #[trigger] g[u]@[k]) as int]
}

/// Every edge of `g` has an edge back.
pub open spec fn is_undirected(g: Seq<Vec<usize>>) -> bool {
    forall|u: int, k: int|
        0 <= u < g.len() && 0 <= k < g[u]@.len() ==> exists|j: int|
            0 <= j < g[(#[trigger] g[u]@[k]) as int]@.len() && #[trigger] g[g[u]@[k] as int]@[j] == u
}

/// The vertices that have a colour in `paint`.
pub open spec fn coloured(paint: Seq<i32>) -> Set<int> {
    Set::new(|x: int| 0 <= x < paint.len() && paint[x] != -1)
}

/// The colours of `paint`, as numbers.
pub open spec fn colours_of(paint: Seq<i32>) -> Seq<int> {
    Seq::new(paint.len(), |x: int| paint[x] as int)
}

/// Every edge from `u` leads to a vertex of the other colour, as far as the
/// edges before `upto` go.
pub open spec fn edges_split(g: Seq<Vec<usize>>, paint: Seq<i32>, u: int, upto: int) -> bool {
    forall|k: int|
        0 <= k < upto && k < g[u]@.len() ==> paint[(#[trigger] g[u]@[k]) as int] != -1 && paint[g[u]@[k] as int]
            != paint[u]
}

/// In the colouring `colour` the vertex `x` differs from the vertex `root`
/// exactly where `paint` gives it the colour 1.
pub open spec fn follows(colour: Seq<int>, paint: Seq<i32>, root: Seq<int>, x: int) -> bool {
    (colour[x] == colour[root[x]]) == (paint[x] == 0)
}

/// The colours that a search has given are forced: in every colouring of
/// `g`, each coloured vertex differs from the vertex that its search
/// started from exactly where `paint` gives it the colour 1.
pub open spec fn forced(g: Seq<Vec<usize>>, paint: Seq<i32>, root: Seq<int>) -> bool {
    forall|colour: Seq<int>, x: int|
        #![trigger follows(colour, paint, root, x)]
        is_colouring(g, colour) && 0 <= x < g.len() && paint[x] != -1 ==> follows(
            colour,
            paint,
            root,
            x,
        )
}

/// The state of the search for a colouring: the colours are 0 and 1, the
/// search of each coloured vertex started from a vertex, and the colours
/// are forced.
pub open spec fn colour_state(g: Seq<Vec<usize>>, paint: Seq<i32>, root: Seq<int>) -> bool {
    &&& paint.len() == g.len()
    &&& root.len() == g.len()
    &&& forall|x: int| 0 <= x < g.len() ==> -1 <= #[trigger] paint[x] <= 1
    &&& forall|x: int| 0 <= x < g.len() && paint[x] != -1 ==> 0 <= #[trigger] root[x] < g.len()
    &&& forced(g, paint, root)
}

/// Colouring one more vertex makes the set of coloured vertices larger by
/// one.
pub proof fn lemma_colour(paint: Seq<i32>, x: int, c: i32)
    requires
        0 <= x < paint.len(),
        paint[x] == -1,
        c != -1,
    ensures
        coloured(paint).finite(),
        coloured(paint.update(x, c)).finite(),
        coloured(paint.update(x, c)).len() == coloured(paint).len() + 1,
        coloured(paint.update(x, c)).len() <= paint.len(),
{
    lemma_bounded_set(coloured(paint), paint.len() as int);
    lemma_bounded_set(coloured(paint.update(x, c)), paint.len() as int);
    assert(coloured(paint.update(x, c)) =~= coloured(paint).insert(x));
}

/// Giving the uncoloured vertex `x` a colour keeps the colours forced,
/// where `x` starts a search with the colour 0, or is reached over an edge
/// from the coloured vertex `v` and gets the other colour.
pub proof fn lemma_forced_step(
    g: Seq<Vec<usize>>,
    paint: Seq<i32>,
    root: Seq<int>,
    x: int,
    v: int,
    k: int,
)
    requires
        colour_state(g, paint, root),
        0 <= x < g.len(),
        paint[x] == -1,
        v == x || (0 <= v < g.len() && paint[v] != -1 && 0 <= k < g[v]@.len() && g[v]@[k] == x),
    ensures
        v == x ==> colour_state(g, paint.update(x, 0), root.update(x, x)),
        v != x ==> colour_state(g, paint.update(x, (1 - paint[v]) as i32), root.update(x, root[v])),
{
    if v == x {
        let iro2 = paint.update(x, 0);
        let root2 = root.update(x, x);
        assert forall|colour: Seq<int>, y: int|
            #![trigger follows(colour, iro2, root2, y)]
            is_colouring(g, colour) && 0 <= y < g.len() && iro2[y] != -1 implies follows(
            colour,
            iro2,
            root2,
            y,
        ) by {
            if y != x {
                assert(follows(colour, paint, root, y));
            }
        }
    } else {
        let iro2 = paint.update(x, (1 - paint[v]) as i32);
        let root2 = root.update(x, root[v]);
        assert forall|colour: Seq<int>, y: int|
            #![trigger follows(colour, iro2, root2, y)]
            is_colouring(g, colour) && 0 <= y < g.len() && iro2[y] != -1 implies follows(
            colour,
            iro2,
            root2,
            y,
        ) by {
            if y != x {
                assert(follows(colour, paint, root, y));
            } else {
                assert(follows(colour, paint, root, v));
                assert(colour[v] != colour[g[v]@[k] as int]);
                assert(colour[root[v]] == 0 || colour[root[v]] == 1);
                assert(colour[v] == 0 || colour[v] == 1);
                assert(colour[x] == 0 || colour[x] == 1);
            }
        }
    }
}

/// Where an edge joins two vertices of one colour whose searches started
/// from one vertex, `g` has no colouring.
pub proof fn lemma_clash(g: Seq<Vec<usize>>, paint: Seq<i32>, root: Seq<int>, v: int, k: int)
    requires
        colour_state(g, paint, root),
        0 <= v < g.len(),
        0 <= k < g[v]@.len(),
        g[v]@[k] < g.len(),
        paint[v] != -1,
        paint[v] == paint[g[v]@[k] as int],
        root[v] == root[g[v]@[k] as int],
    ensures
        forall|colour: Seq<int>| !is_colouring(g, colour),
{
    assert forall|colour: Seq<int>| !is_colouring(g, colour) by {
        if is_colouring(g, colour) {
            let x = g[v]@[k] as int;
            assert(follows(colour, paint, root, v));
            assert(follows(colour, paint, root, x));
            assert(colour[v] != colour[g[v]@[k] as int]);
            assert(colour[root[v]] == 0 || colour[root[v]] == 1);
            assert(colour[v] == 0 || colour[v] == 1);
            assert(colour[x] == 0 || colour[x] == 1);
        }
    }
}

/// Whether the vertices of `g` can be given two colours so that no edge
/// joins two vertices of one colour. The answer `true` is right for every
/// graph; the answer `false` is right where every edge has an edge back.
pub fn isbiparrite(g: &[Vec<usize>]) -> (ok: bool)
    requires
        is_graph(g@),
    ensures
        ok ==> exists|colour: Seq<int>| is_colouring(g@, colour),
        is_undirected(g@) && !ok ==> forall|colour: Seq<int>| !is_colouring(g@, colour),
{
    let n = g.len();
    let mut paint: Vec<i32> = vec![-1; n];
    let ok = true;
    let ghost mut root: Seq<int> = Seq::new(n as nat, |x: int| 0int);
    let mut i: usize = 0;
    proof {
        lemma_bounded_set(coloured(paint@), n as int);
    }
    while i < n
        invariant
            ok,
            n == g@.len(),
            i <= n,
            is_graph(g@),
            colour_state(g@, paint@, root),
            coloured(paint@).finite(),
            coloured(paint@).len() <= n,
            forall|x: int| 0 <= x < i ==> #[trigger] paint@[x] != -1,
            forall|x: int| 0 <= x < n && paint@[x] != -1 ==> #[trigger] root[x] < i,
            forall|u: int|
                0 <= u < n && paint@[u] != -1 ==> #[trigger] edges_split(
                    g@,
                    paint@,
                    u,
                    g@[u]@.len() as int,
                ),
        ensures
            i == n,
        decreases n - i,
    {
        if !ok {
            break ;
        }
        if paint[i] != -1 {
            i += 1;
            continue ;
        }
        let ghost snapshot = paint@;
        let mut q: VecDeque<(usize, i32)> = VecDeque::new();
        q.push_back((i, 0));
        proof {
            lemma_forced_step(g@, paint@, root, i as int, i as int, 0);
            lemma_colour(paint@, i as int, 0);
            root = root.update(i as int, i as int);
        }
        paint[i] = 0;
        proof {
            assert(paint@ =~= snapshot.update(i as int, 0));
            assert(q@[0] == (i, 0i32));
            assert(q@.contains((i, 0i32)));
            assert forall|u: int|
                0 <= u < n && paint@[u] != -1 && !q@.contains(
                    (u as usize, paint@[u]),
                ) implies #[trigger] edges_split(g@, paint@, u, g@[u]@.len() as int) by {
                assert(edges_split(g@, snapshot, u, g@[u]@.len() as int));
            }
        }
        loop
            invariant
                n == g@.len(),
                i < n,
                is_graph(g@),
                snapshot.len() == n,
                colour_state(g@, paint@, root),
                coloured(paint@).finite(),
                coloured(paint@).len() <= n,
                forall|t: int|
                    0 <= t < q@.len() ==> (#[trigger] q@[t]).0 < n && paint@[q@[t].0 as int] == q@[t].1
                        && q@[t].1 != -1,
                forall|x: int| 0 <= x <= i ==> #[trigger] paint@[x] != -1,
                forall|x: int| 0 <= x < n && paint@[x] != -1 ==> #[trigger] root[x] <= i,
                forall|x: int|
                    0 <= x < n && #[trigger] snapshot[x] != -1 ==> paint@[x] == snapshot[x] && root[x]
                        < i,
                forall|x: int|
                    0 <= x < n && snapshot[x] == -1 && paint@[x] != -1 ==> #[trigger] root[x] == i,
                forall|u: int|
                    0 <= u < n && snapshot[u] != -1 ==> #[trigger] edges_split(
                        g@,
                        snapshot,
                        u,
                        g@[u]@.len() as int,
                    ),
                forall|u: int|
                    0 <= u < n && paint@[u] != -1 && !q@.contains((u as usize, paint@[u]))
                        ==> #[trigger] edges_split(g@, paint@, u, g@[u]@.len() as int),
                ok,
            ensures
                q@.len() == 0,
                colour_state(g@, paint@, root),
                coloured(paint@).finite(),
                coloured(paint@).len() <= n,
                forall|x: int| 0 <= x <= i ==> #[trigger] paint@[x] != -1,
                forall|x: int| 0 <= x < n && paint@[x] != -1 ==> #[trigger] root[x] <= i,
                forall|u: int|
                    0 <= u < n && paint@[u] != -1 ==> #[trigger] edges_split(
                        g@,
                        paint@,
                        u,
                        g@[u]@.len() as int,
                    ),
            decreases n - coloured(paint@).len(), q@.len(),
        {
            let ghost waiting = q@;
            let popped = q.pop_front();
            if popped.is_none() {
                proof {
                    assert forall|u: int| 0 <= u < n && paint@[u] != -1 implies #[trigger] edges_split(
                        g@,
                        paint@,
                        u,
                        g@[u]@.len() as int,
                    ) by {
                        assert(!q@.contains((u as usize, paint@[u])));
                    }
                }
                break ;
            }
            let (v, c) = popped.unwrap();
            let ghost rest = q@;
            let ghost count = coloured(paint@).len();
            proof {
                assert(waiting[0] == (v, c));
                assert(q@ =~= waiting.subrange(1, waiting.len() as int));
                assert forall|t: int| 0 <= t < q@.len() implies (#[trigger] q@[t]).0 < n
                    && paint@[q@[t].0 as int] == q@[t].1 && q@[t].1 != -1 by {
                    assert(q@[t] == waiting[t + 1]);
                }
                assert forall|u: int|
                    0 <= u < n && paint@[u] != -1 && u != v && !q@.contains(
                        (u as usize, paint@[u]),
                    ) implies #[trigger] edges_split(g@, paint@, u, g@[u]@.len() as int) by {
                    if waiting.contains((u as usize, paint@[u])) {
                        let t = choose|t: int|
                            0 <= t < waiting.len() && waiting[t] == (u as usize, paint@[u]);
                        assert(q@[t - 1] == (u as usize, paint@[u]));
                    }
                }
            }
            let mut k: usize = 0;
            while k < g[v].len()
                invariant
                    n == g@.len(),
                    i < n,
                    v < n,
                    is_graph(g@),
                    snapshot.len() == n,
                    k <= g@[v as int]@.len(),
                    paint@[v as int] == c,
                    c != -1,
                    colour_state(g@, paint@, root),
                    coloured(paint@).finite(),
                    coloured(paint@).len() <= n,
                    q@.len() - rest.len() == coloured(paint@).len() - count,
                    rest.len() <= q@.len(),
                    edges_split(g@, paint@, v as int, k as int),
                    forall|t: int|
                        0 <= t < q@.len() ==> (#[trigger] q@[t]).0 < n && paint@[q@[t].0 as int]
                            == q@[t].1 && q@[t].1 != -1,
                    forall|x: int| 0 <= x <= i ==> #[trigger] paint@[x] != -1,
                    forall|x: int| 0 <= x < n && paint@[x] != -1 ==> #[trigger] root[x] <= i,
                    forall|x: int|
                        0 <= x < n && #[trigger] snapshot[x] != -1 ==> paint@[x] == snapshot[x]
                            && root[x] < i,
                    forall|x: int|
                        0 <= x < n && snapshot[x] == -1 && paint@[x] != -1 ==> #[trigger] root[x]
                            == i,
                    forall|u: int|
                        0 <= u < n && snapshot[u] != -1 ==> #[trigger] edges_split(
                            g@,
                            snapshot,
                            u,
                            g@[u]@.len() as int,
                        ),
                    forall|u: int|
                        0 <= u < n && paint@[u] != -1 && u != v && !q@.contains((u as usize, paint@[u]))
                            ==> #[trigger] edges_split(g@, paint@, u, g@[u]@.len() as int),
                    ok,
                decreases g@[v as int]@.len() - k,
            {
                let nv = g[v][k];
                proof {
                    assert(g@[v as int]@[k as int] < n);
                }
                if paint[nv] == -1 {
                    let ghost before = paint@;
                    let ghost lined = q@;
                    let ghost root0 = root;
                    proof {
                        assert(snapshot[v as int] == -1) by {
                            if snapshot[v as int] != -1 {
                                assert(edges_split(g@, snapshot, v as int, g@[v as int]@.len() as int));
                                assert(snapshot[g@[v as int]@[k as int] as int] != -1);
                            }
                        }
                        assert(root0[v as int] == i);
                        assert(c == 0 || c == 1);
                        assert(c ^ 1 == 1 - c) by (bit_vector)
                            requires
                                c == 0 || c == 1,
                        ;
                        lemma_forced_step(g@, paint@, root, nv as int, v as int, k as int);
                        lemma_colour(paint@, nv as int, (1 - c) as i32);
                        root = root.update(nv as int, root[v as int]);
                    }
                    paint[nv] = c ^ 1;
                    q.push_back((nv, paint[nv]));
                    proof {
                        assert(paint@ =~= before.update(nv as int, (1 - c) as i32));
                        assert forall|x: int|
                            0 <= x < n && snapshot[x] == -1 && paint@[x] != -1 implies #[trigger] root[x]
                            == i by {
                            if x != nv {
                                assert(before[x] != -1);
                                assert(root[x] == root0[x]);
                            }
                        }
                        assert forall|t: int| 0 <= t < q@.len() implies (#[trigger] q@[t]).0 < n
                            && paint@[q@[t].0 as int] == q@[t].1 && q@[t].1 != -1 by {
                            if t < lined.len() {
                                assert(q@[t] == lined[t]);
                            }
                        }
                        assert forall|u: int|
                            0 <= u < n && paint@[u] != -1 && u != v && !q@.contains(
                                (u as usize, paint@[u]),
                            ) implies #[trigger] edges_split(g@, paint@, u, g@[u]@.len() as int) by {
                            assert(u != nv) by {
                                assert(q@[lined.len() as int] == (nv, paint@[nv as int]));
                            }
                            assert(!lined.contains((u as usize, before[u]))) by {
                                if lined.contains((u as usize, before[u])) {
                                    let t = choose|t: int|
                                        0 <= t < lined.len() && lined[t] == (u as usize, before[u]);
                                    assert(q@[t] == (u as usize, paint@[u]));
                                }
                            }
                            assert(edges_split(g@, before, u, g@[u]@.len() as int));
                            assert forall|j: int| 0 <= j < g@[u]@.len() implies paint@[(
                            #[trigger] g@[u]@[j]) as int] != -1 && paint@[g@[u]@[j] as int]
                                != paint@[u] by {
                                assert(before[g@[u]@[j] as int] != -1);
                            }
                        }
                        assert forall|j: int|
                            0 <= j < k + 1 && j < g@[v as int]@.len() implies paint@[(
                        #[trigger] g@[v as int]@[j]) as int] != -1 && paint@[g@[v as int]@[j] as int]
                            != paint@[v as int] by {
                            if j < k {
                                assert(before[g@[v as int]@[j] as int] != -1);
                            }
                        }
                    }
                } else {
                    if c == paint[nv] {
                        proof {
                            if is_undirected(g@) {
                                if snapshot[nv as int] != -1 {
                                    assert(edges_split(
                                        g@,
                                        snapshot,
                                        nv as int,
                                        g@[nv as int]@.len() as int,
                                    ));
                                    let j = choose|j: int|
                                        0 <= j < g@[g@[v as int]@[k as int] as int]@.len()
                                            && #[trigger] g@[g@[v as int]@[k as int] as int]@[j]
                                            == v;
                                    assert(snapshot[g@[nv as int]@[j] as int] != -1);
                                    assert(root[v as int] < i);
                                    if snapshot[v as int] == -1 {
                                        assert(root[v as int] == i);
                                    }
                                    assert(false);
                                }
                                assert(root[nv as int] == i);
                                assert(snapshot[v as int] == -1) by {
                                    if snapshot[v as int] != -1 {
                                        assert(edges_split(
                                            g@,
                                            snapshot,
                                            v as int,
                                            g@[v as int]@.len() as int,
                                        ));
                                        assert(snapshot[g@[v as int]@[k as int] as int] != -1);
                                    }
                                }
                                assert(root[v as int] == i);
                                lemma_clash(g@, paint@, root, v as int, k as int);
                            }
                        }
                        return false;
                    }
                }
                k += 1;
            }
            proof {
                assert forall|u: int|
                    0 <= u < n && paint@[u] != -1 && !q@.contains(
                        (u as usize, paint@[u]),
                    ) implies #[trigger] edges_split(g@, paint@, u, g@[u]@.len() as int) by {}
            }
        }
        i += 1;
    }
    proof {
        let colour = colours_of(paint@);
        assert forall|u: int, k: int| 0 <= u < n && 0 <= k < g@[u]@.len() implies colour[u]
            != colour[(#[trigger] g@[u]@[k]) as int] by {
            assert(paint@[u] != -1);
            assert(edges_split(g@, paint@, u, g@[u]@.len() as int));
        }
        assert forall|x: int| 0 <= x < n implies #[trigger] colour[x] == 0 || colour[x] == 1 by {
            assert(paint@[x] != -1);
        }
        assert(is_colouring(g@, colour));
    }
    ok
}

/// `walk` is a walk in `g`: a sequence of vertices, each with an edge to
/// the next.
pub open spec fn is_path(g: Seq<Vec<usize>>, walk: Seq<int>) -> bool {
    &&& walk.len() >= 1
    &&& forall|t: int| 0 <= t < walk.len() ==> 0 <= #[trigger] walk[t] < g.len()
    &&& forall|t: int| 0 <= t < walk.len() - 1 ==> has_edge(g, #[trigger] walk[t], walk[t + 1])
}

/// `g` has an edge from `u` to `x`.
pub open spec fn has_edge(g: Seq<Vec<usize>>, u: int, x: int) -> bool {
    exists|k: int| 0 <= k < g[u]@.len() && #[trigger] g[u]@[k] == x
}

/// Distances that fit the edges are the least: no walk from the start to a
/// vertex has fewer steps than the distance of the vertex.
pub proof fn lemma_distances_least(g: Seq<Vec<usize>>, st: int, dist: Seq<isize>, walk: Seq<int>)
    requires
        0 <= st < g.len(),
        is_distances(g, st, dist),
        is_path(g, walk),
        walk[0] == st,
    ensures
        0 <= dist[walk.last()] <= walk.len() - 1,
    decreases walk.len(),
{
    if walk.len() > 1 {
        let front = walk.drop_last();
        assert(is_path(g, front)) by {
            assert forall|t: int| 0 <= t < front.len() - 1 implies has_edge(
                g,
                #[trigger] front[t],
                front[t + 1],
            ) by {
                assert(has_edge(g, walk[t], walk[t + 1]));
            }
        }
        lemma_distances_least(g, st, dist, front);
        let u = walk[walk.len() - 2];
        assert(front.last() == u);
        assert(has_edge(g, walk[walk.len() - 2], walk[walk.len() - 1]));
        let k = choose|k: int| 0 <= k < g[u]@.len() && #[trigger] g[u]@[k] == walk[walk.len() - 1];
        assert(0 <= dist[g[u]@[k] as int] <= dist[u] + 1);
    }
}

/// Distances that fit the edges are reached: to every vertex with a
/// distance there is a walk from the start with as many steps.
pub proof fn lemma_distances_reached(g: Seq<Vec<usize>>, st: int, dist: Seq<isize>, x: int)
    requires
        0 <= st < g.len(),
        is_distances(g, st, dist),
        0 <= x < g.len(),
        dist[x] >= 0,
    ensures
        exists|walk: Seq<int>|
            #[trigger] is_path(g, walk) && walk[0] == st && walk.last() == x && walk.len()
                == dist[x] + 1,
    decreases dist[x],
{
    if x == st {
        let walk = seq![st];
        assert(is_path(g, walk));
    } else {
        let (u, k) = choose|u: int, k: int|
            0 <= u < g.len() && 0 <= k < g[u]@.len() && #[trigger] g[u]@[k] == x && dist[u] >= 0
                && dist[x] == dist[u] + 1;
        lemma_distances_reached(g, st, dist, u);
        let front = choose|walk: Seq<int>|
            #[trigger] is_path(g, walk) && walk[0] == st && walk.last() == u && walk.len()
                == dist[u] + 1;
        let walk = front.push(x);
        assert(is_path(g, walk)) by {
            assert forall|t: int| 0 <= t < walk.len() - 1 implies has_edge(
                g,
                #[trigger] walk[t],
                walk[t + 1],
            ) by {
                if t < front.len() - 1 {
                    assert(has_edge(g, front[t], front[t + 1]));
                } else {
                    assert(g[walk[t]]@[k] == walk[t + 1]);
                }
            }
        }
        assert(walk[0] == front[0]);
    }
}

/// The vertices that are not seen.
pub open spec fn unseen(seen: Seq<bool>) -> Set<int> {
    Set::new(|x: int| 0 <= x < seen.len() && !seen[x])
}

/// Seeing more vertices leaves fewer unseen.
pub proof fn lemma_unseen(before: Seq<bool>, after: Seq<bool>)
    requires
        before.len() == after.len(),
        forall|x: int| 0 <= x < before.len() && before[x] ==> after[x],
    ensures
        unseen(before).finite(),
        unseen(after).finite(),
        unseen(after).len() <= unseen(before).len(),
        forall|x: int|
            0 <= x < before.len() && !before[x] && after[x] ==> unseen(after).len() < unseen(
                before,
            ).len(),
{
    lemma_bounded_set(unseen(before), before.len() as int);
    lemma_bounded_set(unseen(after), after.len() as int);
    assert(unseen(after).subset_of(unseen(before)));
    vstd::set_lib::lemma_len_subset(unseen(after), unseen(before));
    assert forall|x: int| 0 <= x < before.len() && !before[x] && after[x] implies unseen(
        after,
    ).len() < unseen(before).len() by {
        assert(unseen(after).subset_of(unseen(before).remove(x)));
        vstd::set_lib::lemma_len_subset(unseen(after), unseen(before).remove(x));
    }
}

/// `walk` follows edges of `g` from the place `from` on.
pub open spec fn is_walk(g: Seq<Vec<usize>>, walk: Seq<usize>, from: int) -> bool {
    forall|t: int|
        from <= t < walk.len() - 1 ==> (#[trigger] walk[t]) < g.len() && exists|k: int|
            0 <= k < g[walk[t] as int]@.len() && #[trigger] g[walk[t] as int]@[k] == walk[t + 1]
}

/// Every vertex that is seen and not finished stands in `history`.
pub open spec fn open_in(seen: Seq<bool>, finished: Seq<bool>, history: Seq<usize>) -> bool {
    forall|x: int|
        0 <= x < seen.len() && #[trigger] seen[x] && !finished[x] ==> history.contains(x as usize)
}

/// `rank` falls along every edge that leaves a finished vertex for another
/// vertex, and every such edge leads to a finished vertex.
pub open spec fn finished_ranked(g: Seq<Vec<usize>>, finished: Seq<bool>, rank: Seq<nat>) -> bool {
    &&& rank.len() == g.len()
    &&& forall|x: int, k: int|
        0 <= x < g.len() && finished[x] && 0 <= k < g[x]@.len() && (#[trigger] g[x]@[k]) != x
            ==> finished[g[x]@[k] as int] && rank[g[x]@[k] as int] < rank[x]
}

/// No walk among the finished vertices comes back to where it was, but by
/// an edge from a vertex to itself: some rank falls along the other edges
/// that leave finished vertices.
pub open spec fn finished_acyclic(g: Seq<Vec<usize>>, finished: Seq<bool>) -> bool {
    exists|rank: Seq<nat>| finished_ranked(g, finished, rank)
}

/// The greatest entry of `rank`, and 0 where it has none.
pub open spec fn peak(rank: Seq<nat>) -> nat
    decreases rank.len(),
{
    if rank.len() == 0 {
        0
    } else if rank.last() > peak(rank.drop_last()) {
        rank.last()
    } else {
        peak(rank.drop_last())
    }
}

/// No entry of `rank` is above its peak.
pub proof fn lemma_peak(rank: Seq<nat>, x: int)
    requires
        0 <= x < rank.len(),
    ensures
        rank[x] <= peak(rank),
    decreases rank.len(),
{
    if x < rank.len() - 1 {
        lemma_peak(rank.drop_last(), x);
    }
}

/// A vertex whose edges to other vertices all lead to finished vertices
/// can be finished too.
pub proof fn lemma_finish(g: Seq<Vec<usize>>, finished: Seq<bool>, v: int)
    requires
        is_graph(g),
        finished.len() == g.len(),
        0 <= v < g.len(),
        finished_acyclic(g, finished),
        forall|k: int| 0 <= k < g[v]@.len() && (#[trigger] g[v]@[k]) != v ==> finished[g[v]@[k] as int],
    ensures
        finished_acyclic(g, finished.update(v, true)),
{
    let rank = choose|rank: Seq<nat>| finished_ranked(g, finished, rank);
    if finished[v] {
        assert(finished.update(v, true) =~= finished);
    } else {
        let after = finished.update(v, true);
        let higher = rank.update(v, peak(rank) + 1);
        assert forall|x: int, k: int|
            0 <= x < g.len() && after[x] && 0 <= k < g[x]@.len() && (#[trigger] g[x]@[k])
                != x implies after[g[x]@[k] as int] && higher[g[x]@[k] as int] < higher[x] by {
            let y = g[x]@[k] as int;
            assert(0 <= y < g.len());
            lemma_peak(rank, y);
        }
        assert(finished_ranked(g, after, higher));
    }
}

/// Among finished vertices without a cycle, a walk of at least one edge,
/// none of them from a vertex to itself, does not end where it starts.
pub proof fn lemma_finished_no_cycle(g: Seq<Vec<usize>>, finished: Seq<bool>, walk: Seq<usize>)
    requires
        is_graph(g),
        finished.len() == g.len(),
        finished_acyclic(g, finished),
        walk.len() >= 2,
        walk[0] < g.len(),
        finished[walk[0] as int],
        is_walk(g, walk, 0),
        forall|t: int| 0 <= t < walk.len() - 1 ==> #[trigger] walk[t] != walk[t + 1],
    ensures
        walk.last() != walk[0],
{
    let rank = choose|rank: Seq<nat>| finished_ranked(g, finished, rank);
    lemma_rank_falls(g, finished, rank, walk, walk.len() - 1);
}

/// The rank at a later place of a walk from a finished vertex is below the
/// rank at its start.
proof fn lemma_rank_falls(g: Seq<Vec<usize>>, finished: Seq<bool>, rank: Seq<nat>, walk: Seq<usize>, t: int)
    requires
        is_graph(g),
        finished.len() == g.len(),
        finished_ranked(g, finished, rank),
        1 <= t < walk.len(),
        walk[0] < g.len(),
        finished[walk[0] as int],
        is_walk(g, walk, 0),
        forall|u: int| 0 <= u < walk.len() - 1 ==> #[trigger] walk[u] != walk[u + 1],
    ensures
        walk[t] < g.len(),
        finished[walk[t] as int],
        rank[walk[t] as int] < rank[walk[0] as int],
    decreases t,
{
    if t > 1 {
        lemma_rank_falls(g, finished, rank, walk, t - 1);
    }
    let x = walk[t - 1];
    assert(x < g.len());
    let k = choose|k: int| 0 <= k < g[x as int]@.len() && #[trigger] g[x as int]@[k] == walk[t - 1 + 1];
    assert(g[x as int]@[k] != x);
}

/// A search from `v` for a cycle, depth first. The vertices that it meets
/// are marked as seen, and as finished when the search leaves them. Where
/// it meets a vertex that is seen and not finished, it returns that vertex,
/// and `history` is left with the walk from `v` to it behind what it held;
/// where the open vertices stood in `history` before, the returned vertex
/// stands on that walk a second time. Otherwise it returns `None`, and
/// `history` is as before; the finished vertices, `v` among them, then hold
/// no cycle but edges from a vertex to itself, where they held none before.
pub fn cycle_detection(
    g: &[Vec<usize>],
    v: usize,
    seen: &mut Vec<bool>,
    finished: &mut Vec<bool>,
    history: &mut Vec<usize>,
) -> (found: Option<usize>)
    requires
        is_graph(g@),
        v < g@.len(),
        old(seen)@.len() == g@.len(),
        old(finished)@.len() == g@.len(),
    ensures
        final(seen)@.len() == g@.len(),
        final(finished)@.len() == g@.len(),
        forall|x: int| 0 <= x < g@.len() && old(seen)@[x] ==> final(seen)@[x],
        forall|x: int| 0 <= x < g@.len() && old(finished)@[x] ==> final(finished)@[x],
        final(seen)@[v as int],
        found is None ==> final(history)@ == old(history)@ && final(finished)@[v as int] && (
        open_in(old(seen)@, old(finished)@, old(history)@) ==> open_in(
            final(seen)@,
            final(finished)@,
            final(history)@,
        )),
        found is None && finished_acyclic(g@, old(finished)@) ==> finished_acyclic(g@, final(finished)@),
        found is Some ==> {
            &&& final(history)@.len() >= old(history)@.len() + 2
            &&& final(history)@.subrange(0, old(history)@.len() as int) == old(history)@
            &&& final(history)@[old(history)@.len() as int] == v
            &&& final(history)@.last() == found->0
            &&& found->0 < g@.len()
            &&& is_walk(g@, final(history)@, old(history)@.len() as int)
            &&& open_in(old(seen)@, old(finished)@, old(history)@) ==> final(history)@.drop_last().contains(found->0)
        },
    decreases unseen(old(seen)@).len(),
        (if old(seen)@[v as int] {
            1int
        } else {
            0int
        }),
{
    let ghost seen0 = seen@;
    let ghost finished0 = finished@;
    let ghost history0 = history@;
    seen[v] = true;
    history.push(v);
    proof {
        lemma_unseen(seen0, seen@);
        assert(history@[history0.len() as int] == v);
        assert(history@.contains(v));
        if open_in(seen0, finished0, history0) {
            assert forall|x: int| 0 <= x < seen@.len() && #[trigger] seen@[x] && !finished@[x] implies history@.contains(
                x as usize,
            ) by {
                if x != v {
                    assert(seen0[x]);
                    let t = choose|t: int| 0 <= t < history0.len() && history0[t] == x as usize;
                    assert(history@[t] == x as usize);
                }
            }
        }
    }
    let ghost seen1 = seen@;
    let ghost history1 = history@;
    let mut k: usize = 0;
    while k < g[v].len()
        invariant
            is_graph(g@),
            v < g@.len(),
            k <= g@[v as int]@.len(),
            seen@.len() == g@.len(),
            finished@.len() == g@.len(),
            seen0 == old(seen)@,
            finished0 == old(finished)@,
            history0 == old(history)@,
            seen0.len() == g@.len(),
            finished0.len() == g@.len(),
            seen1 == seen0.update(v as int, true),
            history1 == history0.push(v),
            forall|x: int| 0 <= x < g@.len() && seen1[x] ==> seen@[x],
            forall|x: int| 0 <= x < g@.len() && finished0[x] ==> finished@[x],
            history@ == history1,
            open_in(seen0, finished0, history0) ==> open_in(seen@, finished@, history@),
            finished_acyclic(g@, finished0) ==> finished_acyclic(g@, finished@),
            forall|j: int|
                0 <= j < k && (#[trigger] g@[v as int]@[j]) != v ==> finished@[g@[v as int]@[j] as int],
        decreases g@[v as int]@.len() - k,
    {
        let nv = g[v][k];
        proof {
            assert(g@[v as int]@[k as int] < g@.len());
        }
        if v == nv {
            k += 1;
            continue ;
        }
        if finished[nv] {
            k += 1;
            continue ;
        }
        if seen[nv] && !finished[nv] {
            history.push(nv);
            proof {
                assert(history@.subrange(0, history0.len() as int) =~= history0);
                assert(history@.drop_last() =~= history1);
                if open_in(seen0, finished0, history0) {
                    assert(history1.contains(nv));
                }
                assert forall|t: int| history0.len() <= t < history@.len() - 1 implies (
                #[trigger] history@[t]) < g@.len() && exists|j: int|
                    0 <= j < g@[history@[t] as int]@.len() && #[trigger] g@[history@[t] as int]@[j]
                        == history@[t + 1] by {
                    assert(history@[t] == v);
                    assert(history@[t + 1] == nv);
                    assert(g@[v as int]@[k as int] == nv);
                }
                assert forall|x: int| 0 <= x < g@.len() && seen0[x] implies seen@[x] by {
                    assert(seen1[x]);
                }
                assert(seen1[v as int]);
            }
            return Some(nv);
        }
        proof {
            assert forall|x: int| 0 <= x < g@.len() && seen0[x] implies seen@[x] by {
                assert(seen1[x]);
            }
            assert(seen1[v as int]);
            lemma_unseen(seen0, seen@);
            lemma_unseen(seen1, seen@);
        }
        let ghost seen2 = seen@;
        let ghost finished2 = finished@;
        let pos = cycle_detection(g, nv, seen, finished, history);
        if pos.is_some() {
            proof {
                let full = history@;
                assert(full.subrange(0, history0.len() as int) =~= history0) by {
                    assert(full.subrange(0, history1.len() as int) == history1);
                    assert forall|t: int| 0 <= t < history0.len() implies full[t]
                        == history0[t] by {
                        assert(full.subrange(0, history1.len() as int)[t] == full[t]);
                    }
                }
                assert(full[history0.len() as int] == v) by {
                    assert(full.subrange(0, history1.len() as int)[history0.len() as int]
                        == full[history0.len() as int]);
                }
                assert forall|t: int| history0.len() <= t < full.len() - 1 implies (
                #[trigger] full[t]) < g@.len() && exists|j: int|
                    0 <= j < g@[full[t] as int]@.len() && #[trigger] g@[full[t] as int]@[j]
                        == full[t + 1] by {
                    if t == history0.len() {
                        assert(g@[v as int]@[k as int] == nv);
                        assert(full[t + 1] == nv);
                    }
                }
                assert forall|x: int| 0 <= x < g@.len() && seen0[x] implies seen@[x] by {
                    assert(seen1[x]);
                    assert(seen2[x]);
                }
                assert forall|x: int| 0 <= x < g@.len() && finished0[x] implies finished@[x] by {
                    assert(finished2[x]);
                }
                assert(seen2[v as int]);
            }
            return pos;
        }
        proof {
            assert forall|x: int| 0 <= x < g@.len() && seen1[x] implies seen@[x] by {
                assert(seen2[x]);
            }
            assert forall|x: int| 0 <= x < g@.len() && finished0[x] implies finished@[x] by {
                assert(finished2[x]);
            }
        }
        k += 1;
    }
    let ghost finished3 = finished@;
    finished[v] = true;
    history.pop();
    proof {
        if finished_acyclic(g@, finished0) {
            lemma_finish(g@, finished3, v as int);
        }
        assert(history@ =~= history0);
        assert forall|x: int| 0 <= x < g@.len() && seen0[x] implies seen@[x] by {
            assert(seen1[x]);
        }
        if open_in(seen0, finished0, history0) {
            assert forall|x: int| 0 <= x < seen@.len() && #[trigger] seen@[x] && !finished@[x] implies history@.contains(
                x as usize,
            ) by {
                let t = choose|t: int| 0 <= t < history1.len() && history1[t] == x as usize;
                assert(history0[t] == x as usize);
            }
        }
    }
    None
}

/// The number of edges that leave the seen vertices among the first `m`.
pub open spec fn seen_degree(g: Seq<Vec<usize>>, seen: Seq<bool>, m: int) -> int
    decreases m,
{
    if m <= 0 {
        0
    } else {
        seen_degree(g, seen, m - 1) + if seen[m - 1] {
            g[m - 1]@.len() as int
        } else {
            0
        }
    }
}

/// The number of edges of `g`.
pub open spec fn edge_count(g: Seq<Vec<usize>>) -> int {
    seen_degree(g, Seq::new(g.len(), |x: int| true), g.len() as int)
}

/// Seeing one more vertex adds its edges, and the seen vertices never have
/// more edges than there are.
pub proof fn lemma_seen_degree(g: Seq<Vec<usize>>, seen: Seq<bool>, x: int, m: int)
    requires
        0 <= m <= g.len(),
        seen.len() == g.len(),
        0 <= x < g.len(),
        !seen[x],
    ensures
        seen_degree(g, seen.update(x, true), m) == seen_degree(g, seen, m) + if x < m {
            g[x]@.len() as int
        } else {
            0
        },
        0 <= seen_degree(g, seen, m) <= seen_degree(g, Seq::new(g.len(), |x: int| true), m),
    decreases m,
{
    if m > 0 {
        lemma_seen_degree(g, seen, x, m - 1);
    }
}

/// The seen vertices never have more edges than there are.
pub proof fn lemma_seen_degree_bound(g: Seq<Vec<usize>>, seen: Seq<bool>, m: int)
    requires
        0 <= m <= g.len(),
        seen.len() == g.len(),
    ensures
        0 <= seen_degree(g, seen, m) <= seen_degree(g, Seq::new(g.len(), |x: int| true), m),
    decreases m,
{
    if m > 0 {
        lemma_seen_degree_bound(g, seen, m - 1);
    }
}

/// The state of the walk of `euler_tour`, with the stack `stack` and the
/// count `cnt` of the entries taken off it. An entry with the mark 1 lies
/// on an entry with the mark 2 for the same vertex. Every neighbour of a
/// seen vertex is seen, or waits on the stack above every entry with the
/// mark 1 for that vertex. The times noted are below `cnt`; the time of
/// leaving a vertex is behind the time of entering it unless an entry with
/// the mark 2 for it waits, and a vertex that is not seen has no times.
pub open spec fn tour_state(
    g: Seq<Vec<usize>>,
    seen: Seq<bool>,
    stack: Seq<(usize, usize)>,
    v_in: Seq<usize>,
    v_out: Seq<usize>,
    cnt: int,
) -> bool {
    &&& seen.len() == g.len()
    &&& v_in.len() == g.len()
    &&& v_out.len() == g.len()
    &&& forall|p: int|
        0 <= p < stack.len() ==> (#[trigger] stack[p]).1 < g.len() && (stack[p].0 == 1 || stack[p].0
            == 2)
    &&& forall|p: int|
        0 <= p < stack.len() && (#[trigger] stack[p]).0 == 1 ==> p >= 1 && stack[p - 1] == (
            2usize,
            stack[p].1,
        )
    &&& forall|x: int, k: int|
        0 <= x < g.len() && seen[x] && 0 <= k < g[x]@.len() && !seen[(
        #[trigger] g[x]@[k]) as int] ==> waits_above(stack, x as usize, g[x]@[k])
    &&& forall|x: int|
        0 <= x < g.len() ==> ((#[trigger] v_in[x]) == 0 || v_in[x] < cnt) && (v_out[x] == 0
            || v_out[x] < cnt)
    &&& forall|x: int|
        0 <= x < g.len() ==> (#[trigger] v_in[x]) < v_out[x] || (v_in[x] == 0 && v_out[x] == 0
            && !seen[x]) || stack.contains((2usize, x as usize))
}

/// An entry with the mark 1 for `y` waits on the stack above every entry
/// with the mark 1 for `x`.
pub open spec fn waits_above(stack: Seq<(usize, usize)>, x: usize, y: usize) -> bool {
    exists|q: int|
        0 <= q < stack.len() && #[trigger] stack[q] == (1usize, y) && forall|p: int|
            0 <= p < stack.len() && #[trigger] stack[p] == (1usize, x) ==> p < q
}

/// There is a walk in `g` from `v` to `x`.
pub open spec fn leads(g: Seq<Vec<usize>>, v: int, x: int) -> bool {
    exists|walk: Seq<int>| #[trigger] is_path(g, walk) && walk[0] == v && walk.last() == x
}

/// Every vertex leads to itself.
pub proof fn lemma_leads_self(g: Seq<Vec<usize>>, v: int)
    requires
        0 <= v < g.len(),
    ensures
        leads(g, v, v),
{
    let walk = seq![v];
    assert(is_path(g, walk) && walk[0] == v && walk.last() == v);
}

/// Where `v` leads to `u`, it leads to every neighbour of `u`.
pub proof fn lemma_leads_step(g: Seq<Vec<usize>>, v: int, u: int, k: int)
    requires
        is_graph(g),
        leads(g, v, u),
        0 <= u < g.len(),
        0 <= k < g[u]@.len(),
    ensures
        leads(g, v, g[u]@[k] as int),
{
    let walk = choose|walk: Seq<int>| #[trigger] is_path(g, walk) && walk[0] == v && walk.last() == u;
    let x = g[u]@[k] as int;
    let longer = walk.push(x);
    assert(g[u]@[k] < g.len());
    assert forall|t: int| 0 <= t < longer.len() - 1 implies has_edge(g, #[trigger] longer[t], longer[t + 1]) by {
        if t < walk.len() - 1 {
            assert(has_edge(g, walk[t], walk[t + 1]));
        } else {
            assert(longer[t] == u && longer[t + 1] == x);
        }
    }
    assert(is_path(g, longer) && longer[0] == v && longer.last() == x);
}

/// Where a neighbour of `u` leads to `x`, `u` leads to `x`.
pub proof fn lemma_leads_front(g: Seq<Vec<usize>>, u: int, k: int, x: int)
    requires
        0 <= u < g.len(),
        0 <= k < g[u]@.len(),
        leads(g, g[u]@[k] as int, x),
    ensures
        leads(g, u, x),
{
    let y = g[u]@[k] as int;
    let walk = choose|walk: Seq<int>| #[trigger] is_path(g, walk) && walk[0] == y && walk.last() == x;
    let longer = seq![u] + walk;
    assert forall|t: int| 0 <= t < longer.len() - 1 implies has_edge(g, #[trigger] longer[t], longer[t + 1]) by {
        if t == 0 {
            assert(longer[0] == u && longer[1] == walk[0]);
        } else {
            assert(longer[t] == walk[t - 1] && longer[t + 1] == walk[t - 1 + 1]);
            assert(has_edge(g, walk[t - 1], walk[t - 1 + 1]));
        }
    }
    assert forall|t: int| 0 <= t < longer.len() implies 0 <= #[trigger] longer[t] < g.len() by {
        if t > 0 {
            assert(longer[t] == walk[t - 1]);
        }
    }
    assert(is_path(g, longer) && longer[0] == u && longer.last() == x);
}

/// Where `a` leads to `b` and `b` leads to `c`, `a` leads to `c`.
pub proof fn lemma_leads_on(g: Seq<Vec<usize>>, a: int, b: int, c: int)
    requires
        leads(g, a, b),
        leads(g, b, c),
    ensures
        leads(g, a, c),
{
    let first = choose|walk: Seq<int>| #[trigger] is_path(g, walk) && walk[0] == a && walk.last() == b;
    lemma_walk_on(g, first, c);
}

/// Where the end of `walk` leads to `c`, its start leads to `c`.
proof fn lemma_walk_on(g: Seq<Vec<usize>>, walk: Seq<int>, c: int)
    requires
        is_path(g, walk),
        leads(g, walk.last(), c),
    ensures
        leads(g, walk[0], c),
    decreases walk.len(),
{
    if walk.len() > 1 {
        let rest = walk.drop_first();
        assert(is_path(g, rest)) by {
            assert forall|t: int| 0 <= t < rest.len() - 1 implies has_edge(g, #[trigger] rest[t], rest[t + 1]) by {
                assert(has_edge(g, walk[t + 1], walk[t + 1 + 1]));
            }
            assert forall|t: int| 0 <= t < rest.len() implies 0 <= #[trigger] rest[t] < g.len() by {
                assert(0 <= walk[t + 1] < g.len());
            }
        }
        assert(rest.last() == walk.last());
        lemma_walk_on(g, rest, c);
        assert(has_edge(g, walk[0], walk[0int + 1]));
        let k = choose|k: int| 0 <= k < g[walk[0]]@.len() && #[trigger] g[walk[0]]@[k] == walk[1];
        assert(rest[0] == walk[1]);
        lemma_leads_front(g, walk[0], k, c);
    }
}

/// A set of vertices that holds every neighbour of its vertices holds the
/// end of every walk that starts in it.
pub proof fn lemma_closed_walk(g: Seq<Vec<usize>>, seen: Seq<bool>, walk: Seq<int>)
    requires
        seen.len() == g.len(),
        is_path(g, walk),
        seen[walk[0]],
        forall|x: int, k: int|
            0 <= x < g.len() && seen[x] && 0 <= k < g[x]@.len() ==> seen[(#[trigger] g[x]@[k]) as int],
    ensures
        seen[walk.last()],
    decreases walk.len(),
{
    if walk.len() > 1 {
        let front = walk.drop_last();
        assert(is_path(g, front)) by {
            assert forall|t: int| 0 <= t < front.len() - 1 implies has_edge(
                g,
                #[trigger] front[t],
                front[t + 1],
            ) by {
                assert(has_edge(g, walk[t], walk[t + 1]));
            }
        }
        lemma_closed_walk(g, seen, front);
        let u = walk[walk.len() - 2];
        assert(front.last() == u);
        assert(has_edge(g, walk[walk.len() - 2], walk[walk.len() - 2 + 1]));
        let k = choose|k: int| 0 <= k < g[u]@.len() && #[trigger] g[u]@[k] == walk.last();
        assert(seen[g[u]@[k] as int]);
    }
}

/// The entry at the place `p` of the stack, with the mark 2, has the entry
/// with the mark 1 for the same vertex lying on it.
pub open spec fn paired(stack: Seq<(usize, usize)>, p: int) -> bool {
    p + 1 < stack.len() && stack[p + 1] == (1usize, stack[p].1)
}

/// What the walk of `euler_tour` from `v` has noted: a vertex that is not
/// seen has no times, and an entry with the mark 2 for it has its entry
/// with the mark 1 lying on it; the seen vertices have entered at
/// different times, the vertices that were left were left at different
/// times, and nothing was entered when something was left; and `v` leads to
/// every seen vertex and to every vertex on the stack.
pub open spec fn tour_marks(
    g: Seq<Vec<usize>>,
    v: int,
    seen: Seq<bool>,
    stack: Seq<(usize, usize)>,
    v_in: Seq<usize>,
    v_out: Seq<usize>,
    cnt: int,
) -> bool {
    &&& forall|x: int| 0 <= x < g.len() && !#[trigger] seen[x] ==> v_in[x] == 0 && v_out[x] == 0
    &&& forall|p: int|
        0 <= p < stack.len() && stack[p].0 == 2 && !seen[stack[p].1 as int] ==> #[trigger] paired(
            stack,
            p,
        )
    &&& cnt == 0 ==> forall|x: int| 0 <= x < g.len() ==> !#[trigger] seen[x]
    &&& forall|x: int, y: int|
        0 <= x < g.len() && 0 <= y < g.len() && x != y && seen[x] && seen[y] ==> #[trigger] v_in[x]
            != #[trigger] v_in[y]
    &&& forall|x: int, y: int|
        0 <= x < g.len() && 0 <= y < g.len() && x != y && v_out[x] > 0 ==> #[trigger] v_out[x]
            != #[trigger] v_out[y]
    &&& forall|x: int, y: int|
        0 <= x < g.len() && 0 <= y < g.len() && seen[x] && v_out[y] > 0 ==> #[trigger] v_in[x]
            != #[trigger] v_out[y]
    &&& forall|x: int| 0 <= x < g.len() && #[trigger] seen[x] ==> leads(g, v, x)
    &&& forall|p: int| 0 <= p < stack.len() ==> leads(g, v, (#[trigger] stack[p]).1 as int)
}

/// The marks after an entry with the mark 1 for `x` was taken off the
/// stack, `x` was noted as seen and as entered at the time `cnt`, and
/// entries for neighbours of `x` that are not seen were put on the stack.
pub proof fn lemma_marks_enter(
    g: Seq<Vec<usize>>,
    v: int,
    seen: Seq<bool>,
    stack: Seq<(usize, usize)>,
    v_in: Seq<usize>,
    v_out: Seq<usize>,
    cnt: int,
    x: usize,
    now: Seq<(usize, usize)>,
)
    requires
        tour_state(g, seen, stack, v_in, v_out, cnt),
        tour_marks(g, v, seen, stack, v_in, v_out, cnt),
        0 <= cnt < usize::MAX,
        x < g.len(),
        stack.len() >= 1,
        stack.last() == (1usize, x),
        now.len() >= stack.len() - 1,
        forall|p: int| 0 <= p < stack.len() - 1 ==> #[trigger] now[p] == stack[p],
        forall|p: int|
            stack.len() - 1 <= p < now.len() ==> (#[trigger] now[p]).1 < g.len() && now[p].1 != x
                && !seen[now[p].1 as int],
        forall|p: int| stack.len() - 1 <= p < now.len() && now[p].0 == 2 ==> #[trigger] paired(now, p),
        forall|p: int| stack.len() - 1 <= p < now.len() ==> leads(g, v, (#[trigger] now[p]).1 as int),
    ensures
        tour_marks(g, v, seen.update(x as int, true), now, v_in.update(x as int, cnt as usize), v_out, cnt + 1),
{
    let seen2 = seen.update(x as int, true);
    let in2 = v_in.update(x as int, cnt as usize);
    let base = stack.len() - 1;
    assert(leads(g, v, stack[base].1 as int));
    assert forall|p: int|
        0 <= p < now.len() && now[p].0 == 2 && !seen2[now[p].1 as int] implies #[trigger] paired(now, p) by {
        if p < base {
            assert(now[p] == stack[p]);
            assert(paired(stack, p));
            assert(now[p + 1] == stack[p + 1]);
        }
    }
    assert forall|p: int| 0 <= p < now.len() implies leads(g, v, (#[trigger] now[p]).1 as int) by {
        if p < base {
            assert(now[p] == stack[p]);
        }
    }
    assert forall|y: int| 0 <= y < g.len() && seen[y] implies #[trigger] v_in[y] < cnt by {
        assert(v_in[y] == 0 || v_in[y] < cnt);
    }
    assert forall|y: int| 0 <= y < g.len() && v_out[y] > 0 implies #[trigger] v_out[y] < cnt by {
        assert(v_in[y] == 0 || v_in[y] < cnt);
    }
    assert forall|a: int, b: int|
        0 <= a < g.len() && 0 <= b < g.len() && a != b && seen2[a] && seen2[b] implies #[trigger] in2[a]
        != #[trigger] in2[b] by {
        if a != x && b != x {
            assert(v_in[a] != v_in[b]);
        } else if a == x {
            assert(v_in[b] < cnt);
        } else {
            assert(v_in[a] < cnt);
        }
    }
    assert forall|a: int, b: int|
        0 <= a < g.len() && 0 <= b < g.len() && seen2[a] && v_out[b] > 0 implies #[trigger] in2[a]
        != #[trigger] v_out[b] by {
        assert(v_out[b] < cnt);
        if a != x {
            assert(v_in[a] != v_out[b]);
        }
    }
}

/// The marks after an entry with the mark 2 for `x` was taken off the
/// stack and `x` was noted as left at the time `cnt`: `x` was seen.
pub proof fn lemma_marks_leave(
    g: Seq<Vec<usize>>,
    v: int,
    seen: Seq<bool>,
    stack: Seq<(usize, usize)>,
    v_in: Seq<usize>,
    v_out: Seq<usize>,
    cnt: int,
    x: usize,
)
    requires
        tour_state(g, seen, stack, v_in, v_out, cnt),
        tour_marks(g, v, seen, stack, v_in, v_out, cnt),
        0 <= cnt < usize::MAX,
        x < g.len(),
        stack.len() >= 1,
        stack.last() == (2usize, x),
    ensures
        seen[x as int],
        cnt > 0,
        tour_marks(g, v, seen, stack.drop_last(), v_in, v_out.update(x as int, cnt as usize), cnt + 1),
{
    let now = stack.drop_last();
    let out2 = v_out.update(x as int, cnt as usize);
    if !seen[x as int] {
        assert(paired(stack, stack.len() - 1));
    }
    assert forall|p: int|
        0 <= p < now.len() && now[p].0 == 2 && !seen[now[p].1 as int] implies #[trigger] paired(now, p) by {
        assert(now[p] == stack[p]);
        assert(paired(stack, p));
        assert(now[p + 1] == stack[p + 1]);
    }
    assert forall|p: int| 0 <= p < now.len() implies leads(g, v, (#[trigger] now[p]).1 as int) by {
        assert(now[p] == stack[p]);
    }
    assert forall|y: int| 0 <= y < g.len() && seen[y] implies #[trigger] v_in[y] < cnt by {
        assert(v_in[y] == 0 || v_in[y] < cnt);
    }
    assert forall|y: int| 0 <= y < g.len() && v_out[y] > 0 implies #[trigger] v_out[y] < cnt by {
        assert(v_in[y] == 0 || v_in[y] < cnt);
    }
    assert forall|a: int, b: int|
        0 <= a < g.len() && 0 <= b < g.len() && a != b && out2[a] > 0 implies #[trigger] out2[a]
        != #[trigger] out2[b] by {
        if a != x && b != x {
            assert(v_out[a] != v_out[b]);
        } else if a == x {
            if v_out[b] > 0 {
                assert(v_out[b] < cnt);
            }
        } else {
            assert(v_out[a] < cnt);
        }
    }
    assert forall|a: int, b: int|
        0 <= a < g.len() && 0 <= b < g.len() && seen[a] && out2[b] > 0 implies #[trigger] v_in[a]
        != #[trigger] out2[b] by {
        assert(v_in[a] < cnt);
        if b != x {
            assert(v_in[a] != v_out[b]);
        }
    }
}

/// At the end of the walk, with nothing on the stack, the vertices that
/// were left are those that `v` leads to.
pub proof fn lemma_tour_end(
    g: Seq<Vec<usize>>,
    v: int,
    seen: Seq<bool>,
    stack: Seq<(usize, usize)>,
    v_in: Seq<usize>,
    v_out: Seq<usize>,
    cnt: int,
)
    requires
        tour_state(g, seen, stack, v_in, v_out, cnt),
        tour_marks(g, v, seen, stack, v_in, v_out, cnt),
        stack.len() == 0,
        0 <= v < g.len(),
        seen[v],
    ensures
        forall|x: int| 0 <= x < g.len() ==> (#[trigger] v_out[x] > 0 <==> leads(g, v, x)),
        forall|x: int| 0 <= x < g.len() ==> (#[trigger] v_out[x] > 0 <==> seen[x]),
{
    assert forall|x: int, k: int| 0 <= x < g.len() && seen[x] && 0 <= k < g[x]@.len() implies seen[(
    #[trigger] g[x]@[k]) as int] by {
        if !seen[g[x]@[k] as int] {
            assert(waits_above(stack, x as usize, g[x]@[k]));
        }
    }
    assert forall|x: int| 0 <= x < g.len() implies (#[trigger] v_out[x] > 0 <==> seen[x]) by {
        assert(!stack.contains((2usize, x as usize)));
        assert(v_in[x] < v_out[x] || (v_in[x] == 0 && v_out[x] == 0 && !seen[x]));
    }
    assert forall|x: int| 0 <= x < g.len() implies (#[trigger] v_out[x] > 0 <==> leads(g, v, x)) by {
        if leads(g, v, x) {
            let walk = choose|walk: Seq<int>| #[trigger] is_path(g, walk) && walk[0] == v && walk.last() == x;
            lemma_closed_walk(g, seen, walk);
        }
    }
}

/// The times at which a walk from `v` enters and leaves the vertices of
/// `g`, depth first, counted in entries and exits. The walk enters `v` at
/// the time 0; it leaves every vertex that it reaches after it has entered
/// it; a vertex that it does not reach keeps the time 0 twice. It reaches
/// the vertices that `v` leads to and no others, and no two of the times
/// at which it enters and leaves them are the same. Where `g` is a tree
/// with the root `v`, the root is left at the last of the `2 * n` times,
/// and a vertex lies below another, or is it, where it is entered no
/// earlier and left no later, and nowhere else.
pub fn euler_tour(v: usize, g: &[Vec<usize>]) -> (times: (Vec<usize>, Vec<usize>))
    requires
        is_graph(g@),
        v < g@.len(),
        2 + 2 * edge_count(g@) <= usize::MAX,
    ensures
        times.0@.len() == g@.len(),
        times.1@.len() == g@.len(),
        times.0@[v as int] == 0,
        times.0@[v as int] < times.1@[v as int],
        forall|x: int|
            0 <= x < g@.len() ==> (#[trigger] times.0@[x]) < times.1@[x] || (times.0@[x] == 0
                && times.1@[x] == 0),
        forall|x: int|
            0 <= x < g@.len() ==> (#[trigger] times.1@[x]) < 2 + 2 * edge_count(g@),
        forall|x: int| 0 <= x < g@.len() ==> (#[trigger] times.1@[x] > 0 <==> leads(g@, v as int, x)),
        forall|x: int, y: int|
            0 <= x < g@.len() && 0 <= y < g@.len() && x != y && times.1@[x] > 0 && times.1@[y] > 0
                ==> #[trigger] times.0@[x] != #[trigger] times.0@[y],
        forall|x: int, y: int|
            0 <= x < g@.len() && 0 <= y < g@.len() && x != y && times.1@[x] > 0 ==> #[trigger] times.1@[x]
                != #[trigger] times.1@[y],
        forall|x: int, y: int|
            0 <= x < g@.len() && 0 <= y < g@.len() && times.1@[x] > 0 && times.1@[y] > 0
                ==> #[trigger] times.0@[x] != #[trigger] times.1@[y],
        forall|parent: Seq<int>, depth: Seq<int>| #[trigger]
            is_rooted_tree(g@, v as int, parent, depth) ==> nested_in_tree(
                g@,
                v as int,
                parent,
                depth,
                times.0@,
                times.1@,
            ),
{
    let n = g.len();
    let mut cnt: usize = 0;
    let mut seen: Vec<bool> = vec![false; n];
    let mut v_in: Vec<usize> = vec![0; n];
    let mut v_out: Vec<usize> = vec![0; n];
    let mut stack: Vec<(usize, usize)> = Vec::new();
    stack.push((2, v));
    stack.push((1, v));
    let ghost all = Seq::new(n as nat, |x: int| true);
    proof {
        lemma_seen_degree(g@, seen@, v as int, n as int);
        lemma_unseen(seen@, seen@);
        assert(stack@[0] == (2usize, v));
        assert(stack@.contains((2usize, v)));
        lemma_leads_self(g@, v as int);
        assert(paired(stack@, 0));
        assert forall|parent: Seq<int>, depth: Seq<int>| #[trigger]
            is_rooted_tree(g@, v as int, parent, depth) implies tree_tour(
            g@,
            v as int,
            parent,
            depth,
            seen@,
            stack@,
            v_in@,
            v_out@,
            0,
        ) by {
            lemma_tree_start(g@, v, parent, depth, seen@, stack@, v_in@, v_out@);
        }
    }
    loop
        invariant
            n == g@.len(),
            v < n,
            is_graph(g@),
            all == Seq::new(n as nat, |x: int| true),
            2 + 2 * seen_degree(g@, all, n as int) <= usize::MAX,
            tour_state(g@, seen@, stack@, v_in@, v_out@, cnt as int),
            tour_marks(g@, v as int, seen@, stack@, v_in@, v_out@, cnt as int),
            forall|parent: Seq<int>, depth: Seq<int>| #[trigger]
                is_rooted_tree(g@, v as int, parent, depth) ==> tree_tour(
                    g@,
                    v as int,
                    parent,
                    depth,
                    seen@,
                    stack@,
                    v_in@,
                    v_out@,
                    cnt as int,
                ),
            cnt + stack@.len() <= 2 + 2 * seen_degree(g@, seen@, n as int),
            seen_degree(g@, seen@, n as int) <= seen_degree(g@, all, n as int),
            unseen(seen@).finite(),
            cnt == 0 ==> stack@.len() == 2 && stack@[1] == (1usize, v) && !seen@[v as int],
            cnt > 0 ==> seen@[v as int] && v_in@[v as int] == 0,
            cnt > 0 ==> forall|p: int| 0 <= p < stack@.len() ==> #[trigger] stack@[p] != (1usize, v),
        ensures
            stack@.len() == 0,
            cnt > 0,
            tour_state(g@, seen@, stack@, v_in@, v_out@, cnt as int),
            tour_marks(g@, v as int, seen@, stack@, v_in@, v_out@, cnt as int),
            forall|parent: Seq<int>, depth: Seq<int>| #[trigger]
                is_rooted_tree(g@, v as int, parent, depth) ==> tree_tour(
                    g@,
                    v as int,
                    parent,
                    depth,
                    seen@,
                    stack@,
                    v_in@,
                    v_out@,
                    cnt as int,
                ),
            seen@[v as int] && v_in@[v as int] == 0,
            cnt <= 2 + 2 * seen_degree(g@, all, n as int),
        decreases unseen(seen@).len(), stack@.len(),
    {
        let ghost stack0 = stack@;
        let ghost seen0 = seen@;
        let ghost in0 = v_in@;
        let ghost out0 = v_out@;
        let top = stack.pop();
        if top.is_none() {
            break ;
        }
        let (i, x) = top.unwrap();
        proof {
            assert(stack0[stack0.len() - 1] == (i, x));
            assert(stack@ =~= stack0.subrange(0, stack0.len() - 1));
        }
        if i == 1 {
            let ghost was_seen = seen@[x as int];
            seen[x] = true;
            v_in[x] = cnt;
            proof {
                assert(stack0[stack0.len() - 2] == (2usize, x));
                assert(stack@[stack@.len() - 1] == (2usize, x));
                if !was_seen {
                    lemma_seen_degree(g@, seen0, x as int, n as int);
                    assert(seen@ =~= seen0.update(x as int, true));
                } else {
                    assert(seen@ =~= seen0);
                    assert forall|k: int| 0 <= k < g@[x as int]@.len() implies seen0[(
                    #[trigger] g@[x as int]@[k]) as int] by {
                        if !seen0[g@[x as int]@[k] as int] {
                            assert(waits_above(stack0, x, g@[x as int]@[k]));
                            let q = choose|q: int|
                                0 <= q < stack0.len() && #[trigger] stack0[q] == (
                                    1usize,
                                    g@[x as int]@[k],
                                ) && forall|p: int|
                                    0 <= p < stack0.len() && #[trigger] stack0[p] == (1usize, x)
                                        ==> p < q;
                            assert(stack0[stack0.len() - 1] == (1usize, x));
                        }
                    }
                }
                lemma_unseen(seen0, seen@);
                lemma_seen_degree_bound(g@, seen@, n as int);
            }
            let ghost base = stack@;
            proof {
                assert(leads(g@, v as int, stack0[stack0.len() - 1].1 as int));
                lemma_pushed_none(g@, x as int, g@[x as int]@.len() as int, base);
            }
            let mut k: usize = g[x].len();
            while k > 0
                invariant
                    n == g@.len(),
                    x < n,
                    v < n,
                    is_graph(g@),
                    k <= g@[x as int]@.len(),
                    seen@.len() == n,
                    all == Seq::new(n as nat, |x: int| true),
                    2 + 2 * seen_degree(g@, all, n as int) <= usize::MAX,
                    tour_state(g@, seen0, stack0, in0, out0, cnt as int),
                    stack0.len() >= 2,
                    stack0[stack0.len() - 1] == (1usize, x),
                    base == stack0.subrange(0, stack0.len() - 1),
                    was_seen == seen0[x as int],
                    seen@ == seen0.update(x as int, true),
                    v_in@ == in0.update(x as int, cnt),
                    v_out@ == out0,
                    cnt + stack0.len() <= 2 + 2 * seen_degree(g@, seen0, n as int),
                    seen_degree(g@, seen@, n as int) <= seen_degree(g@, all, n as int),
                    seen_degree(g@, seen@, n as int) == seen_degree(g@, seen0, n as int) + if was_seen {
                        0
                    } else {
                        g@[x as int]@.len() as int
                    },
                    unseen(seen@).finite(),
                    unseen(seen0).finite(),
                    unseen(seen@).len() <= unseen(seen0).len(),
                    !was_seen ==> unseen(seen@).len() < unseen(seen0).len(),
                    cnt == 0 ==> stack0.len() == 2 && stack0[1] == (1usize, v) && !seen0[v as int],
                    cnt > 0 ==> seen0[v as int] && in0[v as int] == 0,
                    cnt > 0 ==> forall|p: int|
                        0 <= p < stack0.len() ==> #[trigger] stack0[p] != (1usize, v),
                    was_seen ==> forall|j: int|
                        0 <= j < g@[x as int]@.len() ==> seen@[(#[trigger] g@[x as int]@[j]) as int],
                    was_seen ==> stack@ == base,
                    tour_marks(g@, v as int, seen0, stack0, in0, out0, cnt as int),
                    forall|parent: Seq<int>, depth: Seq<int>| #[trigger]
                        is_rooted_tree(g@, v as int, parent, depth) ==> tree_tour(
                            g@,
                            v as int,
                            parent,
                            depth,
                            seen0,
                            stack0,
                            in0,
                            out0,
                            cnt as int,
                        ),
                    pushed_apart(g@, x as int, k as int, base.len() as int, stack@),
                    leads(g@, v as int, x as int),
                    forall|p: int|
                        base.len() <= p < stack@.len() && stack@[p].0 == 2 ==> #[trigger] paired(
                            stack@,
                            p,
                        ),
                    forall|p: int|
                        base.len() <= p < stack@.len() ==> leads(
                            g@,
                            v as int,
                            (#[trigger] stack@[p]).1 as int,
                        ),
                    base.len() <= stack@.len() <= base.len() + 2 * (g@[x as int]@.len() - k),
                    forall|p: int| 0 <= p < base.len() ==> stack@[p] == base[p],
                    forall|p: int|
                        base.len() <= p < stack@.len() ==> (#[trigger] stack@[p]).1 < n
                            && !seen@[stack@[p].1 as int] && (stack@[p].0 == 1 || stack@[p].0 == 2),
                    forall|p: int|
                        base.len() <= p < stack@.len() && (#[trigger] stack@[p]).0 == 1 ==> p
                            > base.len() && stack@[p - 1] == (2usize, stack@[p].1),
                    forall|j: int|
                        k <= j < g@[x as int]@.len() && !seen@[(
                        #[trigger] g@[x as int]@[j]) as int] ==> exists|q: int|
                            base.len() <= q < stack@.len() && #[trigger] stack@[q] == (
                                1usize,
                                g@[x as int]@[j],
                            ),
                decreases k,
            {
                k -= 1;
                let nv = g[x][k];
                proof {
                    assert(g@[x as int]@[k as int] < n);
                }
                if seen[nv] {
                    proof {
                        lemma_pushed_skip(g@, x as int, k as int, base.len() as int, stack@);
                    }
                    continue ;
                }
                let ghost before = stack@;
                stack.push((2, nv));
                stack.push((1, nv));
                proof {
                    lemma_pushed_pair(g@, x as int, k as int, base.len() as int, before, nv);
                    assert(stack@ =~= before.push((2usize, nv)).push((1usize, nv)));
                    lemma_leads_step(g@, v as int, x as int, k as int);
                    assert forall|p: int|
                        base.len() <= p < stack@.len() && stack@[p].0 == 2 implies #[trigger] paired(
                        stack@,
                        p,
                    ) by {
                        if p < before.len() {
                            assert(stack@[p] == before[p]);
                            assert(paired(before, p));
                            assert(stack@[p + 1] == before[p + 1]);
                        }
                    }
                    assert forall|p: int| base.len() <= p < stack@.len() implies leads(
                        g@,
                        v as int,
                        (#[trigger] stack@[p]).1 as int,
                    ) by {
                        if p < before.len() {
                            assert(stack@[p] == before[p]);
                        }
                    }
                    assert(stack@[before.len() as int + 1] == (1usize, nv));
                    assert forall|j: int|
                        k <= j < g@[x as int]@.len() && !seen@[(
                        #[trigger] g@[x as int]@[j]) as int] implies exists|q: int|
                        base.len() <= q < stack@.len() && #[trigger] stack@[q] == (
                            1usize,
                            g@[x as int]@[j],
                        ) by {
                        if j > k {
                            let q = choose|q: int|
                                base.len() <= q < before.len() && #[trigger] before[q] == (
                                    1usize,
                                    g@[x as int]@[j],
                                );
                            assert(stack@[q] == before[q]);
                        }
                    }
                }
            }
            proof {
                let now = stack@;
                assert forall|p: int| 0 <= p < base.len() implies #[trigger] now[p]
                    == stack0[p] by {
                    assert(now[p] == base[p]);
                    assert(base[p] == stack0[p]);
                }
                lemma_marks_enter(g@, v as int, seen0, stack0, in0, out0, cnt as int, x, now);
                lemma_pushed_done(g@, x as int, stack0, now);
                assert forall|parent: Seq<int>, depth: Seq<int>| #[trigger]
                    is_rooted_tree(g@, v as int, parent, depth) implies tree_tour(
                    g@,
                    v as int,
                    parent,
                    depth,
                    seen@,
                    now,
                    v_in@,
                    v_out@,
                    cnt + 1,
                ) by {
                    lemma_tree_enter(g@, v as int, parent, depth, seen0, stack0, in0, out0, cnt as int, x, now);
                }
                assert forall|p: int| 0 <= p < now.len() && seen@[v as int] implies #[trigger] now[p]
                    != (1usize, v) by {
                    if p < base.len() {
                        assert(now[p] == stack0[p]);
                        if cnt == 0 {
                            assert(stack0[0] == (2usize, v));
                        }
                    } else {
                        assert(!seen@[now[p].1 as int]);
                    }
                }
                assert forall|p: int| 0 <= p < now.len() implies (#[trigger] now[p]).1 < n && (
                now[p].0 == 1 || now[p].0 == 2) by {
                    if p < base.len() {
                        assert(now[p] == stack0[p]);
                    }
                }
                assert forall|p: int| 0 <= p < now.len() && (#[trigger] now[p]).0 == 1 implies p
                    >= 1 && now[p - 1] == (2usize, now[p].1) by {
                    if p < base.len() {
                        assert(now[p] == base[p]);
                        assert(base[p] == stack0[p]);
                        assert(stack0[p].0 == 1);
                        assert(p >= 1);
                        assert(now[p - 1] == base[p - 1]);
                        assert(base[p - 1] == stack0[p - 1]);
                    }
                }
                assert forall|y: int, j: int|
                    0 <= y < n && seen@[y] && 0 <= j < g@[y]@.len() && !seen@[(
                    #[trigger] g@[y]@[j]) as int] implies waits_above(
                    now,
                    y as usize,
                    g@[y]@[j],
                ) by {
                    let z = g@[y]@[j];
                    if y == x {
                        let q = choose|q: int|
                            base.len() <= q < now.len() && #[trigger] now[q] == (1usize, z);
                        assert forall|p: int|
                            0 <= p < now.len() && #[trigger] now[p] == (1usize, x) implies p
                            < q by {
                            if p >= base.len() {
                                assert(!seen@[now[p].1 as int]);
                            }
                        }
                    } else {
                        assert(seen0[y]);
                        assert(!seen0[z as int]);
                        assert(waits_above(stack0, y as usize, z));
                        let q = choose|q: int|
                            0 <= q < stack0.len() && #[trigger] stack0[q] == (1usize, z) && forall|
                                p: int,
                            |
                                0 <= p < stack0.len() && #[trigger] stack0[p] == (1usize, y as usize)
                                    ==> p < q;
                        assert(q < base.len()) by {
                            if q == stack0.len() - 1 {
                                assert(z == x);
                            }
                        }
                        assert(now[q] == stack0[q]);
                        assert forall|p: int|
                            0 <= p < now.len() && #[trigger] now[p] == (
                                1usize,
                                y as usize,
                            ) implies p < q by {
                            if p >= base.len() {
                                assert(!seen@[now[p].1 as int]);
                            } else {
                                assert(now[p] == stack0[p]);
                            }
                        }
                    }
                }
                assert forall|y: int| 0 <= y < n implies (#[trigger] v_in@[y]) < v_out@[y] || (
                v_in@[y] == 0 && v_out@[y] == 0 && !seen@[y]) || now.contains(
                    (2usize, y as usize),
                ) by {
                    if y == x {
                        assert(now[base.len() - 1] == (2usize, x));
                    } else if stack0.contains((2usize, y as usize)) {
                        let p = choose|p: int|
                            0 <= p < stack0.len() && stack0[p] == (2usize, y as usize);
                        assert(now[p] == stack0[p]);
                    } else {
                        assert(in0[y] < out0[y] || (in0[y] == 0 && out0[y] == 0 && !seen0[y]));
                    }
                }
                assert forall|y: int| 0 <= y < n implies ((#[trigger] v_in@[y]) == 0 || v_in@[y]
                    < cnt + 1) && (v_out@[y] == 0 || v_out@[y] < cnt + 1) by {
                    assert(in0[y] == 0 || in0[y] < cnt);
                    assert(out0[y] == 0 || out0[y] < cnt);
                }
            }
        } else {
            v_out[x] = cnt;
            proof {
                let now = stack@;
                lemma_marks_leave(g@, v as int, seen0, stack0, in0, out0, cnt as int, x);
                assert(now =~= stack0.drop_last());
                assert forall|parent: Seq<int>, depth: Seq<int>| #[trigger]
                    is_rooted_tree(g@, v as int, parent, depth) implies tree_tour(
                    g@,
                    v as int,
                    parent,
                    depth,
                    seen@,
                    now,
                    v_in@,
                    v_out@,
                    cnt + 1,
                ) by {
                    lemma_tree_leave(g@, v as int, parent, depth, seen0, stack0, in0, out0, cnt as int, x);
                }
                assert forall|p: int| 0 <= p < now.len() implies #[trigger] now[p] != (
                    1usize,
                    v,
                ) by {
                    assert(now[p] == stack0[p]);
                    if cnt == 0 {
                        assert(stack0[1] == (1usize, v));
                    }
                }
                assert forall|y: int, j: int|
                    0 <= y < n && seen@[y] && 0 <= j < g@[y]@.len() && !seen@[(
                    #[trigger] g@[y]@[j]) as int] implies waits_above(
                    now,
                    y as usize,
                    g@[y]@[j],
                ) by {
                    let z = g@[y]@[j];
                    assert(waits_above(stack0, y as usize, z));
                    let q = choose|q: int|
                        0 <= q < stack0.len() && #[trigger] stack0[q] == (1usize, z) && forall|
                            p: int,
                        |
                            0 <= p < stack0.len() && #[trigger] stack0[p] == (1usize, y as usize)
                                ==> p < q;
                    assert(now[q] == stack0[q]);
                    assert forall|p: int|
                        0 <= p < now.len() && #[trigger] now[p] == (1usize, y as usize) implies p
                        < q by {
                        assert(now[p] == stack0[p]);
                    }
                }
                assert forall|p: int| 0 <= p < now.len() && (#[trigger] now[p]).0 == 1 implies p
                    >= 1 && now[p - 1] == (2usize, now[p].1) by {
                    assert(now[p] == stack0[p]);
                    assert(now[p - 1] == stack0[p - 1]);
                }
                assert forall|p: int| 0 <= p < now.len() implies (#[trigger] now[p]).1 < n && (
                now[p].0 == 1 || now[p].0 == 2) by {
                    assert(now[p] == stack0[p]);
                }
                assert forall|y: int| 0 <= y < n implies (#[trigger] v_in@[y]) < v_out@[y] || (
                v_in@[y] == 0 && v_out@[y] == 0 && !seen@[y]) || now.contains(
                    (2usize, y as usize),
                ) by {
                    if y != x {
                        if stack0.contains((2usize, y as usize)) {
                            let p = choose|p: int|
                                0 <= p < stack0.len() && stack0[p] == (2usize, y as usize);
                            assert(now[p] == stack0[p]);
                        } else {
                            assert(in0[y] < out0[y] || (in0[y] == 0 && out0[y] == 0 && !seen0[y]));
                        }
                    } else {
                        assert(in0[y] == 0 || in0[y] < cnt);
                        assert(cnt > 0) by {
                            if cnt == 0 {
                                assert(stack0[1] == (1usize, v));
                            }
                        }
                    }
                }
                assert forall|y: int| 0 <= y < n implies ((#[trigger] v_in@[y]) == 0 || v_in@[y]
                    < cnt + 1) && (v_out@[y] == 0 || v_out@[y] < cnt + 1) by {
                    assert(in0[y] == 0 || in0[y] < cnt);
                    assert(out0[y] == 0 || out0[y] < cnt);
                }
            }
        }
        cnt += 1;
    }
    proof {
        assert forall|x: int| 0 <= x < n implies (#[trigger] v_in@[x]) < v_out@[x] || (v_in@[x]
            == 0 && v_out@[x] == 0) by {
            assert(!stack@.contains((2usize, x as usize)));
        }
        assert forall|x: int| 0 <= x < n implies (#[trigger] v_out@[x]) < 2 + 2 * edge_count(
            g@,
        ) by {
            assert(v_in@[x] < cnt);
        }
        assert(v_in@[v as int] < v_out@[v as int]) by {
            assert(!stack@.contains((2usize, v)));
        }
        lemma_tour_end(g@, v as int, seen@, stack@, v_in@, v_out@, cnt as int);
        assert forall|parent: Seq<int>, depth: Seq<int>| #[trigger]
            is_rooted_tree(g@, v as int, parent, depth) implies nested_in_tree(
            g@,
            v as int,
            parent,
            depth,
            v_in@,
            v_out@,
        ) by {
            lemma_tree_end(g@, v as int, parent, depth, seen@, stack@, v_in@, v_out@, cnt as int);
        }
    }
    (v_in, v_out)
}

/// The number of places before `k` at which `x` stands in `list`.
pub open spec fn count_of(list: Seq<usize>, x: int, k: int) -> int
    decreases k,
{
    if k <= 0 {
        0
    } else {
        count_of(list, x, k - 1) + if list[k - 1] == x {
            1int
        } else {
            0int
        }
    }
}

/// The number of edges into `x` from the vertices among the first `m` that
/// are not done.
pub open spec fn pending_in(g: Seq<Vec<usize>>, done: Seq<bool>, x: int, m: int) -> int
    decreases m,
{
    if m <= 0 {
        0
    } else {
        pending_in(g, done, x, m - 1) + if done[m - 1] {
            0
        } else {
            count_of(g[m - 1]@, x, g[m - 1]@.len() as int)
        }
    }
}

/// The number of edges into `x`.
pub open spec fn in_degree(g: Seq<Vec<usize>>, x: int) -> int {
    pending_in(g, Seq::new(g.len(), |u: int| false), x, g.len() as int)
}

/// A count of places grows with the number of places, by one at a place
/// where `x` stands.
pub proof fn lemma_count_of(list: Seq<usize>, x: int, j: int, k: int)
    requires
        0 <= j <= k <= list.len(),
    ensures
        0 <= count_of(list, x, j) <= count_of(list, x, k),
        j < k && list[j] == x ==> count_of(list, x, j) < count_of(list, x, k),
    decreases k,
{
    if j < k {
        lemma_count_of(list, x, j, k - 1);
        if j == k - 1 {
            lemma_count_of(list, x, 0, j);
        }
    } else {
        if k > 0 {
            lemma_count_of(list, x, j - 1, k - 1);
        }
    }
}

/// The edges into `x` that wait are none or more; marking `v` as done
/// takes those from `v` away.
pub proof fn lemma_pending_mark(g: Seq<Vec<usize>>, done: Seq<bool>, v: int, x: int, m: int)
    requires
        0 <= m <= g.len(),
        done.len() == g.len(),
        0 <= v < g.len(),
        !done[v],
    ensures
        0 <= pending_in(g, done, x, m),
        pending_in(g, done.update(v, true), x, m) == pending_in(g, done, x, m) - if v < m {
            count_of(g[v]@, x, g[v]@.len() as int)
        } else {
            0
        },
    decreases m,
{
    if m > 0 {
        lemma_pending_mark(g, done, v, x, m - 1);
        lemma_count_of(g[m - 1]@, x, 0, g[m - 1]@.len() as int);
    }
}

/// Where no edge into `x` waits, no vertex that is not done has an edge
/// to `x`; where one waits, some vertex that is not done has one.
pub proof fn lemma_pending_edges(g: Seq<Vec<usize>>, done: Seq<bool>, x: int, m: int)
    requires
        0 <= m <= g.len(),
        done.len() == g.len(),
    ensures
        0 <= pending_in(g, done, x, m),
        pending_in(g, done, x, m) == 0 ==> forall|u: int, k: int|
            0 <= u < m && !done[u] && 0 <= k < g[u]@.len() ==> #[trigger] g[u]@[k] != x,
        pending_in(g, done, x, m) > 0 ==> exists|u: int, k: int|
            0 <= u < m && !done[u] && 0 <= k < g[u]@.len() && #[trigger] g[u]@[k] == x,
    decreases m,
{
    if m > 0 {
        lemma_pending_edges(g, done, x, m - 1);
        let list = g[m - 1]@;
        lemma_count_of(list, x, 0, list.len() as int);
        if !done[m - 1] {
            if count_of(list, x, list.len() as int) == 0 {
                assert forall|k: int| 0 <= k < list.len() implies list[k] != x by {
                    lemma_count_of(list, x, k, list.len() as int);
                    lemma_count_of(list, x, 0, k);
                }
            } else {
                lemma_count_positive(list, x, list.len() as int);
                let k = choose|k: int| 0 <= k < list.len() && list[k] == x;
                assert(g[m - 1]@[k] == x);
            }
        }
        if pending_in(g, done, x, m - 1) > 0 {
            let (u, k) = choose|u: int, k: int|
                0 <= u < m - 1 && !done[u] && 0 <= k < g[u]@.len() && #[trigger] g[u]@[k] == x;
            assert(g[u]@[k] == x);
        }
    }
}

/// A count that is not 0 has a place at which `x` stands.
pub proof fn lemma_count_positive(list: Seq<usize>, x: int, k: int)
    requires
        0 <= k <= list.len(),
        count_of(list, x, k) > 0,
    ensures
        exists|j: int| 0 <= j < k && list[j] == x,
    decreases k,
{
    if k > 0 {
        if list[k - 1] == x {
        } else {
            lemma_count_positive(list, x, k - 1);
            let j = choose|j: int| 0 <= j < k - 1 && list[j] == x;
            assert(list[j] == x);
        }
    }
}

/// The state of the sort: `indeg` counts, for each vertex, the edges from
/// the vertices that are not done; the vertices that wait are different
/// vertices, not done, without such an edge, and every vertex without such
/// an edge is done or waits; the vertices done are those of `order`, in
/// which every vertex stands behind the vertices with an edge to it.
pub open spec fn sort_state(
    g: Seq<Vec<usize>>,
    indeg: Seq<usize>,
    done: Seq<bool>,
    queue: Seq<usize>,
    order: Seq<usize>,
) -> bool {
    &&& indeg.len() == g.len()
    &&& done.len() == g.len()
    &&& forall|x: int| 0 <= x < g.len() ==> #[trigger] indeg[x] == pending_in(g, done, x, g.len() as int)
    &&& forall|t: int|
        0 <= t < queue.len() ==> (#[trigger] queue[t]) < g.len() && !done[queue[t] as int]
            && indeg[queue[t] as int] == 0
    &&& forall|s: int, t: int| 0 <= s < t < queue.len() ==> #[trigger] queue[s] != #[trigger] queue[t]
    &&& forall|x: int|
        0 <= x < g.len() && !done[x] && #[trigger] indeg[x] == 0 ==> queue.contains(x as usize)
    &&& forall|x: int| 0 <= x < g.len() && #[trigger] done[x] ==> indeg[x] == 0
    &&& is_sorted_order(g, done, order)
}

/// The vertices done are those of `order`, each once, and every vertex of
/// `order` stands behind the vertices with an edge to it.
pub open spec fn is_sorted_order(g: Seq<Vec<usize>>, done: Seq<bool>, order: Seq<usize>) -> bool {
    &&& forall|i: int| 0 <= i < order.len() ==> (#[trigger] order[i]) < g.len() && done[order[i] as int]
    &&& forall|x: int| 0 <= x < g.len() && #[trigger] done[x] ==> order.contains(x as usize)
    &&& forall|i: int, j: int| 0 <= i < j < order.len() ==> #[trigger] order[i] != #[trigger] order[j]
    &&& forall|i: int, u: int, k: int|
        0 <= i < order.len() && 0 <= u < g.len() && 0 <= k < g[u]@.len() && #[trigger] g[u]@[k]
            == #[trigger] order[i] ==> exists|j: int| 0 <= j < i && #[trigger] order[j] == u
}

/// Taking the vertex `v` off the queue and marking it done keeps the order
/// sorted with `v` at its end.
pub proof fn lemma_sort_pop(
    g: Seq<Vec<usize>>,
    indeg: Seq<usize>,
    done: Seq<bool>,
    queue: Seq<usize>,
    order: Seq<usize>,
)
    requires
        sort_state(g, indeg, done, queue, order),
        queue.len() > 0,
        g.len() <= usize::MAX,
    ensures
        is_sorted_order(g, done.update(queue[0] as int, true), order.push(queue[0])),
        count_of(g[queue[0] as int]@, queue[0] as int, g[queue[0] as int]@.len() as int) == 0,
        forall|x: int|
            0 <= x < g.len() ==> #[trigger] indeg[x] == pending_in(
                g,
                done.update(queue[0] as int, true),
                x,
                g.len() as int,
            ) + count_of(g[queue[0] as int]@, x, g[queue[0] as int]@.len() as int),
{
    let v = queue[0] as int;
    let done2 = done.update(v, true);
    let order2 = order.push(queue[0]);
    lemma_pending_edges(g, done, v, g.len() as int);
    assert(indeg[v] == pending_in(g, done, v, g.len() as int));
    assert forall|x: int| 0 <= x < g.len() implies #[trigger] indeg[x] == pending_in(
        g,
        done2,
        x,
        g.len() as int,
    ) + count_of(g[v]@, x, g[v]@.len() as int) by {
        lemma_pending_mark(g, done, v, x, g.len() as int);
    }
    lemma_pending_mark(g, done, v, v, g.len() as int);
    lemma_pending_mark(g, done2.update(v, false), v, v, g.len() as int);
    assert(count_of(g[v]@, v, g[v]@.len() as int) == 0) by {
        lemma_count_of(g[v]@, v, 0, g[v]@.len() as int);
        if count_of(g[v]@, v, g[v]@.len() as int) > 0 {
            lemma_count_positive(g[v]@, v, g[v]@.len() as int);
            let k = choose|k: int| 0 <= k < g[v]@.len() && g[v]@[k] == v;
            assert(g[v]@[k] != v);
        }
    }
    assert forall|i: int| 0 <= i < order2.len() implies (#[trigger] order2[i]) < g.len()
        && done2[order2[i] as int] by {
        if i < order.len() {
            assert(order2[i] == order[i]);
        }
    }
    assert forall|x: int| 0 <= x < g.len() && #[trigger] done2[x] implies order2.contains(
        x as usize,
    ) by {
        if x == v {
            assert(order2[order.len() as int] == queue[0]);
        } else {
            assert(done[x]);
            let i = choose|i: int| 0 <= i < order.len() && order[i] == x as usize;
            assert(order2[i] == x as usize);
        }
    }
    assert forall|i: int, j: int| 0 <= i < j < order2.len() implies #[trigger] order2[i]
        != #[trigger] order2[j] by {
        assert(order2[i] == order[i]);
        if j < order.len() {
            assert(order2[j] == order[j]);
        } else {
            assert(done[order[i] as int]);
        }
    }
    assert forall|i: int, u: int, k: int|
        0 <= i < order2.len() && 0 <= u < g.len() && 0 <= k < g[u]@.len() && #[trigger] g[u]@[k]
            == #[trigger] order2[i] implies exists|j: int|
        0 <= j < i && #[trigger] order2[j] == u by {
        if i < order.len() {
            assert(order2[i] == order[i]);
            assert(g[u]@[k] == order[i]);
            assert(exists|j: int| 0 <= j < i && #[trigger] order[j] == u);
            let j = choose|j: int| 0 <= j < i && #[trigger] order[j] == u;
            assert(order2[j] == order[j]);
            assert(0 <= j < i && order2[j] == u);
        } else {
            assert(order2[i] == queue[0]);
            assert(pending_in(g, done, v, g.len() as int) == 0);
            assert(done[u]) by {
                if !done[u] {
                    assert(g[u]@[k] != v);
                }
            }
            assert(order.contains(u as usize));
            let j = choose|j: int| 0 <= j < order.len() && order[j] == u as usize;
            assert(order2[j] == order[j]);
            assert(0 <= j < i && order2[j] == u);
        }
    }
}

/// An order of the vertices of `g` in which every vertex stands behind the
/// vertices with an edge to it, as far as there is one: the vertices are
/// taken as the edges into them run out. `indeg` holds the number of edges
/// into each vertex; at the end it holds the number of those from vertices
/// that could not be taken, and the vertices taken are those for which it
/// is 0.
pub fn topological_sort(g: &[Vec<usize>], indeg: &mut [usize]) -> (ret: Vec<usize>)
    requires
        is_graph(g@),
        old(indeg)@.len() == g@.len(),
        forall|x: int| 0 <= x < g@.len() ==> #[trigger] old(indeg)@[x] == in_degree(g@, x),
    ensures
        final(indeg)@.len() == g@.len(),
        forall|i: int| 0 <= i < ret@.len() ==> (#[trigger] ret@[i]) < g@.len(),
        forall|i: int, j: int| 0 <= i < j < ret@.len() ==> #[trigger] ret@[i] != #[trigger] ret@[j],
        forall|i: int, u: int, k: int|
            0 <= i < ret@.len() && 0 <= u < g@.len() && 0 <= k < g@[u]@.len() && #[trigger] g@[u]@[k]
                == #[trigger] ret@[i] ==> exists|j: int| 0 <= j < i && #[trigger] ret@[j] == u,
        forall|x: int|
            0 <= x < g@.len() ==> (ret@.contains(x as usize) <==> #[trigger] final(indeg)@[x] == 0),
        forall|x: int|
            0 <= x < g@.len() && #[trigger] final(indeg)@[x] != 0 ==> exists|u: int, k: int|
                0 <= u < g@.len() && final(indeg)@[u] != 0 && 0 <= k < g@[u]@.len()
                    && #[trigger] g@[u]@[k] == x,
{
    let n = g.len();
    let mut ret: Vec<usize> = Vec::new();
    let mut q: VecDeque<usize> = VecDeque::new();
    let ghost mut done: Seq<bool> = Seq::new(n as nat, |u: int| false);
    let mut i: usize = 0;
    while i < indeg.len()
        invariant
            n == g@.len(),
            indeg@ == old(indeg)@,
            indeg@.len() == n,
            i <= n,
            forall|t: int| 0 <= t < q@.len() ==> (#[trigger] q@[t]) < i && indeg@[q@[t] as int] == 0,
            forall|s: int, t: int| 0 <= s < t < q@.len() ==> #[trigger] q@[s] < #[trigger] q@[t],
            forall|x: int| 0 <= x < i && #[trigger] indeg@[x] == 0 ==> q@.contains(x as usize),
        decreases n - i,
    {
        if indeg[i] == 0 {
            let ghost before = q@;
            q.push_back(i);
            proof {
                assert(q@[before.len() as int] == i);
                assert forall|x: int| 0 <= x < i + 1 && #[trigger] indeg@[x] == 0 implies q@.contains(
                    x as usize,
                ) by {
                    if x < i {
                        let t = choose|t: int| 0 <= t < before.len() && before[t] == x as usize;
                        assert(q@[t] == x as usize);
                    }
                }
                assert forall|s: int, t: int| 0 <= s < t < q@.len() implies #[trigger] q@[s]
                    < #[trigger] q@[t] by {
                    assert(q@[s] == before[s]);
                    if t < before.len() {
                        assert(q@[t] == before[t]);
                    }
                }
                assert forall|t: int| 0 <= t < q@.len() implies (#[trigger] q@[t]) < i + 1
                    && indeg@[q@[t] as int] == 0 by {
                    if t < before.len() {
                        assert(q@[t] == before[t]);
                    }
                }
            }
        }
        i += 1;
    }
    proof {
        lemma_unseen(done, done);
        assert(ret@.len() == 0);
    }
    loop
        invariant
            n == g@.len(),
            is_graph(g@),
            sort_state(g@, indeg@, done, q@, ret@),
            unseen(done).finite(),
        ensures
            q@.len() == 0,
            sort_state(g@, indeg@, done, q@, ret@),
        decreases unseen(done).len(),
    {
        let ghost waiting = q@;
        let ghost done0 = done;
        let ghost indeg0 = indeg@;
        let popped = q.pop_front();
        if popped.is_none() {
            break ;
        }
        let v = popped.unwrap();
        proof {
            assert(waiting[0] == v);
            assert(q@ =~= waiting.subrange(1, waiting.len() as int));
            lemma_sort_pop(g@, indeg0, done0, waiting, ret@);
            done = done0.update(v as int, true);
            lemma_unseen(done0, done);
            assert(done[v as int]);
            assert forall|x: int|
                0 <= x < n && !done[x] && #[trigger] indeg@[x] == 0 implies q@.contains(
                x as usize,
            ) by {
                assert(!done0[x]);
                assert(waiting.contains(x as usize));
                let t = choose|t: int| 0 <= t < waiting.len() && waiting[t] == x as usize;
                assert(t >= 1);
                assert(q@[t - 1] == x as usize);
            }
            assert forall|t: int| 0 <= t < q@.len() implies (#[trigger] q@[t]) < n
                && !done[q@[t] as int] && indeg@[q@[t] as int] == 0 by {
                assert(q@[t] == waiting[t + 1]);
                assert(waiting[0] != waiting[t + 1]);
            }
            assert forall|s: int, t: int| 0 <= s < t < q@.len() implies #[trigger] q@[s]
                != #[trigger] q@[t] by {
                assert(q@[s] == waiting[s + 1]);
                assert(q@[t] == waiting[t + 1]);
            }
        }
        let ghost order = ret@.push(v);
        let mut k: usize = 0;
        while k < g[v].len()
            invariant
                n == g@.len(),
                v < n,
                is_graph(g@),
                k <= g@[v as int]@.len(),
                indeg@.len() == n,
                done.len() == n,
                done == done0.update(v as int, true),
                !done0[v as int],
                unseen(done).finite(),
                unseen(done0).finite(),
                unseen(done).len() < unseen(done0).len(),
                count_of(g@[v as int]@, v as int, g@[v as int]@.len() as int) == 0,
                order == ret@.push(v),
                is_sorted_order(g@, done, order),
                forall|x: int|
                    0 <= x < n ==> #[trigger] indeg@[x] == pending_in(g@, done, x, n as int) + count_of(
                        g@[v as int]@,
                        x,
                        g@[v as int]@.len() as int,
                    ) - count_of(g@[v as int]@, x, k as int),
                forall|t: int|
                    0 <= t < q@.len() ==> (#[trigger] q@[t]) < n && !done[q@[t] as int]
                        && indeg@[q@[t] as int] == 0,
                forall|s: int, t: int|
                    0 <= s < t < q@.len() ==> #[trigger] q@[s] != #[trigger] q@[t],
                forall|x: int|
                    0 <= x < n && !done[x] && #[trigger] indeg@[x] == 0 ==> q@.contains(x as usize),
                forall|x: int| 0 <= x < n && #[trigger] done[x] ==> indeg@[x] == 0,
            decreases g@[v as int]@.len() - k,
        {
            let nv = g[v][k];
            let ghost before = indeg@;
            let ghost lined = q@;
            proof {
                assert(g@[v as int]@[k as int] < n);
                lemma_count_of(g@[v as int]@, nv as int, k as int, g@[v as int]@.len() as int);
                lemma_pending_edges(g@, done, nv as int, n as int);
                assert(before[nv as int] >= 1);
            }
            let c = indeg[nv] - 1;
            indeg[nv] = c;
            proof {
                assert(indeg@ =~= before.update(nv as int, c));
                assert(!done[nv as int]);
                assert forall|t: int| 0 <= t < q@.len() implies (#[trigger] q@[t]) != nv by {
                    assert(before[q@[t] as int] == 0);
                }
            }
            if indeg[nv] == 0 {
                q.push_back(nv);
                proof {
                    assert(q@[lined.len() as int] == nv);
                    assert forall|t: int| 0 <= t < q@.len() implies (#[trigger] q@[t]) < n
                        && !done[q@[t] as int] && indeg@[q@[t] as int] == 0 by {
                        if t < lined.len() {
                            assert(q@[t] == lined[t]);
                        }
                    }
                    assert forall|s: int, t: int| 0 <= s < t < q@.len() implies #[trigger] q@[s]
                        != #[trigger] q@[t] by {
                        assert(q@[s] == lined[s]);
                        if t < lined.len() {
                            assert(q@[t] == lined[t]);
                        }
                    }
                }
            }
            proof {
                assert forall|x: int|
                    0 <= x < n && !done[x] && #[trigger] indeg@[x] == 0 implies q@.contains(
                    x as usize,
                ) by {
                    if x == nv {
                        assert(q@[lined.len() as int] == nv);
                    } else {
                        assert(before[x] == 0);
                        let t = choose|t: int| 0 <= t < lined.len() && lined[t] == x as usize;
                        assert(q@[t] == x as usize);
                    }
                }
                assert forall|x: int| 0 <= x < n implies #[trigger] indeg@[x] == pending_in(
                    g@,
                    done,
                    x,
                    n as int,
                ) + count_of(g@[v as int]@, x, g@[v as int]@.len() as int) - count_of(
                    g@[v as int]@,
                    x,
                    k + 1,
                ) by {
                    assert(before[x] == pending_in(g@, done, x, n as int) + count_of(
                        g@[v as int]@,
                        x,
                        g@[v as int]@.len() as int,
                    ) - count_of(g@[v as int]@, x, k as int));
                }
                assert forall|x: int| 0 <= x < n && #[trigger] done[x] implies indeg@[x] == 0 by {
                    assert(before[x] == 0);
                }
            }
            k += 1;
        }
        ret.push(v);
    }
    proof {
        assert forall|x: int| 0 <= x < n implies (ret@.contains(x as usize) <==> #[trigger] indeg@[x]
            == 0) by {
            if ret@.contains(x as usize) {
                let i = choose|i: int| 0 <= i < ret@.len() && ret@[i] == x as usize;
                assert(done[ret@[i] as int]);
            }
            if indeg@[x] == 0 && !done[x] {
                assert(q@.contains(x as usize));
            }
        }
        assert forall|x: int| 0 <= x < n && #[trigger] indeg@[x] != 0 implies exists|
            u: int,
            k: int,
        |
            0 <= u < n && indeg@[u] != 0 && 0 <= k < g@[u]@.len() && #[trigger] g@[u]@[k] == x by {
            lemma_pending_edges(g@, done, x, n as int);
            let (u, k) = choose|u: int, k: int|
                0 <= u < n && !done[u] && 0 <= k < g@[u]@.len() && #[trigger] g@[u]@[k] == x;
            assert(g@[u]@[k] == x);
            if indeg@[u] == 0 {
                assert(q@.contains(u as usize));
            }
        }
    }
    ret
}

/// `rank` falls along every edge of `g` that does not lead to `p`.
pub open spec fn falls_along(g: Seq<Vec<usize>>, p: usize, rank: Seq<nat>) -> bool {
    &&& rank.len() == g.len()
    &&& forall|v: int, k: int|
        0 <= v < g.len() && 0 <= k < g[v]@.len() && (#[trigger] g[v]@[k]) != p ==> rank[g[v]@[k] as int]
            < rank[v]
}

/// The walks of `g` that keep off `p` come to an end: some rank falls along
/// every edge that does not lead to `p`.
pub open spec fn ends_off(g: Seq<Vec<usize>>, p: usize) -> bool {
    exists|rank: Seq<nat>| falls_along(g, p, rank)
}

/// A rank that falls along the edges of `g` that do not lead to `p`.
pub open spec fn rank_off(g: Seq<Vec<usize>>, p: usize) -> Seq<nat> {
    choose|rank: Seq<nat>| falls_along(g, p, rank)
}

/// Walks from `v` along every edge of `g` that does not lead to `p`, depth
/// first, and does nothing else.
pub fn dfs(v: usize, p: usize, g: &[Vec<usize>])
    requires
        is_graph(g@),
        v < g@.len(),
        ends_off(g@, p),
    decreases rank_off(g@, p)[v as int],
{
    let mut k: usize = 0;
    while k < g[v].len()
        invariant
            is_graph(g@),
            v < g@.len(),
            ends_off(g@, p),
            k <= g@[v as int]@.len(),
        decreases g@[v as int]@.len() - k,
    {
        let nv = g[v][k];
        if p == nv {
            k += 1;
            continue ;
        }
        proof {
            assert(g@[v as int]@[k as int] < g@.len());
            assert(falls_along(g@, p, rank_off(g@, p)));
        }
        dfs(nv, p, g);
        k += 1;
    }
}

/// `table` has `n` rows of `n` entries.
pub open spec fn is_square(table: Seq<Vec<isize>>, n: int) -> bool {
    &&& table.len() == n
    &&& forall|i: int| 0 <= i < n ==> (#[trigger] table[i])@.len() == n
}

/// Works out the table of the cheapest ways between all pairs of vertices
/// of `g`, over one vertex in between after the other and with sums that
/// wrap around, and drops it.
pub fn warshall_froyd(g: &[Vec<(isize, usize)>])
    requires
        is_signed_graph(g@),
{
    let n = g.len();
    let mut dist: Vec<Vec<isize>> = Vec::new();
    let mut v: usize = 0;
    while v < n
        invariant
            n == g.len(),
            0 <= v <= n,
            dist@.len() == v,
            forall|i: int| 0 <= i < v ==> (#[trigger] dist@[i])@.len() == n,
        decreases n - v,
    {
        let row: Vec<isize> = vec![isize::MAX; n];
        dist.push(row);
        v += 1;
    }
    v = 0;
    while v < n
        invariant
            n == g.len(),
            0 <= v <= n,
            is_signed_graph(g@),
            is_square(dist@, n as int),
        decreases n - v,
    {
        let mut e: usize = 0;
        while e < g[v].len()
            invariant
                n == g.len(),
                0 <= v < n,
                0 <= e <= g@[v as int]@.len(),
                is_signed_graph(g@),
                is_square(dist@, n as int),
            decreases g@[v as int]@.len() - e,
        {
            let edge = g[v][e];
            let cost = edge.0;
            let nv = edge.1;
            assert(g@[v as int]@[e as int].1 < n);
            if cost < dist[v][nv] {
                dist[v][nv] = cost;
            }
            e += 1;
        }
        v += 1;
    }
    let mut k: usize = 0;
    while k < n
        invariant
            0 <= k <= n,
            is_square(dist@, n as int),
        decreases n - k,
    {
        let mut i: usize = 0;
        while i < n
            invariant
                0 <= k < n,
                0 <= i <= n,
                is_square(dist@, n as int),
            decreases n - i,
        {
            let mut j: usize = 0;
            while j < n
                invariant
                    0 <= k < n,
                    0 <= i < n,
                    0 <= j <= n,
                    is_square(dist@, n as int),
                decreases n - j,
            {
                let through = dist[i][k].wrapping_add(dist[k][j]);
                if through < dist[i][j] {
                    dist[i][j] = through;
                }
                j += 1;
            }
            i += 1;
        }
        k += 1;
    }
}

} // verus!
