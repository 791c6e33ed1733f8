use crate::graph::forest::lemma_bounded_set;
use crate::graph::{
    has_edge, is_graph, leads, lemma_leads_self, lemma_leads_step, lemma_unseen, tour_marks,
    tour_state, unseen,
};
use vstd::prelude::*;

verus! {

/// The edge from `x` to `y` leads to the parent of `x` or to a child of
/// `x`.
pub open spec fn tree_edge(v: int, parent: Seq<int>, x: int, y: int) -> bool {
    (x != v && y == parent[x]) || (y != v && parent[y] == x)
}

/// No vertex stands twice in `list`.
pub open spec fn no_repeats(list: Seq<usize>) -> bool {
    forall|i: int, j: int| 0 <= i < j < list.len() ==> #[trigger] list[i] != #[trigger] list[j]
}

/// `g` is a tree with the root `v`: every other vertex `x` has the parent
/// `parent[x]`, one step nearer to the root, which has an edge to `x`;
/// every edge leads to the parent or to a child; and no list names a
/// vertex twice. `depth` holds the numbers of steps from the root.
pub open spec fn is_rooted_tree(g: Seq<Vec<usize>>, v: int, parent: Seq<int>, depth: Seq<int>) -> bool {
    &&& is_graph(g)
    &&& 0 <= v < g.len()
    &&& parent.len() == g.len()
    &&& depth.len() == g.len()
    &&& depth[v] == 0
    &&& forall|x: int| 0 <= x < g.len() ==> 0 <= #[trigger] depth[x]
    &&& forall|x: int|
        0 <= x < g.len() && x != v ==> 0 <= #[trigger] parent[x] < g.len() && depth[x] == depth[parent[x]]
            + 1 && has_edge(g, parent[x], x)
    &&& forall|x: int, k: int|
        0 <= x < g.len() && 0 <= k < g[x]@.len() ==> tree_edge(v, parent, x, (#[trigger] g[x]@[k]) as int)
    &&& forall|x: int| 0 <= x < g.len() ==> no_repeats(#[trigger] g[x]@)
}

/// `u` is `w` or lies below `w` in the tree.
pub open spec fn below(v: int, parent: Seq<int>, depth: Seq<int>, w: int, u: int) -> bool
    decreases depth[u],
{
    if u == w {
        true
    } else if u != v && 0 <= depth[parent[u]] < depth[u] {
        below(v, parent, depth, w, parent[u])
    } else {
        false
    }
}

/// The times of a walk round the tree: the root is left at the last of
/// the `2 * n` times, and `u` is `w` or lies below `w` where it is entered
/// no earlier and left no later than `w`, and nowhere else.
pub open spec fn nested_in_tree(
    g: Seq<Vec<usize>>,
    v: int,
    parent: Seq<int>,
    depth: Seq<int>,
    v_in: Seq<usize>,
    v_out: Seq<usize>,
) -> bool {
    &&& v_out[v] == 2 * g.len() - 1
    &&& forall|w: int, u: int|
        0 <= w < g.len() && 0 <= u < g.len() ==> (#[trigger] below(v, parent, depth, w, u) <==> v_in[w]
            <= v_in[u] && v_out[u] <= v_out[w])
}

/// The number of entries of `stack` with the mark 1.
pub open spec fn ones(stack: Seq<(usize, usize)>) -> int
    decreases stack.len(),
{
    if stack.len() == 0 {
        0
    } else {
        ones(stack.drop_last()) + if stack.last().0 == 1 {
            1int
        } else {
            0int
        }
    }
}

/// An entry with the mark 2 for `w` lies on the stack before the place
/// `q`.
pub open spec fn held_below(stack: Seq<(usize, usize)>, q: int, w: int) -> bool {
    exists|p: int| 0 <= p < q && (#[trigger] stack[p]).0 == 2 && stack[p].1 == w
}

/// `y` stands in the list of `x` at a place from `k` on.
pub open spec fn listed_from(g: Seq<Vec<usize>>, x: int, k: int, y: int) -> bool {
    exists|j: int| k <= j < g[x]@.len() && #[trigger] g[x]@[j] == y
}

/// The vertices that wait on the stack are not seen.
pub open spec fn waiting_unseen(seen: Seq<bool>, stack: Seq<(usize, usize)>) -> bool {
    forall|q: int| 0 <= q < stack.len() && (#[trigger] stack[q]).0 == 1 ==> !seen[stack[q].1 as int]
}

/// Each vertex on the stack but the root has a seen parent, whose entry
/// with the mark 2 lies below it.
pub open spec fn parents_held(v: int, parent: Seq<int>, seen: Seq<bool>, stack: Seq<(usize, usize)>) -> bool {
    forall|q: int|
        0 <= q < stack.len() && (#[trigger] stack[q]).1 != v ==> seen[parent[stack[q].1 as int]]
            && held_below(stack, q, parent[stack[q].1 as int])
}

/// No vertex is on the stack twice with one mark.
pub open spec fn marks_apart(stack: Seq<(usize, usize)>) -> bool {
    forall|p: int, q: int|
        0 <= p < q < stack.len() && (#[trigger] stack[p]).0 == (#[trigger] stack[q]).0 ==> stack[p].1
            != stack[q].1
}

/// A vertex with the mark 2 on the stack has not been left.
pub open spec fn not_left(stack: Seq<(usize, usize)>, v_out: Seq<usize>) -> bool {
    forall|q: int| 0 <= q < stack.len() && (#[trigger] stack[q]).0 == 2 ==> v_out[stack[q].1 as int] == 0
}

/// What lies on the entry with the mark 2 of a seen vertex lies below
/// that vertex in the tree.
pub open spec fn stack_below(
    v: int,
    parent: Seq<int>,
    depth: Seq<int>,
    seen: Seq<bool>,
    stack: Seq<(usize, usize)>,
) -> bool {
    forall|p: int, q: int|
        0 <= p < q < stack.len() && (#[trigger] stack[p]).0 == 2 && seen[stack[p].1 as int] ==> below(
            v,
            parent,
            depth,
            stack[p].1 as int,
            (#[trigger] stack[q]).1 as int,
        )
}

/// A seen vertex was entered after its parent, and left before it where
/// the parent was left.
pub open spec fn after_parent(
    g: Seq<Vec<usize>>,
    v: int,
    parent: Seq<int>,
    seen: Seq<bool>,
    v_in: Seq<usize>,
    v_out: Seq<usize>,
) -> bool {
    forall|y: int|
        0 <= y < g.len() && #[trigger] seen[y] && y != v ==> seen[parent[y]] && v_in[parent[y]] < v_in[y]
            && (v_out[parent[y]] > 0 ==> 0 < v_out[y] < v_out[parent[y]])
}

/// Of two seen vertices the one entered later lies below the other, or
/// the other was left before.
pub open spec fn later_below(
    g: Seq<Vec<usize>>,
    v: int,
    parent: Seq<int>,
    depth: Seq<int>,
    seen: Seq<bool>,
    v_in: Seq<usize>,
    v_out: Seq<usize>,
) -> bool {
    forall|w: int, u: int|
        0 <= w < g.len() && 0 <= u < g.len() && seen[w] && seen[u] && #[trigger] v_in[w] < #[trigger] v_in[u]
            ==> below(v, parent, depth, w, u) || 0 < v_out[w] < v_in[u]
}

/// The entries taken and those on the stack are two for each vertex seen
/// or waiting; the root lies at the bottom, and is left last.
pub open spec fn counted(
    g: Seq<Vec<usize>>,
    v: int,
    seen: Seq<bool>,
    stack: Seq<(usize, usize)>,
    v_out: Seq<usize>,
    cnt: int,
) -> bool {
    &&& cnt + stack.len() == 2 * (g.len() - unseen(seen).len() + ones(stack))
    &&& stack.len() > 0 ==> stack[0] == (2usize, v as usize)
    &&& stack.len() == 0 && cnt > 0 ==> v_out[v] == cnt - 1
}

/// The state of the walk of `euler_tour` on a tree.
pub open spec fn tree_tour(
    g: Seq<Vec<usize>>,
    v: int,
    parent: Seq<int>,
    depth: Seq<int>,
    seen: Seq<bool>,
    stack: Seq<(usize, usize)>,
    v_in: Seq<usize>,
    v_out: Seq<usize>,
    cnt: int,
) -> bool {
    &&& waiting_unseen(seen, stack)
    &&& parents_held(v, parent, seen, stack)
    &&& marks_apart(stack)
    &&& not_left(stack, v_out)
    &&& stack_below(v, parent, depth, seen, stack)
    &&& after_parent(g, v, parent, seen, v_in, v_out)
    &&& later_below(g, v, parent, depth, seen, v_in, v_out)
    &&& counted(g, v, seen, stack, v_out, cnt)
}

/// What is given when an entry with the mark 1 for `x` was taken off the
/// stack `stack` of a walk on a tree and `now` is the stack with the
/// entries for the neighbours of `x` that are not seen.
pub open spec fn entering(
    g: Seq<Vec<usize>>,
    v: int,
    parent: Seq<int>,
    depth: Seq<int>,
    seen: Seq<bool>,
    stack: Seq<(usize, usize)>,
    v_in: Seq<usize>,
    v_out: Seq<usize>,
    cnt: int,
    x: usize,
    now: Seq<(usize, usize)>,
) -> bool {
    &&& is_rooted_tree(g, v, parent, depth)
    &&& g.len() <= usize::MAX
    &&& tour_state(g, seen, stack, v_in, v_out, cnt)
    &&& tour_marks(g, v, seen, stack, v_in, v_out, cnt)
    &&& tree_tour(g, v, parent, depth, seen, stack, v_in, v_out, cnt)
    &&& 0 <= cnt < usize::MAX
    &&& x < g.len()
    &&& stack.len() >= 1
    &&& stack.last() == (1usize, x)
    &&& now.len() >= stack.len() - 1
    &&& forall|p: int| 0 <= p < stack.len() - 1 ==> #[trigger] now[p] == stack[p]
    &&& forall|q: int|
        stack.len() - 1 <= q < now.len() ==> (#[trigger] now[q]).1 < g.len() && now[q].1 != x
            && !seen[now[q].1 as int] && listed_from(g, x as int, 0, now[q].1 as int)
    &&& no_repeats(g[x as int]@) ==> forall|p: int, q: int|
        stack.len() - 1 <= p < q < now.len() && (#[trigger] now[p]).0 == (#[trigger] now[q]).0
            ==> now[p].1 != now[q].1
    &&& 2 * (ones(now) - ones(stack.drop_last())) == now.len() - (stack.len() - 1)
}

/// What else holds then: `x` was not seen, its entry with the mark 2 lies
/// under the entry taken, and every vertex put on the stack is a child of
/// `x`.
pub open spec fn entering_more(
    g: Seq<Vec<usize>>,
    v: int,
    parent: Seq<int>,
    depth: Seq<int>,
    seen: Seq<bool>,
    stack: Seq<(usize, usize)>,
    x: usize,
    now: Seq<(usize, usize)>,
) -> bool {
    &&& !seen[x as int]
    &&& stack.len() >= 2
    &&& stack[stack.len() - 2] == (2usize, x)
    &&& stack[stack.len() - 1] == (1usize, x)
    &&& now[stack.len() - 2] == (2usize, x)
    &&& forall|q: int|
        stack.len() - 1 <= q < now.len() ==> (#[trigger] now[q]).1 != v && parent[now[q].1 as int] == x
            && 0 <= depth[x as int] < depth[now[q].1 as int]
}

/// Seeing one more vertex leaves one fewer unseen.
pub proof fn lemma_unseen_one(seen: Seq<bool>, x: int)
    requires
        0 <= x < seen.len(),
        !seen[x],
    ensures
        unseen(seen).finite(),
        unseen(seen.update(x, true)).finite(),
        unseen(seen.update(x, true)).len() + 1 == unseen(seen).len(),
{
    lemma_bounded_set(unseen(seen), seen.len() as int);
    lemma_bounded_set(unseen(seen.update(x, true)), seen.len() as int);
    assert(unseen(seen.update(x, true)).insert(x) =~= unseen(seen));
}

/// The root of a tree leads to every vertex.
pub proof fn lemma_tree_leads(g: Seq<Vec<usize>>, v: int, parent: Seq<int>, depth: Seq<int>, x: int)
    requires
        is_rooted_tree(g, v, parent, depth),
        0 <= x < g.len(),
    ensures
        leads(g, v, x),
    decreases depth[x],
{
    if x == v {
        lemma_leads_self(g, v);
    } else {
        let p = parent[x];
        assert(0 <= depth[p]);
        lemma_tree_leads(g, v, parent, depth, p);
        let k = choose|k: int| 0 <= k < g[p]@.len() && #[trigger] g[p]@[k] == x;
        lemma_leads_step(g, v, p, k);
    }
}

/// What lies below a vertex lies below the vertices above it.
pub proof fn lemma_below_child(v: int, parent: Seq<int>, depth: Seq<int>, w: int, y: int)
    requires
        y != v,
        0 <= depth[parent[y]] < depth[y],
        below(v, parent, depth, w, parent[y]),
    ensures
        below(v, parent, depth, w, y),
{
}

/// At the start, with the root waiting on the stack, the state is that of
/// a walk on a tree.
pub proof fn lemma_tree_start(
    g: Seq<Vec<usize>>,
    v: usize,
    parent: Seq<int>,
    depth: Seq<int>,
    seen: Seq<bool>,
    stack: Seq<(usize, usize)>,
    v_in: Seq<usize>,
    v_out: Seq<usize>,
)
    requires
        is_rooted_tree(g, v as int, parent, depth),
        seen.len() == g.len(),
        v_in.len() == g.len(),
        v_out.len() == g.len(),
        forall|x: int| 0 <= x < g.len() ==> !seen[x] && v_in[x] == 0 && v_out[x] == 0,
        stack.len() == 2,
        stack[0] == (2usize, v),
        stack[1] == (1usize, v),
    ensures
        tree_tour(g, v as int, parent, depth, seen, stack, v_in, v_out, 0),
{
    lemma_bounded_set(unseen(seen), g.len() as int);
    vstd::set_lib::lemma_int_range(0, g.len() as int);
    assert(unseen(seen) =~= vstd::set_lib::set_int_range(0, g.len() as int));
    let one = stack.drop_last();
    assert(one.len() == 1 && one.last() == (2usize, v));
    assert(one.drop_last().len() == 0);
    assert(ones(one.drop_last()) == 0);
    assert(ones(one) == 0);
    assert(stack.last() == (1usize, v));
    assert(ones(stack) == 1);
}

/// Every vertex put on the stack when `x` is entered is a child of `x`.
proof fn lemma_enter_children(
    g: Seq<Vec<usize>>,
    v: int,
    parent: Seq<int>,
    depth: Seq<int>,
    seen: Seq<bool>,
    stack: Seq<(usize, usize)>,
    v_in: Seq<usize>,
    v_out: Seq<usize>,
    cnt: int,
    x: usize,
    now: Seq<(usize, usize)>,
)
    requires
        entering(g, v, parent, depth, seen, stack, v_in, v_out, cnt, x, now),
    ensures
        entering_more(g, v, parent, depth, seen, stack, x, now),
{
    let base = stack.len() - 1;
    let xi = x as int;
    assert(stack[base] == (1usize, x));
    assert(!seen[xi]);
    assert(base >= 1 && stack[base - 1] == (2usize, x));
    assert(now[base - 1] == stack[base - 1]);
    assert(no_repeats(g[xi]@));
    assert forall|q: int| base <= q < now.len() implies (#[trigger] now[q]).1 != v && parent[now[q].1 as int]
        == xi && 0 <= depth[xi] < depth[now[q].1 as int] by {
        let y = now[q].1 as int;
        let j = choose|j: int| 0 <= j < g[xi]@.len() && #[trigger] g[xi]@[j] == y;
        assert(tree_edge(v, parent, xi, g[xi]@[j] as int));
        if xi != v && y == parent[xi] {
            assert(seen[parent[stack[base].1 as int]]);
        }
    }
}

/// The vertices that wait are still not seen.
proof fn lemma_enter_waiting(
    g: Seq<Vec<usize>>,
    v: int,
    parent: Seq<int>,
    depth: Seq<int>,
    seen: Seq<bool>,
    stack: Seq<(usize, usize)>,
    v_in: Seq<usize>,
    v_out: Seq<usize>,
    cnt: int,
    x: usize,
    now: Seq<(usize, usize)>,
)
    requires
        entering(g, v, parent, depth, seen, stack, v_in, v_out, cnt, x, now),
        entering_more(g, v, parent, depth, seen, stack, x, now),
    ensures
        waiting_unseen(seen.update(x as int, true), now),
{
    let seen2 = seen.update(x as int, true);
    let in2 = v_in.update(x as int, cnt as usize);
    let base = stack.len() - 1;
    let xi = x as int;
    assert forall|q: int| 0 <= q < now.len() && (#[trigger] now[q]).0 == 1 implies !seen2[now[q].1 as int] by {
        if q < base {
            assert(now[q] == stack[q]);
            assert(stack[q].0 == stack[base].0);
        }
    }
}

/// The parents of the vertices on the stack are still held.
proof fn lemma_enter_held(
    g: Seq<Vec<usize>>,
    v: int,
    parent: Seq<int>,
    depth: Seq<int>,
    seen: Seq<bool>,
    stack: Seq<(usize, usize)>,
    v_in: Seq<usize>,
    v_out: Seq<usize>,
    cnt: int,
    x: usize,
    now: Seq<(usize, usize)>,
)
    requires
        entering(g, v, parent, depth, seen, stack, v_in, v_out, cnt, x, now),
        entering_more(g, v, parent, depth, seen, stack, x, now),
    ensures
        parents_held(v, parent, seen.update(x as int, true), now),
{
    let seen2 = seen.update(x as int, true);
    let in2 = v_in.update(x as int, cnt as usize);
    let base = stack.len() - 1;
    let xi = x as int;
    assert forall|q: int| 0 <= q < now.len() && (#[trigger] now[q]).1 != v implies seen2[parent[now[q].1 as int]]
        && held_below(now, q, parent[now[q].1 as int]) by {
        if q < base {
            assert(now[q] == stack[q]);
            let w = parent[stack[q].1 as int];
            assert(held_below(stack, q, w));
            let p = choose|p: int| 0 <= p < q && (#[trigger] stack[p]).0 == 2 && stack[p].1 == w;
            assert(now[p] == stack[p]);
        } else {
            assert(now[base - 1].0 == 2 && now[base - 1].1 == xi);
        }
    }
}

/// No vertex is on the stack twice with one mark.
proof fn lemma_enter_apart(
    g: Seq<Vec<usize>>,
    v: int,
    parent: Seq<int>,
    depth: Seq<int>,
    seen: Seq<bool>,
    stack: Seq<(usize, usize)>,
    v_in: Seq<usize>,
    v_out: Seq<usize>,
    cnt: int,
    x: usize,
    now: Seq<(usize, usize)>,
)
    requires
        entering(g, v, parent, depth, seen, stack, v_in, v_out, cnt, x, now),
        entering_more(g, v, parent, depth, seen, stack, x, now),
    ensures
        marks_apart(now),
{
    let seen2 = seen.update(x as int, true);
    let in2 = v_in.update(x as int, cnt as usize);
    let base = stack.len() - 1;
    let xi = x as int;
    assert(no_repeats(g[xi]@));
    assert forall|p: int, q: int|
        0 <= p < q < now.len() && (#[trigger] now[p]).0 == (#[trigger] now[q]).0 implies now[p].1
        != now[q].1 by {
        if q < base {
            assert(now[p] == stack[p] && now[q] == stack[q]);
        } else if p < base {
            assert(now[p] == stack[p]);
            if now[p].1 == now[q].1 {
                assert(seen[parent[stack[p].1 as int]]);
            }
        }
    }
}

/// The vertices with the mark 2 on the stack have not been left.
proof fn lemma_enter_not_left(
    g: Seq<Vec<usize>>,
    v: int,
    parent: Seq<int>,
    depth: Seq<int>,
    seen: Seq<bool>,
    stack: Seq<(usize, usize)>,
    v_in: Seq<usize>,
    v_out: Seq<usize>,
    cnt: int,
    x: usize,
    now: Seq<(usize, usize)>,
)
    requires
        entering(g, v, parent, depth, seen, stack, v_in, v_out, cnt, x, now),
        entering_more(g, v, parent, depth, seen, stack, x, now),
    ensures
        not_left(now, v_out),
{
    let seen2 = seen.update(x as int, true);
    let in2 = v_in.update(x as int, cnt as usize);
    let base = stack.len() - 1;
    let xi = x as int;
    assert forall|q: int| 0 <= q < now.len() && (#[trigger] now[q]).0 == 2 implies v_out[now[q].1 as int]
        == 0 by {
        if q < base {
            assert(now[q] == stack[q]);
        }
    }
}

/// What lies on the entry of a seen vertex lies below it.
proof fn lemma_enter_below(
    g: Seq<Vec<usize>>,
    v: int,
    parent: Seq<int>,
    depth: Seq<int>,
    seen: Seq<bool>,
    stack: Seq<(usize, usize)>,
    v_in: Seq<usize>,
    v_out: Seq<usize>,
    cnt: int,
    x: usize,
    now: Seq<(usize, usize)>,
)
    requires
        entering(g, v, parent, depth, seen, stack, v_in, v_out, cnt, x, now),
        entering_more(g, v, parent, depth, seen, stack, x, now),
    ensures
        stack_below(v, parent, depth, seen.update(x as int, true), now),
{
    let seen2 = seen.update(x as int, true);
    let in2 = v_in.update(x as int, cnt as usize);
    let base = stack.len() - 1;
    let xi = x as int;
    assert forall|p: int, q: int|
        0 <= p < q < now.len() && (#[trigger] now[p]).0 == 2 && seen2[now[p].1 as int] implies below(
        v,
        parent,
        depth,
        now[p].1 as int,
        (#[trigger] now[q]).1 as int,
    ) by {
        assert(p < base);
        assert(now[p] == stack[p]);
        let w = stack[p].1 as int;
        if w == xi {
            if p < base - 1 {
                assert(stack[p].0 == stack[base - 1].0);
            }
            assert(q >= base);
            assert(below(v, parent, depth, xi, xi));
            lemma_below_child(v, parent, depth, xi, now[q].1 as int);
        } else if q < base {
            assert(now[q] == stack[q]);
        } else {
            assert(below(v, parent, depth, stack[p].1 as int, stack[base].1 as int));
            lemma_below_child(v, parent, depth, w, now[q].1 as int);
        }
    }
}

/// Every seen vertex was entered after its parent.
proof fn lemma_enter_after(
    g: Seq<Vec<usize>>,
    v: int,
    parent: Seq<int>,
    depth: Seq<int>,
    seen: Seq<bool>,
    stack: Seq<(usize, usize)>,
    v_in: Seq<usize>,
    v_out: Seq<usize>,
    cnt: int,
    x: usize,
    now: Seq<(usize, usize)>,
)
    requires
        entering(g, v, parent, depth, seen, stack, v_in, v_out, cnt, x, now),
        entering_more(g, v, parent, depth, seen, stack, x, now),
    ensures
        after_parent(g, v, parent, seen.update(x as int, true), v_in.update(x as int, cnt as usize), v_out),
{
    let seen2 = seen.update(x as int, true);
    let in2 = v_in.update(x as int, cnt as usize);
    let base = stack.len() - 1;
    let xi = x as int;
    assert forall|y: int| 0 <= y < g.len() && #[trigger] seen2[y] && y != v implies seen2[parent[y]]
        && in2[parent[y]] < in2[y] && (v_out[parent[y]] > 0 ==> 0 < v_out[y] < v_out[parent[y]]) by {
        if y == xi {
            let pp = parent[xi];
            assert(seen[parent[stack[base].1 as int]]);
            assert(held_below(stack, base, pp));
            let p = choose|p: int| 0 <= p < base && (#[trigger] stack[p]).0 == 2 && stack[p].1 == pp;
            assert(v_out[stack[p].1 as int] == 0);
            assert(v_in[pp] == 0 || v_in[pp] < cnt);
        } else {
            assert(seen[y]);
            assert(seen[parent[y]]);
        }
    }
}

/// Of two seen vertices the later lies below the other, or the other was
/// left, also when `x` has been entered.
proof fn lemma_enter_later(
    g: Seq<Vec<usize>>,
    v: int,
    parent: Seq<int>,
    depth: Seq<int>,
    seen: Seq<bool>,
    stack: Seq<(usize, usize)>,
    v_in: Seq<usize>,
    v_out: Seq<usize>,
    cnt: int,
    x: usize,
)
    requires
        later_below(g, v, parent, depth, seen, v_in, v_out),
        stack_below(v, parent, depth, seen, stack),
        g.len() <= usize::MAX,
        seen.len() == g.len(),
        v_in.len() == g.len(),
        v_out.len() == g.len(),
        x < g.len(),
        !seen[x as int],
        stack.len() >= 1,
        stack.last() == (1usize, x),
        0 <= cnt < usize::MAX,
        forall|y: int|
            0 <= y < g.len() ==> ((#[trigger] v_in[y]) == 0 || v_in[y] < cnt) && (v_out[y] == 0
                || v_out[y] < cnt),
        forall|y: int|
            0 <= y < g.len() ==> (#[trigger] v_in[y]) < v_out[y] || (v_in[y] == 0 && v_out[y] == 0
                && !seen[y]) || stack.contains((2usize, y as usize)),
    ensures
        later_below(g, v, parent, depth, seen.update(x as int, true), v_in.update(x as int, cnt as usize), v_out),
{
    let seen2 = seen.update(x as int, true);
    let in2 = v_in.update(x as int, cnt as usize);
    let base = stack.len() - 1;
    let xi = x as int;
    assert forall|w: int, u: int|
        0 <= w < g.len() && 0 <= u < g.len() && seen2[w] && seen2[u] && #[trigger] in2[w] < #[trigger] in2[u] implies below(
        v,
        parent,
        depth,
        w,
        u,
    ) || 0 < v_out[w] < in2[u] by {
        if u == xi {
            assert(w != xi);
            assert(seen[w]);
            if stack.contains((2usize, w as usize)) {
                let p = choose|p: int| 0 <= p < stack.len() && stack[p] == (2usize, w as usize);
                assert(p < base);
                assert(below(v, parent, depth, stack[p].1 as int, stack[base].1 as int));
            } else {
                assert(v_in[w] < v_out[w] || (v_in[w] == 0 && v_out[w] == 0 && !seen[w]));
                assert(v_in[w] == 0 || v_in[w] < cnt);
                assert(v_out[w] < cnt);
            }
        } else if w == xi {
            assert(v_in[u] == 0 || v_in[u] < cnt);
        } else {
            assert(in2[w] == v_in[w] && in2[u] == v_in[u]);
            assert(below(v, parent, depth, w, u) || 0 < v_out[w] < v_in[u]);
        }
    }
}

/// The entries are still two for each vertex seen or waiting.
proof fn lemma_enter_counted(
    g: Seq<Vec<usize>>,
    v: int,
    parent: Seq<int>,
    depth: Seq<int>,
    seen: Seq<bool>,
    stack: Seq<(usize, usize)>,
    v_in: Seq<usize>,
    v_out: Seq<usize>,
    cnt: int,
    x: usize,
    now: Seq<(usize, usize)>,
)
    requires
        entering(g, v, parent, depth, seen, stack, v_in, v_out, cnt, x, now),
        entering_more(g, v, parent, depth, seen, stack, x, now),
    ensures
        counted(g, v, seen.update(x as int, true), now, v_out, cnt + 1),
{
    let seen2 = seen.update(x as int, true);
    let in2 = v_in.update(x as int, cnt as usize);
    let base = stack.len() - 1;
    let xi = x as int;
    lemma_unseen_one(seen, xi);
    assert(stack.drop_last().len() == base);
    assert(ones(stack) == ones(stack.drop_last()) + 1);
    assert(now[0] == stack[0]);
}

/// The state after an entry with the mark 1 for `x` was taken off the
/// stack, `x` was noted as seen and as entered at the time `cnt`, and
/// entries for the neighbours of `x` that are not seen were put on the
/// stack.
pub proof fn lemma_tree_enter(
    g: Seq<Vec<usize>>,
    v: int,
    parent: Seq<int>,
    depth: Seq<int>,
    seen: Seq<bool>,
    stack: Seq<(usize, usize)>,
    v_in: Seq<usize>,
    v_out: Seq<usize>,
    cnt: int,
    x: usize,
    now: Seq<(usize, usize)>,
)
    requires
        entering(g, v, parent, depth, seen, stack, v_in, v_out, cnt, x, now),
    ensures
        tree_tour(
            g,
            v,
            parent,
            depth,
            seen.update(x as int, true),
            now,
            v_in.update(x as int, cnt as usize),
            v_out,
            cnt + 1,
        ),
{
    lemma_enter_children(g, v, parent, depth, seen, stack, v_in, v_out, cnt, x, now);
    lemma_enter_waiting(g, v, parent, depth, seen, stack, v_in, v_out, cnt, x, now);
    lemma_enter_held(g, v, parent, depth, seen, stack, v_in, v_out, cnt, x, now);
    lemma_enter_apart(g, v, parent, depth, seen, stack, v_in, v_out, cnt, x, now);
    lemma_enter_not_left(g, v, parent, depth, seen, stack, v_in, v_out, cnt, x, now);
    lemma_enter_below(g, v, parent, depth, seen, stack, v_in, v_out, cnt, x, now);
    lemma_enter_after(g, v, parent, depth, seen, stack, v_in, v_out, cnt, x, now);
    lemma_enter_later(g, v, parent, depth, seen, stack, v_in, v_out, cnt, x);
    lemma_enter_counted(g, v, parent, depth, seen, stack, v_in, v_out, cnt, x, now);
}

/// What is given when an entry with the mark 2 for `x` is taken off the
/// stack of a walk on a tree.
pub open spec fn leaving(
    g: Seq<Vec<usize>>,
    v: int,
    parent: Seq<int>,
    depth: Seq<int>,
    seen: Seq<bool>,
    stack: Seq<(usize, usize)>,
    v_in: Seq<usize>,
    v_out: Seq<usize>,
    cnt: int,
    x: usize,
) -> bool {
    &&& is_rooted_tree(g, v, parent, depth)
    &&& g.len() <= usize::MAX
    &&& tour_state(g, seen, stack, v_in, v_out, cnt)
    &&& tour_marks(g, v, seen, stack, v_in, v_out, cnt)
    &&& tree_tour(g, v, parent, depth, seen, stack, v_in, v_out, cnt)
    &&& 0 < cnt < usize::MAX
    &&& x < g.len()
    &&& seen[x as int]
    &&& stack.len() >= 1
    &&& stack.last() == (2usize, x)
}

/// The stack without its last entry keeps what holds of the places on it.
proof fn lemma_leave_stack(
    g: Seq<Vec<usize>>,
    v: int,
    parent: Seq<int>,
    depth: Seq<int>,
    seen: Seq<bool>,
    stack: Seq<(usize, usize)>,
    v_in: Seq<usize>,
    v_out: Seq<usize>,
    cnt: int,
    x: usize,
)
    requires
        leaving(g, v, parent, depth, seen, stack, v_in, v_out, cnt, x),
    ensures
        waiting_unseen(seen, stack.drop_last()),
        parents_held(v, parent, seen, stack.drop_last()),
        marks_apart(stack.drop_last()),
        not_left(stack.drop_last(), v_out.update(x as int, cnt as usize)),
        stack_below(v, parent, depth, seen, stack.drop_last()),
        counted(g, v, seen, stack.drop_last(), v_out.update(x as int, cnt as usize), cnt + 1),
{
    let now = stack.drop_last();
    let out2 = v_out.update(x as int, cnt as usize);
    let top = stack.len() - 1;
    let xi = x as int;
    assert(stack[top] == (2usize, x));
    assert forall|q: int| 0 <= q < now.len() implies #[trigger] now[q] == stack[q] by {}
    assert forall|q: int| 0 <= q < now.len() && (#[trigger] now[q]).1 != v implies seen[parent[now[q].1 as int]]
        && held_below(now, q, parent[now[q].1 as int]) by {
        assert(now[q] == stack[q]);
        let w = parent[stack[q].1 as int];
        assert(held_below(stack, q, w));
        let p = choose|p: int| 0 <= p < q && (#[trigger] stack[p]).0 == 2 && stack[p].1 == w;
        assert(now[p] == stack[p]);
    }
    assert forall|q: int| 0 <= q < now.len() && (#[trigger] now[q]).0 == 2 implies out2[now[q].1 as int]
        == 0 by {
        assert(now[q] == stack[q]);
        assert(stack[q].0 == stack[top].0);
    }
    assert forall|p: int, q: int|
        0 <= p < q < now.len() && (#[trigger] now[p]).0 == 2 && seen[now[p].1 as int] implies below(
        v,
        parent,
        depth,
        now[p].1 as int,
        (#[trigger] now[q]).1 as int,
    ) by {
        assert(now[p] == stack[p] && now[q] == stack[q]);
    }
    assert forall|p: int, q: int|
        0 <= p < q < now.len() && (#[trigger] now[p]).0 == (#[trigger] now[q]).0 implies now[p].1
        != now[q].1 by {
        assert(now[p] == stack[p] && now[q] == stack[q]);
    }
    assert(ones(stack) == ones(now));
    if now.len() == 0 {
        assert(stack[0] == (2usize, v as usize));
    } else {
        assert(now[0] == stack[0]);
    }
}

/// A seen vertex was left before its parent, also when `x` has been left.
proof fn lemma_leave_after(
    g: Seq<Vec<usize>>,
    v: int,
    parent: Seq<int>,
    depth: Seq<int>,
    seen: Seq<bool>,
    stack: Seq<(usize, usize)>,
    v_in: Seq<usize>,
    v_out: Seq<usize>,
    cnt: int,
    x: usize,
)
    requires
        is_rooted_tree(g, v, parent, depth),
        g.len() <= usize::MAX,
        after_parent(g, v, parent, seen, v_in, v_out),
        parents_held(v, parent, seen, stack),
        marks_apart(stack),
        not_left(stack, v_out),
        seen.len() == g.len(),
        v_in.len() == g.len(),
        v_out.len() == g.len(),
        0 < cnt < usize::MAX,
        x < g.len(),
        stack.len() >= 1,
        stack.last() == (2usize, x),
        forall|y: int|
            0 <= y < g.len() ==> ((#[trigger] v_in[y]) == 0 || v_in[y] < cnt) && (v_out[y] == 0
                || v_out[y] < cnt),
        forall|y: int|
            0 <= y < g.len() ==> (#[trigger] v_in[y]) < v_out[y] || (v_in[y] == 0 && v_out[y] == 0
                && !seen[y]) || stack.contains((2usize, y as usize)),
    ensures
        after_parent(g, v, parent, seen, v_in, v_out.update(x as int, cnt as usize)),
{
    let out2 = v_out.update(x as int, cnt as usize);
    let top = stack.len() - 1;
    let xi = x as int;
    assert(stack[top] == (2usize, x));
    assert forall|y: int| 0 <= y < g.len() && #[trigger] seen[y] && y != v implies seen[parent[y]]
        && v_in[parent[y]] < v_in[y] && (out2[parent[y]] > 0 ==> 0 < out2[y] < out2[parent[y]]) by {
        let pp = parent[y];
        assert(seen[pp] && v_in[pp] < v_in[y]);
        assert(0 <= pp < g.len() && depth[y] == depth[pp] + 1);
        if pp == xi {
            if stack.contains((2usize, y as usize)) {
                let q = choose|q: int| 0 <= q < stack.len() && stack[q] == (2usize, y as usize);
                assert(stack[q].1 != v);
                assert(held_below(stack, q, parent[stack[q].1 as int]));
                let p = choose|p: int| 0 <= p < q && (#[trigger] stack[p]).0 == 2 && stack[p].1 == xi;
                assert(stack[p].0 == stack[top].0);
            } else {
                assert(v_in[y] < v_out[y] || (v_in[y] == 0 && v_out[y] == 0 && !seen[y]));
                assert(v_in[y] == 0 || v_in[y] < cnt);
            }
        } else if y == xi {
            assert(stack[top].1 != v);
            assert(held_below(stack, top, parent[stack[top].1 as int]));
            let p = choose|p: int| 0 <= p < top && (#[trigger] stack[p]).0 == 2 && stack[p].1 == pp;
            assert(v_out[stack[p].1 as int] == 0);
        }
    }
}

/// Of two seen vertices the later lies below the other, or the other was
/// left, also when `x` has been left.
proof fn lemma_leave_later(
    g: Seq<Vec<usize>>,
    v: int,
    parent: Seq<int>,
    depth: Seq<int>,
    seen: Seq<bool>,
    stack: Seq<(usize, usize)>,
    v_in: Seq<usize>,
    v_out: Seq<usize>,
    cnt: int,
    x: usize,
)
    requires
        later_below(g, v, parent, depth, seen, v_in, v_out),
        not_left(stack, v_out),
        seen.len() == g.len(),
        v_in.len() == g.len(),
        v_out.len() == g.len(),
        0 < cnt < usize::MAX,
        x < g.len(),
        stack.len() >= 1,
        stack.last() == (2usize, x),
    ensures
        later_below(g, v, parent, depth, seen, v_in, v_out.update(x as int, cnt as usize)),
{
    let out2 = v_out.update(x as int, cnt as usize);
    let top = stack.len() - 1;
    assert(stack[top] == (2usize, x));
    assert(v_out[stack[top].1 as int] == 0);
    assert forall|w: int, u: int|
        0 <= w < g.len() && 0 <= u < g.len() && seen[w] && seen[u] && #[trigger] v_in[w] < #[trigger] v_in[u] implies below(
        v,
        parent,
        depth,
        w,
        u,
    ) || 0 < out2[w] < v_in[u] by {
        assert(below(v, parent, depth, w, u) || 0 < v_out[w] < v_in[u]);
    }
}

/// The state after an entry with the mark 2 for `x` was taken off the
/// stack and `x` was noted as left at the time `cnt`.
pub proof fn lemma_tree_leave(
    g: Seq<Vec<usize>>,
    v: int,
    parent: Seq<int>,
    depth: Seq<int>,
    seen: Seq<bool>,
    stack: Seq<(usize, usize)>,
    v_in: Seq<usize>,
    v_out: Seq<usize>,
    cnt: int,
    x: usize,
)
    requires
        leaving(g, v, parent, depth, seen, stack, v_in, v_out, cnt, x),
    ensures
        tree_tour(
            g,
            v,
            parent,
            depth,
            seen,
            stack.drop_last(),
            v_in,
            v_out.update(x as int, cnt as usize),
            cnt + 1,
        ),
{
    lemma_leave_stack(g, v, parent, depth, seen, stack, v_in, v_out, cnt, x);
    lemma_leave_after(g, v, parent, depth, seen, stack, v_in, v_out, cnt, x);
    lemma_leave_later(g, v, parent, depth, seen, stack, v_in, v_out, cnt, x);
}

/// In a tree a vertex is entered no earlier and left no later than the
/// vertices below it.
pub proof fn lemma_below_nested(
    g: Seq<Vec<usize>>,
    v: int,
    parent: Seq<int>,
    depth: Seq<int>,
    seen: Seq<bool>,
    stack: Seq<(usize, usize)>,
    v_in: Seq<usize>,
    v_out: Seq<usize>,
    cnt: int,
    w: int,
    u: int,
)
    requires
        is_rooted_tree(g, v, parent, depth),
        tree_tour(g, v, parent, depth, seen, stack, v_in, v_out, cnt),
        forall|x: int| 0 <= x < g.len() ==> seen[x] && v_out[x] > 0,
        0 <= w < g.len(),
        0 <= u < g.len(),
        below(v, parent, depth, w, u),
    ensures
        v_in[w] <= v_in[u],
        v_out[u] <= v_out[w],
    decreases depth[u],
{
    if u != w {
        let p = parent[u];
        assert(0 <= p < g.len());
        lemma_below_nested(g, v, parent, depth, seen, stack, v_in, v_out, cnt, w, p);
        assert(seen[u]);
        assert(v_out[p] > 0);
    }
}

/// At the end of the walk on a tree the times are nested as the tree is.
pub proof fn lemma_tree_end(
    g: Seq<Vec<usize>>,
    v: int,
    parent: Seq<int>,
    depth: Seq<int>,
    seen: Seq<bool>,
    stack: Seq<(usize, usize)>,
    v_in: Seq<usize>,
    v_out: Seq<usize>,
    cnt: int,
)
    requires
        is_rooted_tree(g, v, parent, depth),
        tour_state(g, seen, stack, v_in, v_out, cnt),
        tour_marks(g, v, seen, stack, v_in, v_out, cnt),
        tree_tour(g, v, parent, depth, seen, stack, v_in, v_out, cnt),
        stack.len() == 0,
        cnt > 0,
        forall|x: int| 0 <= x < g.len() ==> (#[trigger] v_out[x] > 0 <==> leads(g, v, x)),
        forall|x: int| 0 <= x < g.len() ==> (#[trigger] v_out[x] > 0 <==> seen[x]),
    ensures
        nested_in_tree(g, v, parent, depth, v_in, v_out),
{
    assert forall|x: int| 0 <= x < g.len() implies seen[x] && v_out[x] > 0 by {
        lemma_tree_leads(g, v, parent, depth, x);
        assert(v_out[x] > 0);
    }
    lemma_bounded_set(unseen(seen), g.len() as int);
    assert(unseen(seen) =~= Set::<int>::empty());
    assert(ones(stack) == 0);
    assert forall|w: int, u: int| 0 <= w < g.len() && 0 <= u < g.len() implies (#[trigger] below(
        v,
        parent,
        depth,
        w,
        u,
    ) <==> v_in[w] <= v_in[u] && v_out[u] <= v_out[w]) by {
        if below(v, parent, depth, w, u) {
            lemma_below_nested(g, v, parent, depth, seen, stack, v_in, v_out, cnt, w, u);
        }
        if v_in[w] <= v_in[u] && v_out[u] <= v_out[w] && w != u {
            assert(seen[w] && seen[u]);
            assert(v_in[w] != v_in[u]);
            assert(v_in[w] < v_in[u]);
            assert(below(v, parent, depth, w, u) || 0 < v_out[w] < v_in[u]);
            assert(v_in[u] < v_out[u] || (v_in[u] == 0 && v_out[u] == 0 && !seen[u]) || stack.contains(
                (2usize, u as usize),
            ));
        }
    }
}

/// The entries of `stack` from the place `lower` on are pairs for
/// neighbours of `x` that stand in its list from the place `k` on, for
/// different neighbours where the list names none twice.
pub open spec fn pushed_apart(g: Seq<Vec<usize>>, x: int, k: int, lower: int, stack: Seq<(usize, usize)>) -> bool {
    &&& 0 <= lower <= stack.len()
    &&& forall|q: int| lower <= q < stack.len() ==> listed_from(g, x, k, (#[trigger] stack[q]).1 as int)
    &&& no_repeats(g[x]@) ==> forall|p: int, q: int|
        lower <= p < q < stack.len() && (#[trigger] stack[p]).0 == (#[trigger] stack[q]).0 ==> stack[p].1
            != stack[q].1
    &&& 2 * (ones(stack) - ones(stack.take(lower))) == stack.len() - lower
}

/// Nothing has been put on the stack.
pub proof fn lemma_pushed_none(g: Seq<Vec<usize>>, x: int, k: int, stack: Seq<(usize, usize)>)
    ensures
        pushed_apart(g, x, k, stack.len() as int, stack),
{
    assert(stack.take(stack.len() as int) =~= stack);
}

/// A neighbour was passed over.
pub proof fn lemma_pushed_skip(g: Seq<Vec<usize>>, x: int, k: int, lower: int, stack: Seq<(usize, usize)>)
    requires
        pushed_apart(g, x, k + 1, lower, stack),
    ensures
        pushed_apart(g, x, k, lower, stack),
{
    assert forall|q: int| lower <= q < stack.len() implies listed_from(g, x, k, (#[trigger] stack[q]).1 as int) by {
        let y = stack[q].1 as int;
        assert(listed_from(g, x, k + 1, y));
        let j = choose|j: int| k + 1 <= j < g[x]@.len() && #[trigger] g[x]@[j] == y;
        assert(k <= j < g[x]@.len() && g[x]@[j] == y);
    }
}

/// The pair for the neighbour at the place `k` was put on the stack.
pub proof fn lemma_pushed_pair(
    g: Seq<Vec<usize>>,
    x: int,
    k: int,
    lower: int,
    stack: Seq<(usize, usize)>,
    nv: usize,
)
    requires
        pushed_apart(g, x, k + 1, lower, stack),
        0 <= k < g[x]@.len(),
        g[x]@[k] == nv,
    ensures
        pushed_apart(g, x, k, lower, stack.push((2usize, nv)).push((1usize, nv))),
{
    let one = stack.push((2usize, nv));
    let two = one.push((1usize, nv));
    lemma_pushed_skip(g, x, k, lower, stack);
    assert(two.drop_last() =~= one);
    assert(one.drop_last() =~= stack);
    assert(ones(one) == ones(stack));
    assert(ones(two) == ones(stack) + 1);
    assert(two.take(lower) =~= stack.take(lower));
    assert forall|q: int| lower <= q < two.len() implies listed_from(g, x, k, (#[trigger] two[q]).1 as int) by {
        if q < stack.len() {
            assert(two[q] == stack[q]);
            assert(listed_from(g, x, k, stack[q].1 as int));
        } else {
            assert(two[q].1 == nv);
            assert(k <= k < g[x]@.len() && g[x]@[k] == nv);
        }
    }
    if no_repeats(g[x]@) {
        assert forall|p: int, q: int|
            lower <= p < q < two.len() && (#[trigger] two[p]).0 == (#[trigger] two[q]).0 implies two[p].1
            != two[q].1 by {
            if q < stack.len() {
                assert(two[p] == stack[p] && two[q] == stack[q]);
            } else if p < stack.len() {
                assert(two[p] == stack[p]);
                let y = stack[p].1 as int;
                assert(listed_from(g, x, k + 1, y));
                let j = choose|j: int| k + 1 <= j < g[x]@.len() && #[trigger] g[x]@[j] == y;
                assert(g[x]@[k] != g[x]@[j]);
            }
        }
    }
}

/// What was put on the stack for `x` is what `entering` asks for.
pub proof fn lemma_pushed_done(
    g: Seq<Vec<usize>>,
    x: int,
    stack: Seq<(usize, usize)>,
    now: Seq<(usize, usize)>,
)
    requires
        stack.len() >= 1,
        pushed_apart(g, x, 0, stack.len() - 1, now),
        forall|p: int| 0 <= p < stack.len() - 1 ==> #[trigger] now[p] == stack[p],
    ensures
        forall|q: int| stack.len() - 1 <= q < now.len() ==> listed_from(g, x, 0, (#[trigger] now[q]).1 as int),
        no_repeats(g[x]@) ==> forall|p: int, q: int|
            stack.len() - 1 <= p < q < now.len() && (#[trigger] now[p]).0 == (#[trigger] now[q]).0
                ==> now[p].1 != now[q].1,
        2 * (ones(now) - ones(stack.drop_last())) == now.len() - (stack.len() - 1),
{
    assert(now.take(stack.len() - 1) =~= stack.drop_last());
}

} // verus!
