use crate::data_structure::implicit_tree::{
    balanced, balanced_at, covered, is_below, is_descendant, left_turn, lemma_below_transitive,
    lemma_chain_before, lemma_chain_next, lemma_covered_empty, lemma_covered_halve,
    lemma_covered_leaf,
    lemma_covered_take_first, lemma_covered_take_last, lemma_odd_part_bounds, odd_part,
};
use crate::data_structure::lazy_segtree::{ForLazySegtree, Update, Value};
use crate::traits::Monoid;
use vstd::prelude::*;

verus! {

/// The updates deferred at node `k` and at its ancestors, composed in the
/// order in which they apply: that of `k` first, that of the root last.
pub open spec fn deferred<T: ForLazySegtree>(lazy: Seq<Update<T>>, k: int) -> Update<T>
    decreases k,
{
    if k <= 0 {
        T::L::e_spec()
    } else {
        T::L::op_spec(lazy[k], deferred::<T>(lazy, k / 2))
    }
}

/// The stored value of node `k` with the update deferred at `k` applied.
pub open spec fn eval<T: ForLazySegtree>(
    node: Seq<Value<T>>,
    lazy: Seq<Update<T>>,
    k: int,
) -> Value<T> {
    T::mapping_spec(node[k], lazy[k])
}

/// The value that node `k` stands for: its stored value with every update
/// deferred at `k` and above applied.
pub open spec fn actual<T: ForLazySegtree>(
    node: Seq<Value<T>>,
    lazy: Seq<Update<T>>,
    k: int,
) -> Value<T> {
    T::mapping_spec(node[k], deferred::<T>(lazy, k))
}

/// The values that the nodes stand for.
pub open spec fn actual_nodes<T: ForLazySegtree>(
    node: Seq<Value<T>>,
    lazy: Seq<Update<T>>,
) -> Seq<Value<T>> {
    Seq::new(node.len(), |k: int| actual::<T>(node, lazy, k))
}

/// Node `i` stores the product of the evaluated values of its children.
pub open spec fn settled_at<T: ForLazySegtree>(
    node: Seq<Value<T>>,
    lazy: Seq<Update<T>>,
    i: int,
) -> bool {
    node[i] == T::M::op_spec(eval::<T>(node, lazy, 2 * i), eval::<T>(node, lazy, 2 * i + 1))
}

/// Every internal node is settled, except possibly the proper ancestors of
/// `a` and of `b`.
pub open spec fn settled_except<T: ForLazySegtree>(
    node: Seq<Value<T>>,
    lazy: Seq<Update<T>>,
    size: int,
    a: int,
    b: int,
) -> bool {
    &&& size >= 1
    &&& node.len() == 2 * size
    &&& lazy.len() == 2 * size
    &&& forall|i: int|
        1 <= i < size ==> #[trigger] settled_at::<T>(node, lazy, i) || is_below(a, i) || is_below(
            b,
            i,
        )
}

/// Every internal node is settled.
pub open spec fn settled<T: ForLazySegtree>(
    node: Seq<Value<T>>,
    lazy: Seq<Update<T>>,
    size: int,
) -> bool {
    &&& size >= 1
    &&& node.len() == 2 * size
    &&& lazy.len() == 2 * size
    &&& forall|i: int| 1 <= i < size ==> #[trigger] settled_at::<T>(node, lazy, i)
}

/// No update is deferred at a proper ancestor of node `i`.
pub open spec fn clean_above<T: ForLazySegtree>(lazy: Seq<Update<T>>, i: int) -> bool
    decreases i,
{
    i <= 1 || (lazy[i / 2] == T::L::e_spec() && clean_above::<T>(lazy, i / 2))
}

/// The deferred updates after that of node `i` has been handed to its
/// children.
pub open spec fn pushed<T: ForLazySegtree>(lazy: Seq<Update<T>>, i: int) -> Seq<Update<T>> {
    lazy.update(2 * i, T::L::op_spec(lazy[2 * i], lazy[i])).update(
        2 * i + 1,
        T::L::op_spec(lazy[2 * i + 1], lazy[i]),
    ).update(i, T::L::e_spec())
}

/// Below clean ancestors nothing is deferred.
pub proof fn lemma_deferred_clean<T: ForLazySegtree>(lazy: Seq<Update<T>>, i: int)
    requires
        clean_above::<T>(lazy, i),
    ensures
        deferred::<T>(lazy, i / 2) == T::L::e_spec(),
    decreases i,
{
    if i > 1 {
        lemma_deferred_clean::<T>(lazy, i / 2);
        T::L::left_identity(T::L::e_spec());
    }
}

/// A node below clean ancestors stands for its evaluated value.
pub proof fn lemma_actual_clean<T: ForLazySegtree>(
    node: Seq<Value<T>>,
    lazy: Seq<Update<T>>,
    i: int,
)
    requires
        i >= 1,
        clean_above::<T>(lazy, i),
    ensures
        actual::<T>(node, lazy, i) == eval::<T>(node, lazy, i),
{
    lemma_deferred_clean::<T>(lazy, i);
    T::L::right_identity(lazy[i]);
}

/// Handing the update of node `i` to its children changes what is deferred
/// at and above a node only for `i` itself.
pub proof fn lemma_pushed_deferred<T: ForLazySegtree>(lazy: Seq<Update<T>>, size: int, i: int, k: int)
    requires
        lazy.len() == 2 * size,
        1 <= i < size,
        0 <= k < 2 * size,
    ensures
        k != i ==> deferred::<T>(pushed::<T>(lazy, i), k) == deferred::<T>(lazy, k),
        k == i ==> deferred::<T>(pushed::<T>(lazy, i), k) == deferred::<T>(lazy, k / 2),
    decreases k,
{
    let after = pushed::<T>(lazy, i);
    if k >= 1 {
        lemma_pushed_deferred::<T>(lazy, size, i, k / 2);
        if k == i {
            assert(after[k] == T::L::e_spec());
            T::L::left_identity(deferred::<T>(lazy, k / 2));
        } else if k / 2 == i {
            assert(after[k] == T::L::op_spec(lazy[k], lazy[i]));
            assert(deferred::<T>(lazy, i) == T::L::op_spec(lazy[i], deferred::<T>(lazy, i / 2)));
            T::L::associative(lazy[k], lazy[i], deferred::<T>(lazy, i / 2));
        } else {
            assert(after[k] == lazy[k]);
        }
    }
}

/// Handing the update of node `i` to its children, and storing the
/// evaluated value at `i`, changes the value that no node stands for.
pub proof fn lemma_pushed_actual<T: ForLazySegtree>(
    node: Seq<Value<T>>,
    lazy: Seq<Update<T>>,
    size: int,
    i: int,
)
    requires
        node.len() == 2 * size,
        lazy.len() == 2 * size,
        1 <= i < size,
    ensures
        actual_nodes::<T>(node.update(i, eval::<T>(node, lazy, i)), pushed::<T>(lazy, i))
            == actual_nodes::<T>(node, lazy),
{
    let node2 = node.update(i, eval::<T>(node, lazy, i));
    let lazy2 = pushed::<T>(lazy, i);
    assert forall|k: int| 0 <= k < 2 * size implies actual::<T>(node2, lazy2, k) == actual::<T>(
        node,
        lazy,
        k,
    ) by {
        lemma_pushed_deferred::<T>(lazy, size, i, k);
        if k == i {
            T::mapping_composition(node[i], lazy[i], deferred::<T>(lazy, i / 2));
        }
    }
    assert(actual_nodes::<T>(node2, lazy2) =~= actual_nodes::<T>(node, lazy));
}

/// Handing the update of node `i` to its children, and storing the
/// evaluated value at `i`, keeps every settled node settled.
pub proof fn lemma_pushed_settled<T: ForLazySegtree>(
    node: Seq<Value<T>>,
    lazy: Seq<Update<T>>,
    size: int,
    i: int,
    a: int,
    b: int,
)
    requires
        settled_except::<T>(node, lazy, size, a, b),
        settled_at::<T>(node, lazy, i),
        1 <= i < size,
    ensures
        settled_except::<T>(
            node.update(i, eval::<T>(node, lazy, i)),
            pushed::<T>(lazy, i),
            size,
            a,
            b,
        ),
        settled_at::<T>(node.update(i, eval::<T>(node, lazy, i)), pushed::<T>(lazy, i), i),
{
    let node2 = node.update(i, eval::<T>(node, lazy, i));
    let lazy2 = pushed::<T>(lazy, i);
    T::mapping_distributes(
        eval::<T>(node, lazy, 2 * i),
        eval::<T>(node, lazy, 2 * i + 1),
        lazy[i],
    );
    T::mapping_composition(node[2 * i], lazy[2 * i], lazy[i]);
    T::mapping_composition(node[2 * i + 1], lazy[2 * i + 1], lazy[i]);
    assert(settled_at::<T>(node2, lazy2, i));
    T::mapping_identity(node2[i]);
    assert forall|j: int| 1 <= j < size implies #[trigger] settled_at::<T>(node2, lazy2, j)
        || is_below(a, j) || is_below(b, j) by {
        assert(settled_at::<T>(node, lazy, j) || is_below(a, j) || is_below(b, j));
        if settled_at::<T>(node, lazy, j) && j != i {
            assert(eval::<T>(node2, lazy2, 2 * j) == eval::<T>(node, lazy, 2 * j));
            assert(eval::<T>(node2, lazy2, 2 * j + 1) == eval::<T>(node, lazy, 2 * j + 1));
        }
    }
}

/// Handing the update of a node to its children keeps clean ancestors
/// clean.
pub proof fn lemma_pushed_clean<T: ForLazySegtree>(lazy: Seq<Update<T>>, size: int, i: int, x: int)
    requires
        lazy.len() == 2 * size,
        1 <= i < size,
        x < 2 * size,
        clean_above::<T>(lazy, x),
    ensures
        clean_above::<T>(pushed::<T>(lazy, i), x),
    decreases x,
{
    if x > 1 {
        lemma_pushed_clean::<T>(lazy, size, i, x / 2);
        assert(clean_above::<T>(lazy, x / 2));
        if x / 2 > 1 && (x / 2) / 2 == i {
            assert(lazy[i] == T::L::e_spec());
            T::L::left_identity(T::L::e_spec());
        }
        assert(pushed::<T>(lazy, i)[x / 2] == T::L::e_spec());
    }
}

/// The values that the nodes of a settled tree stand for form a balanced
/// tree.
pub proof fn lemma_actual_balanced<T: ForLazySegtree>(
    node: Seq<Value<T>>,
    lazy: Seq<Update<T>>,
    size: int,
)
    requires
        settled::<T>(node, lazy, size),
    ensures
        balanced::<T::M>(actual_nodes::<T>(node, lazy), size),
{
    let tv = actual_nodes::<T>(node, lazy);
    assert forall|i: int| 1 <= i < size implies #[trigger] balanced_at::<T::M>(tv, i) by {
        assert(settled_at::<T>(node, lazy, i));
        let d = deferred::<T>(lazy, i);
        T::mapping_composition(node[2 * i], lazy[2 * i], d);
        T::mapping_composition(node[2 * i + 1], lazy[2 * i + 1], d);
        T::mapping_distributes(
            eval::<T>(node, lazy, 2 * i),
            eval::<T>(node, lazy, 2 * i + 1),
            d,
        );
    }
}

} // verus!

verus! {

/// Recomputing the parent of `a` from the evaluated values of its children
/// leaves only the proper ancestors of that parent unsettled.
pub proof fn lemma_resettle_parent<T: ForLazySegtree>(
    node: Seq<Value<T>>,
    lazy: Seq<Update<T>>,
    size: int,
    a: int,
    b: int,
)
    requires
        settled_except::<T>(node, lazy, size, a, b),
        2 <= a < 2 * size,
    ensures
        settled_except::<T>(
            node.update(
                a / 2,
                T::M::op_spec(
                    eval::<T>(node, lazy, 2 * (a / 2)),
                    eval::<T>(node, lazy, 2 * (a / 2) + 1),
                ),
            ),
            lazy,
            size,
            a / 2,
            b,
        ),
{
    let p = a / 2;
    let after = node.update(
        p,
        T::M::op_spec(eval::<T>(node, lazy, 2 * p), eval::<T>(node, lazy, 2 * p + 1)),
    );
    assert forall|i: int| 1 <= i < size implies #[trigger] settled_at::<T>(after, lazy, i)
        || is_below(p, i) || is_below(b, i) by {
        assert(settled_at::<T>(node, lazy, i) || is_below(a, i) || is_below(b, i));
        if i == p {
            assert(settled_at::<T>(after, lazy, i));
        } else if is_below(a, i) {
            assert(is_below(p, i));
        } else if is_below(b, i) {
        } else if 2 * i == p || 2 * i + 1 == p {
            assert(is_descendant(p / 2, i));
        } else {
            assert(settled_at::<T>(after, lazy, i));
        }
    }
}

/// A change of what is deferred at node `x` changes what is deferred at
/// and above a node only for `x` and the nodes below it.
pub proof fn lemma_deferred_elsewhere<T: ForLazySegtree>(
    lazy: Seq<Update<T>>,
    x: int,
    u: Update<T>,
    q: int,
)
    requires
        0 <= x < lazy.len(),
        0 <= q < lazy.len(),
        !is_descendant(q, x),
    ensures
        deferred::<T>(lazy.update(x, u), q) == deferred::<T>(lazy, q),
    decreases q,
{
    if q >= 1 {
        lemma_deferred_elsewhere::<T>(lazy, x, u, q / 2);
    }
}

/// A change of what is deferred at node `x`, or of the value stored there,
/// can unsettle only the parent of `x`.
pub proof fn lemma_changed_child<T: ForLazySegtree>(
    node: Seq<Value<T>>,
    lazy: Seq<Update<T>>,
    node2: Seq<Value<T>>,
    lazy2: Seq<Update<T>>,
    size: int,
    x: int,
    a: int,
    b: int,
)
    requires
        settled_except::<T>(node, lazy, size, a, b),
        1 <= x < 2 * size,
        node2.len() == node.len(),
        lazy2.len() == lazy.len(),
        forall|k: int| 0 <= k < 2 * size && k != x ==> node2[k] == node[k] && lazy2[k] == lazy[k],
        x >= size || node2[x] == node[x],
        x <= 1 || is_below(a, x / 2) || is_below(b, x / 2),
    ensures
        settled_except::<T>(node2, lazy2, size, a, b),
{
    assert forall|i: int| 1 <= i < size implies #[trigger] settled_at::<T>(node2, lazy2, i)
        || is_below(a, i) || is_below(b, i) by {
        assert(settled_at::<T>(node, lazy, i) || is_below(a, i) || is_below(b, i));
        if 2 * i == x || 2 * i + 1 == x {
            assert(i == x / 2);
        } else {
            assert(eval::<T>(node2, lazy2, 2 * i) == eval::<T>(node, lazy, 2 * i));
            assert(eval::<T>(node2, lazy2, 2 * i + 1) == eval::<T>(node, lazy, 2 * i + 1));
        }
    }
}

} // verus!

verus! {

/// Where the proper ancestors of `y - 1` and `y - 1` itself are clean, so
/// are the proper ancestors of the odd part of `y`.
pub proof fn lemma_clean_next<T: ForLazySegtree>(lazy: Seq<Update<T>>, y: int)
    requires
        y >= 1,
        y >= 2 ==> lazy[y - 1] == T::L::e_spec() && clean_above::<T>(lazy, y - 1),
    ensures
        clean_above::<T>(lazy, odd_part(y)),
    decreases y,
{
    if y >= 2 && y % 2 == 0 {
        lemma_clean_next::<T>(lazy, y / 2);
    }
}

/// Where the proper ancestors of `y` are clean, so are those of the node
/// before the odd part of `y`.
pub proof fn lemma_clean_before<T: ForLazySegtree>(lazy: Seq<Update<T>>, y: int)
    requires
        y >= 1,
        clean_above::<T>(lazy, y),
    ensures
        clean_above::<T>(lazy, odd_part(y) - 1),
    decreases y,
{
    if y % 2 == 0 {
        lemma_clean_before::<T>(lazy, y / 2);
    }
}

/// Where the proper ancestors of the node before the odd part of `y` are
/// clean, so are those of the node reached from `y - 1` by going up over
/// right children.
pub proof fn lemma_clean_left_turn<T: ForLazySegtree>(lazy: Seq<Update<T>>, y: int)
    requires
        y >= 2,
        clean_above::<T>(lazy, odd_part(y) - 1),
    ensures
        clean_above::<T>(lazy, left_turn(y - 1)),
    decreases y,
{
    if y % 2 == 0 && y > 2 {
        lemma_clean_left_turn::<T>(lazy, y / 2);
    }
}

} // verus!

verus! {

/// Composing `a` into what is deferred at node `x`, below clean ancestors,
/// composes `a` into what is deferred at and above each node below `x`.
pub proof fn lemma_deferred_composed<T: ForLazySegtree>(
    lazy: Seq<Update<T>>,
    x: int,
    a: Update<T>,
    q: int,
)
    requires
        1 <= x < lazy.len(),
        0 <= q < lazy.len(),
        clean_above::<T>(lazy, x),
        is_descendant(q, x),
    ensures
        deferred::<T>(lazy.update(x, T::L::op_spec(lazy[x], a)), q) == T::L::op_spec(
            deferred::<T>(lazy, q),
            a,
        ),
    decreases q,
{
    let u = T::L::op_spec(lazy[x], a);
    if q == x {
        lemma_deferred_elsewhere::<T>(lazy, x, u, x / 2);
        lemma_deferred_clean::<T>(lazy, x);
        T::L::right_identity(u);
        T::L::right_identity(lazy[x]);
    } else {
        lemma_deferred_composed::<T>(lazy, x, a, q / 2);
        T::L::associative(lazy[q], deferred::<T>(lazy, q / 2), a);
    }
}

/// A change of what is deferred at a node that is no proper ancestor of
/// `y` keeps the proper ancestors of `y` as clean as they were.
pub proof fn lemma_clean_elsewhere<T: ForLazySegtree>(
    lazy: Seq<Update<T>>,
    x: int,
    u: Update<T>,
    y: int,
)
    requires
        0 <= x < lazy.len(),
        y < lazy.len(),
        y / 2 < x,
    ensures
        clean_above::<T>(lazy.update(x, u), y) == clean_above::<T>(lazy, y),
    decreases y,
{
    if y > 1 {
        lemma_clean_elsewhere::<T>(lazy, x, u, y / 2);
    }
}

/// The state of a range update in progress. The cursors `l` and `r` are on
/// one level; the leaves that the range `l..r` covers still wait for the
/// update `a`, the other leaves of `lo..hi` have it composed into what is
/// deferred above them, and no other leaf is touched. Only the proper
/// ancestors of `l0` and `r0` can be unsettled.
pub open spec fn apply_state<T: ForLazySegtree>(
    node: Seq<Value<T>>,
    lazy0: Seq<Update<T>>,
    lazy: Seq<Update<T>>,
    size: int,
    lo: int,
    hi: int,
    a: Update<T>,
    l: int,
    r: int,
    l0: int,
    r0: int,
) -> bool {
    &&& lazy0.len() == 2 * size
    &&& 1 <= l <= r <= 2 * size
    &&& r <= 2 * l
    &&& size <= lo <= hi <= 2 * size
    &&& forall|q: int|
        size <= q < 2 * size ==> #[trigger] deferred::<T>(lazy, q) == (if covered(q, l, r) || !(lo
            <= q < hi) {
            deferred::<T>(lazy0, q)
        } else {
            T::L::op_spec(deferred::<T>(lazy0, q), a)
        })
    &&& forall|q: int| size <= q < 2 * size && #[trigger] covered(q, l, r) ==> lo <= q < hi
    &&& clean_above::<T>(lazy, odd_part(l))
    &&& clean_above::<T>(lazy, odd_part(r) - 1)
    &&& odd_part(l) <= 1 || is_below(l0, odd_part(l) / 2)
    &&& odd_part(r) - 1 <= 1 || is_below(r0, (odd_part(r) - 1) / 2)
    &&& settled_except::<T>(node, lazy, size, l0, r0)
}

/// The state at the start of a range update: nothing is composed yet.
pub proof fn lemma_apply_start<T: ForLazySegtree>(
    node: Seq<Value<T>>,
    lazy: Seq<Update<T>>,
    size: int,
    lo: int,
    hi: int,
    a: Update<T>,
)
    requires
        settled::<T>(node, lazy, size),
        size <= lo <= hi <= 2 * size,
        clean_above::<T>(lazy, odd_part(lo)),
        clean_above::<T>(lazy, odd_part(hi) - 1),
    ensures
        apply_state::<T>(node, lazy, lazy, size, lo, hi, a, lo, hi, odd_part(lo), odd_part(hi) - 1),
{
    let l0 = odd_part(lo);
    let r0 = odd_part(hi) - 1;
    assert forall|q: int| size <= q < 2 * size implies covered(q, lo, hi) == (lo <= q < hi) by {
        lemma_covered_leaf(q, lo, hi, size);
    }
    if l0 > 1 {
        assert(is_descendant(l0 / 2, l0 / 2));
    }
    if r0 > 1 {
        assert(is_descendant(r0 / 2, r0 / 2));
    }
    assert forall|i: int| 1 <= i < size implies #[trigger] settled_at::<T>(node, lazy, i)
        || is_below(l0, i) || is_below(r0, i) by {}
}

/// The step of a range update at a left cursor that is a right child: the
/// update is composed into what is deferred there, and the cursor moves on.
pub proof fn lemma_apply_left<T: ForLazySegtree>(
    node: Seq<Value<T>>,
    lazy0: Seq<Update<T>>,
    lazy: Seq<Update<T>>,
    size: int,
    lo: int,
    hi: int,
    a: Update<T>,
    l: int,
    r: int,
    l0: int,
    r0: int,
)
    requires
        apply_state::<T>(node, lazy0, lazy, size, lo, hi, a, l, r, l0, r0),
        l < r,
        l % 2 == 1,
    ensures
        apply_state::<T>(
            node,
            lazy0,
            lazy.update(l, T::L::op_spec(lazy[l], a)),
            size,
            lo,
            hi,
            a,
            l + 1,
            r,
            l0,
            r0,
        ),
{
    let u = T::L::op_spec(lazy[l], a);
    let lazy2 = lazy.update(l, u);
    assert(odd_part(l) == l);
    assert forall|q: int| size <= q < 2 * size implies #[trigger] deferred::<T>(lazy2, q) == (
    if covered(q, l + 1, r) || !(lo <= q < hi) {
        deferred::<T>(lazy0, q)
    } else {
        T::L::op_spec(deferred::<T>(lazy0, q), a)
    }) by {
        lemma_covered_take_first(q, l, r);
        assert(deferred::<T>(lazy, q) == (if covered(q, l, r) || !(lo <= q < hi) {
            deferred::<T>(lazy0, q)
        } else {
            T::L::op_spec(deferred::<T>(lazy0, q), a)
        }));
        if is_descendant(q, l) {
            lemma_deferred_composed::<T>(lazy, l, a, q);
        } else {
            lemma_deferred_elsewhere::<T>(lazy, l, u, q);
        }
    }
    // the cursor after the step
    assert(odd_part(l + 1) == odd_part((l + 1) / 2));
    lemma_odd_part_bounds((l + 1) / 2);
    lemma_clean_next::<T>(lazy, (l + 1) / 2);
    lemma_clean_elsewhere::<T>(lazy, l, u, odd_part(l + 1));
    lemma_odd_part_bounds(r);
    lemma_clean_elsewhere::<T>(lazy, l, u, odd_part(r) - 1);
    if l > 1 {
        if (l + 1) / 2 >= 2 {
            lemma_chain_next((l + 1) / 2);
            if odd_part(l + 1) > 1 {
                lemma_below_transitive(l0, l / 2, odd_part(l + 1) / 2);
            }
        } else {
            assert(odd_part(1) == 1);
        }
    } else {
        assert(odd_part(1) == 1);
    }
    lemma_changed_child::<T>(node, lazy, node, lazy2, size, l, l0, r0);
    assert(settled_except::<T>(node, lazy2, size, l0, r0));
    assert(clean_above::<T>(lazy2, odd_part(l + 1)));
    assert(clean_above::<T>(lazy2, odd_part(r) - 1));
    assert(odd_part(l + 1) <= 1 || is_below(l0, odd_part(l + 1) / 2));
    assert forall|q: int| size <= q < 2 * size && #[trigger] covered(q, l + 1, r) implies lo <= q
        < hi by {
        lemma_covered_take_first(q, l, r);
        assert(covered(q, l, r));
    }
}

/// The step of a range update at a right cursor that is a right child: the
/// cursor moves back, and the update is composed into what is deferred
/// there.
pub proof fn lemma_apply_right<T: ForLazySegtree>(
    node: Seq<Value<T>>,
    lazy0: Seq<Update<T>>,
    lazy: Seq<Update<T>>,
    size: int,
    lo: int,
    hi: int,
    a: Update<T>,
    l: int,
    r: int,
    l0: int,
    r0: int,
)
    requires
        apply_state::<T>(node, lazy0, lazy, size, lo, hi, a, l, r, l0, r0),
        l < r,
        r % 2 == 1,
    ensures
        apply_state::<T>(
            node,
            lazy0,
            lazy.update(r - 1, T::L::op_spec(lazy[r - 1], a)),
            size,
            lo,
            hi,
            a,
            l,
            r - 1,
            l0,
            r0,
        ),
{
    let v = r - 1;
    let u = T::L::op_spec(lazy[v], a);
    let lazy2 = lazy.update(v, u);
    assert(odd_part(r) == r);
    assert forall|q: int| size <= q < 2 * size implies #[trigger] deferred::<T>(lazy2, q) == (
    if covered(q, l, r - 1) || !(lo <= q < hi) {
        deferred::<T>(lazy0, q)
    } else {
        T::L::op_spec(deferred::<T>(lazy0, q), a)
    }) by {
        lemma_covered_take_last(q, l, r);
        assert(deferred::<T>(lazy, q) == (if covered(q, l, r) || !(lo <= q < hi) {
            deferred::<T>(lazy0, q)
        } else {
            T::L::op_spec(deferred::<T>(lazy0, q), a)
        }));
        if is_descendant(q, v) {
            lemma_deferred_composed::<T>(lazy, v, a, q);
        } else {
            lemma_deferred_elsewhere::<T>(lazy, v, u, q);
        }
    }
    assert(odd_part(v) == odd_part(v / 2));
    lemma_odd_part_bounds(v / 2);
    lemma_clean_before::<T>(lazy, v / 2);
    lemma_clean_elsewhere::<T>(lazy, v, u, odd_part(v) - 1);
    lemma_odd_part_bounds(l);
    lemma_clean_elsewhere::<T>(lazy, v, u, odd_part(l));
    lemma_chain_before(v / 2);
    if odd_part(v) - 1 > 1 {
        lemma_below_transitive(r0, v / 2, (odd_part(v) - 1) / 2);
    }
    lemma_changed_child::<T>(node, lazy, node, lazy2, size, v, l0, r0);
    assert(settled_except::<T>(node, lazy2, size, l0, r0));
    assert(clean_above::<T>(lazy2, odd_part(l)));
    assert(clean_above::<T>(lazy2, odd_part(v) - 1));
    assert(odd_part(v) - 1 <= 1 || is_below(r0, (odd_part(v) - 1) / 2));
    assert forall|q: int| size <= q < 2 * size && #[trigger] covered(q, l, v) implies lo <= q
        < hi by {
        lemma_covered_take_last(q, l, r);
        assert(covered(q, l, r));
    }
}

/// The step of a range update from two left children to their parents.
pub proof fn lemma_apply_up<T: ForLazySegtree>(
    node: Seq<Value<T>>,
    lazy0: Seq<Update<T>>,
    lazy: Seq<Update<T>>,
    size: int,
    lo: int,
    hi: int,
    a: Update<T>,
    l: int,
    r: int,
    l0: int,
    r0: int,
)
    requires
        apply_state::<T>(node, lazy0, lazy, size, lo, hi, a, l, r, l0, r0),
        l % 2 == 0,
        r % 2 == 0,
    ensures
        apply_state::<T>(node, lazy0, lazy, size, lo, hi, a, l / 2, r / 2, l0, r0),
{
    assert(odd_part(l) == odd_part(l / 2));
    assert(odd_part(r) == odd_part(r / 2));
    assert forall|q: int| size <= q < 2 * size implies covered(q, l / 2, r / 2) == covered(
        q,
        l,
        r,
    ) by {
        lemma_covered_halve(q, l, r);
    }
    assert forall|q: int| size <= q < 2 * size implies #[trigger] deferred::<T>(lazy, q) == (
    if covered(q, l / 2, r / 2) || !(lo <= q < hi) {
        deferred::<T>(lazy0, q)
    } else {
        T::L::op_spec(deferred::<T>(lazy0, q), a)
    }) by {
        assert(covered(q, l / 2, r / 2) == covered(q, l, r));
    }
    assert(1 <= l / 2 <= r / 2 <= 2 * size);
    assert(r / 2 <= 2 * (l / 2));
    assert forall|q: int| size <= q < 2 * size && #[trigger] covered(q, l / 2, r / 2) implies lo
        <= q < hi by {
        assert(covered(q, l, r));
    }
    assert(clean_above::<T>(lazy, odd_part(l / 2)));
    assert(clean_above::<T>(lazy, odd_part(r / 2) - 1));
    assert(odd_part(l / 2) <= 1 || is_below(l0, odd_part(l / 2) / 2));
    assert(odd_part(r / 2) - 1 <= 1 || is_below(r0, (odd_part(r / 2) - 1) / 2));
}

} // verus!

verus! {

/// At the end of a range update every leaf of `lo..hi` stands for its
/// former value with `a` applied, and every other leaf for its former
/// value.
pub proof fn lemma_apply_done<T: ForLazySegtree>(
    node: Seq<Value<T>>,
    lazy0: Seq<Update<T>>,
    lazy: Seq<Update<T>>,
    size: int,
    lo: int,
    hi: int,
    a: Update<T>,
    l: int,
    r: int,
    l0: int,
    r0: int,
)
    requires
        apply_state::<T>(node, lazy0, lazy, size, lo, hi, a, l, r, l0, r0),
        l >= r,
    ensures
        forall|q: int|
            size <= q < 2 * size ==> #[trigger] actual::<T>(node, lazy, q) == (if lo <= q < hi {
                T::mapping_spec(actual::<T>(node, lazy0, q), a)
            } else {
                actual::<T>(node, lazy0, q)
            }),
{
    assert forall|q: int| size <= q < 2 * size implies #[trigger] actual::<T>(node, lazy, q) == (
    if lo <= q < hi {
        T::mapping_spec(actual::<T>(node, lazy0, q), a)
    } else {
        actual::<T>(node, lazy0, q)
    }) by {
        lemma_covered_empty(q, l, r);
        assert(deferred::<T>(lazy, q) == (if covered(q, l, r) || !(lo <= q < hi) {
            deferred::<T>(lazy0, q)
        } else {
            T::L::op_spec(deferred::<T>(lazy0, q), a)
        }));
        T::mapping_composition(node[q], deferred::<T>(lazy0, q), a);
    }
}

} // verus!
