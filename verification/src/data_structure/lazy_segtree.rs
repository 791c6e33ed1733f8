use crate::algebra::{
    lemma_product_first, lemma_product_identities, lemma_product_last, lemma_product_split,
    product,
};
use crate::data_structure::implicit_tree::{
    balanced, balanced_at, end_leaf, first_leaf, is_below, is_descendant, is_pow2,
    is_power_of_two, left_turn, lemma_absorb_left, lemma_absorb_right, lemma_adjacent,
    lemma_first_of_level, lemma_last_of_level, lemma_leaf_range, lemma_pairs,
    lemma_subtree_identity, odd_part, odd_part_of,
};
use crate::data_structure::lazy_propagation::{
    actual, actual_nodes, apply_state, clean_above, deferred, eval, lemma_actual_balanced,
    lemma_actual_clean, lemma_apply_done, lemma_apply_left, lemma_apply_right, lemma_apply_start,
    lemma_apply_up,
    lemma_changed_child, lemma_clean_before, lemma_clean_left_turn, lemma_clean_next,
    lemma_deferred_clean,
    lemma_deferred_elsewhere, lemma_pushed_actual, lemma_pushed_clean, lemma_pushed_settled,
    lemma_resettle_parent, pushed, settled, settled_at, settled_except,
};
use crate::utils::{range_to_tuple, IndexRange};
use crate::data_structure::segtree::ceil_power_of_two;
use crate::traits::Monoid;
use vstd::arithmetic::div_mod::{
    lemma_add_mod_noop, lemma_add_mod_noop_right, lemma_mul_mod_noop_general, lemma_mul_mod_noop_right, lemma_small_mod,
};
use vstd::prelude::*;

verus! {

/// What a lazy segment tree is made over: a monoid `M` of values, a monoid
/// `L` of updates, and the action `mapping` of updates on values.
///
/// The action obeys three laws: the identity update changes nothing,
/// applying `f` and then `g` is applying `op(f, g)`, and an update applied
/// to a product is the product of the updated factors.
pub trait ForLazySegtree {
    /// The monoid of the values that the tree holds.
    type M: Monoid;

    /// The monoid of the updates that the tree defers.
    type L: Monoid;

    /// The action, as a mathematical function.
    spec fn mapping_spec(m: Value<Self>, l: Update<Self>) -> Value<Self>;

    /// The value `m` with the update `l` applied.
    fn mapping(m: &Value<Self>, l: &Update<Self>) -> (r: Value<Self>)
        ensures
            r == Self::mapping_spec(*m, *l),
    ;

    /// The identity update changes nothing.
    proof fn mapping_identity(m: Value<Self>)
        ensures
            Self::mapping_spec(m, Self::L::e_spec()) == m,
    ;

    /// Applying `f` and then `g` is applying `op(f, g)`.
    proof fn mapping_composition(m: Value<Self>, f: Update<Self>, g: Update<Self>)
        ensures
            Self::mapping_spec(Self::mapping_spec(m, f), g) == Self::mapping_spec(
                m,
                Self::L::op_spec(f, g),
            ),
    ;

    /// An update applied to a product is the product of the updated
    /// factors.
    proof fn mapping_distributes(a: Value<Self>, b: Value<Self>, f: Update<Self>)
        ensures
            Self::mapping_spec(Self::M::op_spec(a, b), f) == Self::M::op_spec(
                Self::mapping_spec(a, f),
                Self::mapping_spec(b, f),
            ),
    ;
}

/// The values of a lazy segment tree over `T`.
pub type Value<T> = <<T as ForLazySegtree>::M as Monoid>::S;

/// The updates of a lazy segment tree over `T`.
pub type Update<T> = <<T as ForLazySegtree>::L as Monoid>::S;

} // verus!

verus! {

/// A segment tree with deferred updates: an update of a whole range and
/// the product of a range, each in logarithmic time.
pub struct LazySegtree<T: ForLazySegtree> {
    original_size: usize,
    leaf_size: usize,
    node: Vec<Value<T>>,
    lazy: Vec<Update<T>>,
}

impl<T: ForLazySegtree> View for LazySegtree<T> {
    type V = Seq<Value<T>>;

    /// The values that the leaves stand for, in index order.
    open spec fn view(&self) -> Seq<Value<T>> {
        self.values().subrange(
            self.spec_leaf_size() as int,
            self.spec_leaf_size() as int + self.spec_len() as int,
        )
    }
}

impl<T: ForLazySegtree> LazySegtree<T> {
    /// The number of leaves that the tree was made for.
    pub closed spec fn spec_len(&self) -> nat {
        self.original_size as nat
    }

    /// The number of leaves of the complete tree.
    pub closed spec fn spec_leaf_size(&self) -> nat {
        self.leaf_size as nat
    }

    /// The stored values: the root at index 1, the children of `i` at
    /// `2 * i` and `2 * i + 1`, the leaves from `spec_leaf_size()` on.
    pub closed spec fn nodes(&self) -> Seq<Value<T>> {
        self.node@
    }

    /// The deferred updates, one for each node. That of node `i` is still
    /// to be applied to the stored values of `i` and of every node below.
    pub closed spec fn lazies(&self) -> Seq<Update<T>> {
        self.lazy@
    }

    /// The values that the nodes stand for: the stored values with all the
    /// updates deferred at and above them applied.
    pub open spec fn values(&self) -> Seq<Value<T>> {
        actual_nodes::<T>(self.nodes(), self.lazies())
    }

    /// The sizes fit together, and the leaves past the length stand for the
    /// identity element.
    pub open spec fn shaped(&self) -> bool {
        &&& 1 <= self.spec_len() <= self.spec_leaf_size() < 2 * self.spec_len()
        &&& is_power_of_two(self.spec_leaf_size() as int)
        &&& self.nodes().len() == 2 * self.spec_leaf_size() <= usize::MAX
        &&& self.lazies().len() == 2 * self.spec_leaf_size()
        &&& forall|k: int|
            self.spec_leaf_size() + self.spec_len() <= k < 2 * self.spec_leaf_size()
                ==> self.values()[k] == T::M::e_spec()
    }

    /// The tree is well formed: its sizes fit together and every internal
    /// node stores the product of the evaluated values of its children.
    pub open spec fn wf(&self) -> bool {
        &&& self.shaped()
        &&& settled::<T>(self.nodes(), self.lazies(), self.spec_leaf_size() as int)
    }

    /// A tree of `n` leaves, each holding the identity element, with
    /// nothing deferred.
    pub fn new(n: usize) -> (tree: Self)
        requires
            1 <= n <= usize::MAX / 4 + 1,
        ensures
            tree.wf(),
            tree.spec_len() == n,
            tree@ == Seq::new(n as nat, |j: int| T::M::e_spec()),
            forall|k: int|
                0 <= k < 2 * tree.spec_leaf_size() ==> tree.nodes()[k] == T::M::e_spec()
                    && tree.lazies()[k] == T::L::e_spec(),
    {
        let size = ceil_power_of_two(n);
        let node = vec![T::M::e(); 2 * size];
        let lazy = vec![T::L::e(); 2 * size];
        let tree = LazySegtree { original_size: n, leaf_size: size, node, lazy };
        proof {
            assert forall|k: int| 0 <= k < 2 * size implies tree.nodes()[k] == T::M::e_spec()
                && tree.lazies()[k] == T::L::e_spec() by {
                T::M::clone_exact(T::M::e_spec(), tree.nodes()[k]);
                T::L::clone_exact(T::L::e_spec(), tree.lazies()[k]);
            }
            T::mapping_identity(T::M::e_spec());
            T::M::left_identity(T::M::e_spec());
            assert forall|i: int| 1 <= i < size implies #[trigger] settled_at::<T>(
                tree.nodes(),
                tree.lazies(),
                i,
            ) by {}
            assert forall|k: int| 0 <= k < 2 * size implies tree.values()[k] == T::M::e_spec() by {
                Self::lemma_nothing_deferred(tree.lazies(), k);
            }
            assert(tree@ =~= Seq::new(n as nat, |j: int| T::M::e_spec()));
        }
        tree
    }

    /// Overwrites the first values with `vec`, in order, and recomputes
    /// every internal node. Every deferred update is handed down to the
    /// leaves first, so that the other values stay as they are: nothing is
    /// deferred at an internal node afterwards, and nothing at all where
    /// nothing was deferred before.
    pub fn build(&mut self, vec: &[Value<T>])
        requires
            old(self).wf(),
            vec@.len() <= old(self).spec_len(),
        ensures
            final(self).wf(),
            final(self).spec_len() == old(self).spec_len(),
            final(self).spec_leaf_size() == old(self).spec_leaf_size(),
            final(self)@ == vec@ + old(self)@.subrange(vec@.len() as int, old(self)@.len() as int),
            forall|k: int| 1 <= k < final(self).spec_leaf_size() ==> final(self).lazies()[k] == T::L::e_spec(),
            (forall|k: int| 0 <= k < 2 * old(self).spec_leaf_size() ==> old(self).lazies()[k] == T::L::e_spec())
                ==> (forall|k: int|
                0 <= k < 2 * final(self).spec_leaf_size() ==> final(self).lazies()[k] == T::L::e_spec()),
    {
        let ghost size = self.spec_leaf_size() as int;
        let ghost n = self.spec_len() as int;
        let ghost fresh = forall|k: int| 0 <= k < 2 * size ==> old(self).lazies()[k] == T::L::e_spec();
        let mut i: usize = 1;
        while i < self.leaf_size
            invariant
                self.wf(),
                size == self.spec_leaf_size() == old(self).spec_leaf_size(),
                n == self.spec_len() == old(self).spec_len(),
                self.values() == old(self).values(),
                1 <= i <= size,
                forall|k: int| 1 <= k < i ==> self.lazies()[k] == T::L::e_spec(),
                fresh ==> forall|k: int| 0 <= k < 2 * size ==> self.lazies()[k] == T::L::e_spec(),
            decreases size - i,
        {
            let ghost lazy0 = self.lazies();
            self.propagate_at(i);
            proof {
                if fresh {
                    T::L::left_identity(T::L::e_spec());
                    assert forall|k: int| 0 <= k < 2 * size implies self.lazies()[k] == T::L::e_spec() by {
                        assert(lazy0[k] == T::L::e_spec());
                        assert(lazy0[i as int] == T::L::e_spec());
                    }
                }
            }
            i += 1;
        }
        let mut i: usize = 0;
        while i < vec.len()
            invariant
                self.nodes().len() == 2 * size <= usize::MAX,
                self.lazies().len() == 2 * size,
                size == self.spec_leaf_size() == old(self).spec_leaf_size(),
                n == self.spec_len() == old(self).spec_len(),
                1 <= n <= size,
                i <= vec@.len() <= n == old(self)@.len(),
                forall|k: int| 1 <= k < size ==> self.lazies()[k] == T::L::e_spec(),
                fresh ==> forall|k: int| 0 <= k < 2 * size ==> self.lazies()[k] == T::L::e_spec(),
                forall|k: int| size + n <= k < 2 * size ==> self.values()[k] == T::M::e_spec(),
                self@ == vec@.subrange(0, i as int) + old(self)@.subrange(i as int, n),
            decreases vec@.len() - i,
        {
            let idx = i + self.leaf_size;
            let ele = vec[i].clone();
            let ghost node1 = self.nodes();
            let ghost lazy1 = self.lazies();
            let ghost values1 = self.values();
            let ghost view1 = self@;
            self.node[idx] = ele;
            self.lazy[idx] = T::L::e();
            proof {
                T::M::clone_exact(vec@[i as int], ele);
                assert(self.lazies() =~= lazy1.update(idx as int, T::L::e_spec()));
                assert(self.nodes() =~= node1.update(idx as int, ele));
                assert forall|k: int| size <= k < 2 * size && k != idx implies self.values()[k]
                    == values1[k] by {
                    assert(!is_descendant(k / 2, idx as int));
                    lemma_deferred_elsewhere::<T>(lazy1, idx as int, T::L::e_spec(), k);
                }
                assert(!is_descendant(idx as int / 2, idx as int));
                lemma_deferred_elsewhere::<T>(lazy1, idx as int, T::L::e_spec(), idx as int / 2);
                Self::lemma_all_clean(lazy1, size, idx as int);
                lemma_deferred_clean::<T>(lazy1, idx as int);
                T::L::left_identity(T::L::e_spec());
                T::mapping_identity(ele);
                assert(self.values()[idx as int] == ele);
                assert forall|k: int| size + n <= k < 2 * size implies self.values()[k]
                    == T::M::e_spec() by {
                    assert(values1[k] == T::M::e_spec());
                }
                assert(self@ =~= view1.update(i as int, ele));
                assert(self@ =~= vec@.subrange(0, i + 1) + old(self)@.subrange(i + 1, n));
            }
            i += 1;
        }
        proof {
            assert(vec@.subrange(0, i as int) =~= vec@);
        }
        let mut i: usize = self.leaf_size;
        while i > 1
            invariant
                self.nodes().len() == 2 * size <= usize::MAX,
                self.lazies().len() == 2 * size,
                size == self.spec_leaf_size() == old(self).spec_leaf_size(),
                n == self.spec_len() == old(self).spec_len(),
                1 <= n <= size < 2 * n,
                is_power_of_two(size),
                1 <= i <= size,
                vec@.len() <= n == old(self)@.len(),
                forall|k: int| 1 <= k < size ==> self.lazies()[k] == T::L::e_spec(),
                fresh ==> forall|k: int| 0 <= k < 2 * size ==> self.lazies()[k] == T::L::e_spec(),
                forall|k: int| size + n <= k < 2 * size ==> self.values()[k] == T::M::e_spec(),
                self@ == vec@ + old(self)@.subrange(vec@.len() as int, n),
                forall|k: int|
                    i <= k < size ==> #[trigger] settled_at::<T>(self.nodes(), self.lazies(), k),
            decreases i,
        {
            i -= 1;
            let ghost before = self.nodes();
            let ghost values1 = self.values();
            let ghost view1 = self@;
            let left = self.eval_at(2 * i);
            let right = self.eval_at(2 * i + 1);
            let v = T::M::op(&left, &right);
            self.node[i] = v;
            proof {
                assert(self.nodes() =~= before.update(i as int, v));
                assert forall|k: int| size <= k < 2 * size implies self.values()[k]
                    == values1[k] by {}
                assert forall|k: int| size + n <= k < 2 * size implies self.values()[k]
                    == T::M::e_spec() by {
                    assert(values1[k] == T::M::e_spec());
                }
                assert(self@ =~= view1);
                assert forall|k: int| i <= k < size implies #[trigger] settled_at::<T>(
                    self.nodes(),
                    self.lazies(),
                    k,
                ) by {
                    if k > i {
                        assert(settled_at::<T>(before, self.lazies(), k));
                    }
                }
            }
        }
    }

    /// Where no update is deferred at an internal node, the proper
    /// ancestors of every node are clean.
    proof fn lemma_all_clean(lazy: Seq<Update<T>>, size: int, x: int)
        requires
            lazy.len() == 2 * size,
            x < 2 * size,
            forall|k: int| 1 <= k < size ==> lazy[k] == T::L::e_spec(),
        ensures
            clean_above::<T>(lazy, x),
        decreases x,
    {
        if x > 1 {
            Self::lemma_all_clean(lazy, size, x / 2);
        }
    }

    /// Sets leaf `i` to `x`, after the updates deferred above it have been
    /// handed down.
    pub fn update(&mut self, i: usize, x: Value<T>)
        requires
            old(self).wf(),
            i < old(self).spec_len(),
        ensures
            final(self).wf(),
            final(self).spec_len() == old(self).spec_len(),
            final(self).spec_leaf_size() == old(self).spec_leaf_size(),
            final(self)@ == old(self)@.update(i as int, x),
    {
        let idx = i + self.leaf_size;
        self.propagate_above(idx);
        let ghost size = self.spec_leaf_size() as int;
        let ghost node1 = self.nodes();
        let ghost lazy1 = self.lazies();
        let ghost values1 = self.values();
        self.node[idx] = x;
        self.lazy[idx] = T::L::e();
        proof {
            let lazy2 = lazy1.update(idx as int, T::L::e_spec());
            assert(self.lazies() =~= lazy2);
            assert(self.nodes() =~= node1.update(idx as int, x));
            assert forall|k: int| size <= k < 2 * size && k != idx implies self.values()[k]
                == values1[k] by {
                assert(!is_descendant(k / 2, idx as int));
                lemma_deferred_elsewhere::<T>(lazy1, idx as int, T::L::e_spec(), k);
            }
            assert(!is_descendant(idx as int / 2, idx as int));
            lemma_deferred_elsewhere::<T>(lazy1, idx as int, T::L::e_spec(), idx as int / 2);
            lemma_deferred_clean::<T>(lazy1, idx as int);
            T::L::left_identity(T::L::e_spec());
            T::mapping_identity(x);
            assert(self.values()[idx as int] == x);
            assert(self@ =~= old(self)@.update(i as int, x));
            assert forall|k: int| size + self.spec_len() <= k < 2 * size implies self.values()[k]
                == T::M::e_spec() by {
                assert(values1[k] == T::M::e_spec());
            }
            assert(is_descendant(idx as int / 2, idx as int / 2));
            lemma_changed_child::<T>(
                node1,
                lazy1,
                self.nodes(),
                self.lazies(),
                size,
                idx as int,
                idx as int,
                0,
            );
        }
        self.recalc_above(idx, Ghost(0));
    }

    /// The product of the values in `range`, from left to right. The
    /// updates deferred along both ends of the range are handed down first;
    /// the values stay as they are.
    pub fn fold<R: IndexRange>(&mut self, range: R) -> (value: Value<T>)
        requires
            old(self).wf(),
            0 <= range.lower() < old(self).spec_len(),
            range.lower() <= range.upper(old(self).spec_len() as int) <= old(self).spec_len(),
        ensures
            final(self).wf(),
            final(self).spec_len() == old(self).spec_len(),
            final(self).spec_leaf_size() == old(self).spec_leaf_size(),
            final(self)@ == old(self)@,
            value == product::<T::M>(
                old(self)@.subrange(range.lower(), range.upper(old(self).spec_len() as int)),
            ),
    {
        let (l, r) = range_to_tuple(range, self.original_size);
        let ghost size = self.spec_leaf_size() as int;
        let ghost goal = product::<T::M>(self@.subrange(l as int, r as int));
        let mut l = l + self.leaf_size;
        let mut r = r + self.leaf_size;
        let l0 = odd_part_of(l);
        let r0 = odd_part_of(r) - 1;
        self.propagate_above(l0);
        self.propagate_above(r0);
        let ghost tv = self.values();
        let mut vl = T::M::e();
        let mut vr = T::M::e();
        proof {
            lemma_actual_balanced::<T>(self.nodes(), self.lazies(), size);
            assert(old(self)@.subrange(l - size, r - size) =~= tv.subrange(l as int, r as int));
            T::M::left_identity(goal);
            T::M::right_identity(goal);
        }
        while l < r
            invariant
                self.wf(),
                tv == self.values(),
                size == self.spec_leaf_size(),
                balanced::<T::M>(tv, size),
                1 <= l <= r <= 2 * size,
                clean_above::<T>(self.lazies(), odd_part(l as int)),
                clean_above::<T>(self.lazies(), odd_part(r as int) - 1),
                goal == T::M::op_spec(
                    T::M::op_spec(vl, product::<T::M>(tv.subrange(l as int, r as int))),
                    vr,
                ),
            decreases r - l,
        {
            if l % 2 == 1 {
                proof {
                    lemma_actual_clean::<T>(self.nodes(), self.lazies(), l as int);
                    lemma_clean_next::<T>(self.lazies(), (l + 1) / 2);
                    lemma_product_first::<T::M>(tv, l as int, r as int);
                    T::M::associative(vl, tv[l as int], product::<T::M>(tv.subrange(l + 1, r as int)));
                }
                let x = self.eval_at(l);
                vl = T::M::op(&vl, &x);
                l += 1;
            }
            if r % 2 == 1 {
                proof {
                    lemma_actual_clean::<T>(self.nodes(), self.lazies(), r - 1);
                    lemma_clean_before::<T>(self.lazies(), (r - 1) / 2);
                    lemma_product_last::<T::M>(tv, l as int, r as int);
                    let mid = product::<T::M>(tv.subrange(l as int, r - 1));
                    T::M::associative(vl, mid, tv[r - 1]);
                    T::M::associative(T::M::op_spec(vl, mid), tv[r - 1], vr);
                }
                r -= 1;
                let x = self.eval_at(r);
                vr = T::M::op(&x, &vr);
            }
            proof {
                lemma_pairs::<T::M>(tv, size, l as int / 2, r as int / 2);
            }
            l = l / 2;
            r = r / 2;
        }
        proof {
            T::M::right_identity(vl);
        }
        T::M::op(&vl, &vr)
    }

    /// Applies the update `a` to every value in `range`. The update is
    /// composed into what is deferred at the nodes that make up the range,
    /// after the updates deferred along both ends of the range have been
    /// handed down.
    pub fn apply_range<R: IndexRange>(&mut self, range: R, a: Update<T>)
        requires
            old(self).wf(),
            0 <= range.lower() <= range.upper(old(self).spec_len() as int) <= old(self).spec_len(),
        ensures
            final(self).wf(),
            final(self).spec_len() == old(self).spec_len(),
            final(self).spec_leaf_size() == old(self).spec_leaf_size(),
            final(self)@ == Seq::new(
                old(self).spec_len(),
                |j: int|
                    if range.lower() <= j < range.upper(old(self).spec_len() as int) {
                        T::mapping_spec(old(self)@[j], a)
                    } else {
                        old(self)@[j]
                    },
            ),
    {
        let (l, r) = range_to_tuple(range, self.original_size);
        let ghost size = self.spec_leaf_size() as int;
        let ghost n = self.spec_len() as int;
        let ghost lo = l + size;
        let ghost hi = r + size;
        let mut l = l + self.leaf_size;
        let mut r = r + self.leaf_size;
        let l0 = odd_part_of(l);
        let r0 = odd_part_of(r) - 1;
        self.propagate_above(l0);
        self.propagate_above(r0);
        let ghost node0 = self.nodes();
        let ghost lazy0 = self.lazies();
        let ghost values0 = self.values();
        proof {
            lemma_apply_start::<T>(node0, lazy0, size, lo, hi, a);
        }
        while l < r
            invariant
                self.nodes() == node0,
                self.lazies().len() == 2 * size,
                size == self.spec_leaf_size() == old(self).spec_leaf_size(),
                n == self.spec_len() == old(self).spec_len(),
                2 * size <= usize::MAX,
                apply_state::<T>(
                    node0,
                    lazy0,
                    self.lazies(),
                    size,
                    lo,
                    hi,
                    a,
                    l as int,
                    r as int,
                    l0 as int,
                    r0 as int,
                ),
            decreases r - l,
        {
            if l % 2 == 1 {
                proof {
                    lemma_apply_left::<T>(
                        node0,
                        lazy0,
                        self.lazies(),
                        size,
                        lo,
                        hi,
                        a,
                        l as int,
                        r as int,
                        l0 as int,
                        r0 as int,
                    );
                }
                let ghost before = self.lazies();
                let composed = T::L::op(&self.lazy[l], &a);
                self.lazy[l] = composed;
                proof {
                    assert(self.lazies() =~= before.update(l as int, composed));
                }
                l += 1;
            }
            if r % 2 == 1 {
                proof {
                    lemma_apply_right::<T>(
                        node0,
                        lazy0,
                        self.lazies(),
                        size,
                        lo,
                        hi,
                        a,
                        l as int,
                        r as int,
                        l0 as int,
                        r0 as int,
                    );
                }
                r -= 1;
                let ghost before = self.lazies();
                let composed = T::L::op(&self.lazy[r], &a);
                self.lazy[r] = composed;
                proof {
                    assert(self.lazies() =~= before.update(r as int, composed));
                }
            }
            proof {
                lemma_apply_up::<T>(
                    node0,
                    lazy0,
                    self.lazies(),
                    size,
                    lo,
                    hi,
                    a,
                    l as int,
                    r as int,
                    l0 as int,
                    r0 as int,
                );
            }
            l = l / 2;
            r = r / 2;
        }
        proof {
            lemma_apply_done::<T>(
                node0,
                lazy0,
                self.lazies(),
                size,
                lo,
                hi,
                a,
                l as int,
                r as int,
                l0 as int,
                r0 as int,
            );
            assert forall|k: int| size + n <= k < 2 * size implies self.values()[k]
                == T::M::e_spec() by {
                assert(self.values()[k] == actual::<T>(node0, self.lazies(), k));
                assert(values0[k] == T::M::e_spec());
            }
        }
        let ghost applied = self@;
        proof {
            assert forall|j: int| 0 <= j < n implies applied[j] == (if lo - size <= j < hi - size {
                T::mapping_spec(old(self)@[j], a)
            } else {
                old(self)@[j]
            }) by {
                assert(applied[j] == actual::<T>(node0, self.lazies(), size + j));
                assert(old(self)@[j] == values0[size + j]);
            }
        }
        self.recalc_above(l0, Ghost(r0 as int));
        proof {
            assert forall|i: int| 1 <= i < size implies #[trigger] settled_at::<T>(
                self.nodes(),
                self.lazies(),
                i,
            ) || is_below(r0 as int, i) || is_below(0, i) by {}
        }
        self.recalc_above(r0, Ghost(0));
        proof {
            assert forall|i: int| 1 <= i < size implies #[trigger] settled_at::<T>(
                self.nodes(),
                self.lazies(),
                i,
            ) by {
                assert(!is_below(0, i));
            }
            assert(self@ =~= Seq::new(
                old(self).spec_len(),
                |j: int|
                    if range.lower() <= j < range.upper(old(self).spec_len() as int) {
                        T::mapping_spec(old(self)@[j], a)
                    } else {
                        old(self)@[j]
                    },
            ));
        }
    }

    /// A product over values of the tree, read from the values that the
    /// nodes stand for.
    proof fn lemma_view_product(&self, a: int, b: int)
        requires
            self.wf(),
            0 <= a <= b <= self.spec_len(),
        ensures
            product::<T::M>(self@.subrange(a, b)) == product::<T::M>(
                self.values().subrange(self.spec_leaf_size() + a, self.spec_leaf_size() + b),
            ),
    {
        assert(self@.subrange(a, b) =~= self.values().subrange(
            self.spec_leaf_size() + a,
            self.spec_leaf_size() + b,
        ));
    }

    /// The leaves past the length add nothing to a product.
    proof fn lemma_padding(&self, a: int)
        requires
            self.wf(),
            0 <= a <= self.spec_len(),
        ensures
            product::<T::M>(self@.subrange(a, self.spec_len() as int)) == product::<T::M>(
                self.values().subrange(self.spec_leaf_size() + a, 2 * (self.spec_leaf_size() as int)),
            ),
    {
        let size = self.spec_leaf_size() as int;
        let n = self.spec_len() as int;
        self.lemma_view_product(a, n);
        lemma_product_split::<T::M>(self.values(), size + a, size + n, 2 * size);
        lemma_product_identities::<T::M>(self.values().subrange(size + n, 2 * size));
        T::M::right_identity(product::<T::M>(self.values().subrange(size + a, size + n)));
    }

    /// The largest `r` for which `f` accepts the product of the values
    /// `l..r`, found by binary search: `f` accepts the product of `l..r`,
    /// and rejects that of `l..r + 1` unless `r` is the length. Deferred
    /// updates are handed down on the way; the values stay as they are.
    pub fn max_right<F>(&mut self, l: usize, f: F) -> (r: usize) where F: Fn(&Value<T>) -> bool
        requires
            old(self).wf(),
            l <= old(self).spec_len(),
            forall|x: Value<T>| call_requires(f, (&x,)),
            forall|x: Value<T>, b1: bool, b2: bool|
                call_ensures(f, (&x,), b1) && call_ensures(f, (&x,), b2) ==> b1 == b2,
            forall|b: bool| call_ensures(f, (&T::M::e_spec(),), b) ==> b,
        ensures
            final(self).wf(),
            final(self).spec_len() == old(self).spec_len(),
            final(self).spec_leaf_size() == old(self).spec_leaf_size(),
            final(self)@ == old(self)@,
            l <= r <= old(self).spec_len(),
            call_ensures(f, (&product::<T::M>(old(self)@.subrange(l as int, r as int)),), true),
            r < old(self).spec_len() ==> call_ensures(
                f,
                (&product::<T::M>(old(self)@.subrange(l as int, r + 1)),),
                false,
            ),
    {
        let ghost size = self.spec_leaf_size() as int;
        let ghost n = self.spec_len() as int;
        let ghost from = l + size;
        let mut v = T::M::e();
        let holds = f(&v);
        if l == self.original_size {
            proof {
                assert(self@.subrange(l as int, l as int).len() == 0);
            }
            return l;
        }
        let mut cur = l + self.leaf_size;
        let top = odd_part_of(cur);
        self.propagate_above(top);
        let ghost tv = self.values();
        proof {
            lemma_actual_balanced::<T>(self.nodes(), self.lazies(), size);
            assert(tv.subrange(from, from).len() == 0);
        }
        loop
            invariant_except_break
                1 <= cur < 2 * size,
                from <= first_leaf(cur as int, size),
                v == product::<T::M>(tv.subrange(from, first_leaf(cur as int, size))),
                clean_above::<T>(self.lazies(), odd_part(cur as int)),
            invariant
                self.wf(),
                tv == self.values(),
                self@ == old(self)@,
                balanced::<T::M>(tv, size),
                size == self.spec_leaf_size() == old(self).spec_leaf_size(),
                n == self.spec_len() == old(self).spec_len(),
                from == l + size,
                size <= from < size + n,
                call_ensures(f, (&v,), true),
                forall|x: Value<T>| call_requires(f, (&x,)),
                forall|x: Value<T>, b1: bool, b2: bool|
                    call_ensures(f, (&x,), b1) && call_ensures(f, (&x,), b2) ==> b1 == b2,
            ensures
                is_power_of_two(cur as int),
                2 <= cur <= 2 * size,
                v == product::<T::M>(tv.subrange(from, end_leaf(cur - 1, size))),
            decreases 2 * size - first_leaf(cur as int, size),
        {
            let ghost start = first_leaf(cur as int, size);
            let ghost top = odd_part(cur as int);
            while cur % 2 == 0
                invariant
                    1 <= cur < 2 * size,
                    first_leaf(cur as int, size) == start,
                    odd_part(cur as int) == top,
                decreases cur,
            {
                cur = cur / 2;
            }
            proof {
                lemma_absorb_right::<T::M>(tv, size, from, cur as int);
                lemma_leaf_range(cur as int, size);
                lemma_actual_clean::<T>(self.nodes(), self.lazies(), cur as int);
            }
            let x = self.eval_at(cur);
            let cand = T::M::op(&v, &x);
            if !f(&cand) {
                proof {
                    if first_leaf(cur as int, size) >= size + n {
                        lemma_subtree_identity::<T::M>(tv, size, cur as int, size + n);
                        T::M::right_identity(v);
                    }
                }
                while cur < self.leaf_size
                    invariant
                        self.wf(),
                        tv == self.values(),
                        self@ == old(self)@,
                        balanced::<T::M>(tv, size),
                        size == self.spec_leaf_size() == old(self).spec_leaf_size(),
                        n == self.spec_len() == old(self).spec_len(),
                        1 <= cur < 2 * size,
                        from == l + size,
                        size <= from <= first_leaf(cur as int, size) < size + n,
                        v == product::<T::M>(tv.subrange(from, first_leaf(cur as int, size))),
                        clean_above::<T>(self.lazies(), cur as int),
                        call_ensures(f, (&v,), true),
                        call_ensures(f, (&T::M::op_spec(v, tv[cur as int]),), false),
                        forall|x: Value<T>| call_requires(f, (&x,)),
                        forall|x: Value<T>, b1: bool, b2: bool|
                            call_ensures(f, (&x,), b1) && call_ensures(f, (&x,), b2) ==> b1 == b2,
                    decreases 2 * size - cur,
                {
                    proof {
                        lemma_leaf_range(cur as int, size);
                        lemma_leaf_range(2 * cur, size);
                        lemma_absorb_right::<T::M>(tv, size, from, 2 * cur);
                        assert(balanced_at::<T::M>(tv, cur as int));
                        T::M::associative(v, tv[2 * cur], tv[2 * cur + 1]);
                    }
                    self.propagate_at(cur);
                    proof {
                        assert(clean_above::<T>(self.lazies(), 2 * cur));
                        assert(clean_above::<T>(self.lazies(), 2 * cur + 1));
                        lemma_actual_clean::<T>(self.nodes(), self.lazies(), 2 * cur);
                    }
                    cur = 2 * cur;
                    let x = self.eval_at(cur);
                    let cand = T::M::op(&v, &x);
                    if f(&cand) {
                        v = cand;
                        cur += 1;
                        proof {
                            if first_leaf(cur as int, size) >= size + n {
                                lemma_subtree_identity::<T::M>(tv, size, cur as int, size + n);
                                T::M::right_identity(v);
                            }
                        }
                    }
                }
                proof {
                    self.lemma_view_product(from - size, cur - size);
                    self.lemma_view_product(from - size, cur - size + 1);
                    lemma_product_last::<T::M>(tv, from, cur + 1);
                }
                return cur - self.leaf_size;
            }
            v = cand;
            cur += 1;
            if is_pow2(cur) {
                break ;
            }
            proof {
                lemma_adjacent(cur - 1, size);
                lemma_clean_next::<T>(self.lazies(), cur as int / 2);
            }
        }
        proof {
            lemma_last_of_level(cur - 1, size);
            self.lemma_padding(from - size);
        }
        self.original_size
    }

    /// The smallest `l` for which `f` accepts the product of the values
    /// `l..r`, found by binary search: `f` accepts the product of `l..r`,
    /// and rejects that of `l - 1..r` unless `l` is 0. Deferred updates are
    /// handed down on the way; the values stay as they are.
    pub fn min_left<F>(&mut self, r: usize, f: F) -> (l: usize) where F: Fn(&Value<T>) -> bool
        requires
            old(self).wf(),
            r <= old(self).spec_len(),
            forall|x: Value<T>| call_requires(f, (&x,)),
            forall|x: Value<T>, b1: bool, b2: bool|
                call_ensures(f, (&x,), b1) && call_ensures(f, (&x,), b2) ==> b1 == b2,
            forall|b: bool| call_ensures(f, (&T::M::e_spec(),), b) ==> b,
        ensures
            final(self).wf(),
            final(self).spec_len() == old(self).spec_len(),
            final(self).spec_leaf_size() == old(self).spec_leaf_size(),
            final(self)@ == old(self)@,
            l <= r,
            call_ensures(f, (&product::<T::M>(old(self)@.subrange(l as int, r as int)),), true),
            l > 0 ==> call_ensures(
                f,
                (&product::<T::M>(old(self)@.subrange(l - 1, r as int)),),
                false,
            ),
    {
        let ghost size = self.spec_leaf_size() as int;
        let ghost n = self.spec_len() as int;
        let ghost to = r + size;
        let mut v = T::M::e();
        let holds = f(&v);
        if r == 0 {
            proof {
                assert(self@.subrange(0, 0).len() == 0);
            }
            return 0;
        }
        let mut cur = r + self.leaf_size;
        let top = odd_part_of(cur) - 1;
        self.propagate_above(top);
        let ghost tv = self.values();
        proof {
            lemma_actual_balanced::<T>(self.nodes(), self.lazies(), size);
            lemma_clean_left_turn::<T>(self.lazies(), cur as int);
            assert(tv.subrange(to, to).len() == 0);
        }
        loop
            invariant_except_break
                2 <= cur <= 2 * size,
                cur > size || !is_power_of_two(cur as int),
                first_leaf(cur as int, size) <= to,
                v == product::<T::M>(tv.subrange(first_leaf(cur as int, size), to)),
                clean_above::<T>(self.lazies(), left_turn(cur - 1)),
            invariant
                self.wf(),
                tv == self.values(),
                self@ == old(self)@,
                balanced::<T::M>(tv, size),
                size == self.spec_leaf_size() == old(self).spec_leaf_size(),
                n == self.spec_len() == old(self).spec_len(),
                to == r + size,
                size < to <= size + n,
                call_ensures(f, (&v,), true),
                forall|x: Value<T>| call_requires(f, (&x,)),
                forall|x: Value<T>, b1: bool, b2: bool|
                    call_ensures(f, (&x,), b1) && call_ensures(f, (&x,), b2) ==> b1 == b2,
            ensures
                is_power_of_two(cur as int),
                1 <= cur < 2 * size,
                v == product::<T::M>(tv.subrange(first_leaf(cur as int, size), to)),
            decreases first_leaf(cur as int, size),
        {
            proof {
                lemma_adjacent(cur - 1, size);
            }
            cur -= 1;
            let ghost stop = end_leaf(cur as int, size);
            let ghost turn = left_turn(cur as int);
            while cur > 1 && cur % 2 == 1
                invariant
                    1 <= cur < 2 * size,
                    end_leaf(cur as int, size) == stop,
                    left_turn(cur as int) == turn,
                decreases cur,
            {
                cur = cur / 2;
            }
            proof {
                lemma_absorb_left::<T::M>(tv, size, cur as int, to);
                lemma_leaf_range(cur as int, size);
                lemma_actual_clean::<T>(self.nodes(), self.lazies(), cur as int);
            }
            let x = self.eval_at(cur);
            let cand = T::M::op(&x, &v);
            if !f(&cand) {
                while cur < self.leaf_size
                    invariant
                        self.wf(),
                        tv == self.values(),
                        self@ == old(self)@,
                        balanced::<T::M>(tv, size),
                        size == self.spec_leaf_size() == old(self).spec_leaf_size(),
                        n == self.spec_len() == old(self).spec_len(),
                        1 <= cur < 2 * size,
                        to == r + size,
                        size < end_leaf(cur as int, size) <= to <= size + n,
                        v == product::<T::M>(tv.subrange(end_leaf(cur as int, size), to)),
                        clean_above::<T>(self.lazies(), cur as int),
                        call_ensures(f, (&v,), true),
                        call_ensures(f, (&T::M::op_spec(tv[cur as int], v),), false),
                        forall|x: Value<T>| call_requires(f, (&x,)),
                    decreases 2 * size - cur,
                {
                    proof {
                        lemma_leaf_range(cur as int, size);
                        lemma_leaf_range(2 * cur, size);
                        lemma_leaf_range(2 * cur + 1, size);
                        lemma_absorb_left::<T::M>(tv, size, 2 * cur + 1, to);
                        assert(balanced_at::<T::M>(tv, cur as int));
                        T::M::associative(tv[2 * cur], tv[2 * cur + 1], v);
                    }
                    self.propagate_at(cur);
                    proof {
                        assert(clean_above::<T>(self.lazies(), 2 * cur));
                        assert(clean_above::<T>(self.lazies(), 2 * cur + 1));
                        lemma_actual_clean::<T>(self.nodes(), self.lazies(), 2 * cur + 1);
                    }
                    cur = 2 * cur + 1;
                    let x = self.eval_at(cur);
                    let cand = T::M::op(&x, &v);
                    if f(&cand) {
                        v = cand;
                        cur -= 1;
                    }
                }
                proof {
                    self.lemma_view_product(cur + 1 - size, to - size);
                    self.lemma_view_product(cur - size, to - size);
                    lemma_product_first::<T::M>(tv, cur as int, to);
                }
                return cur + 1 - self.leaf_size;
            }
            v = cand;
            if is_pow2(cur) {
                break ;
            }
            proof {
                lemma_clean_before::<T>(self.lazies(), cur as int);
                lemma_clean_left_turn::<T>(self.lazies(), cur as int);
            }
        }
        proof {
            lemma_first_of_level(cur as int, size);
            self.lemma_view_product(0, to - size);
        }
        0
    }

    /// Where every deferred update is the identity, nothing is deferred at
    /// and above any node.
    proof fn lemma_nothing_deferred(lazy: Seq<Update<T>>, k: int)
        requires
            0 <= k < lazy.len(),
            forall|j: int| 0 <= j < lazy.len() ==> lazy[j] == T::L::e_spec(),
        ensures
            deferred::<T>(lazy, k) == T::L::e_spec(),
        decreases k,
    {
        if k >= 1 {
            Self::lemma_nothing_deferred(lazy, k / 2);
            T::L::left_identity(T::L::e_spec());
        }
    }

    /// The stored value of node `i` with the update deferred at `i`
    /// applied.
    fn eval_at(&self, i: usize) -> (value: Value<T>)
        requires
            i < self.nodes().len(),
            i < self.lazies().len(),
        ensures
            value == eval::<T>(self.nodes(), self.lazies(), i as int),
    {
        T::mapping(&self.node[i], &self.lazy[i])
    }

    /// Applies the update deferred at node `i` to its stored value and hands
    /// it to both children.
    fn propagate_at(&mut self, i: usize)
        requires
            old(self).wf(),
            1 <= i < old(self).spec_leaf_size(),
        ensures
            final(self).wf(),
            final(self).spec_len() == old(self).spec_len(),
            final(self).spec_leaf_size() == old(self).spec_leaf_size(),
            final(self).values() == old(self).values(),
            final(self).lazies() == pushed::<T>(old(self).lazies(), i as int),
            forall|x: int|
                x < 2 * old(self).spec_leaf_size() && clean_above::<T>(old(self).lazies(), x)
                    ==> clean_above::<T>(final(self).lazies(), x),
    {
        let ghost node0 = self.nodes();
        let ghost lazy0 = self.lazies();
        let ghost size = self.spec_leaf_size() as int;
        let v = self.eval_at(i);
        self.node[i] = v;
        let left = T::L::op(&self.lazy[2 * i], &self.lazy[i]);
        self.lazy[2 * i] = left;
        let right = T::L::op(&self.lazy[2 * i + 1], &self.lazy[i]);
        self.lazy[2 * i + 1] = right;
        self.lazy[i] = T::L::e();
        proof {
            assert(self.nodes() =~= node0.update(i as int, eval::<T>(node0, lazy0, i as int)));
            assert(self.lazies() =~= pushed::<T>(lazy0, i as int));
            lemma_pushed_actual::<T>(node0, lazy0, size, i as int);
            assert(self.values() == old(self).values());
            assert forall|k: int| size + self.spec_len() <= k < 2 * size implies self.values()[k]
                == T::M::e_spec() by {
                assert(old(self).values()[k] == T::M::e_spec());
            }
            assert(self.shaped());
            assert(settled_at::<T>(node0, lazy0, i as int));
            lemma_pushed_settled::<T>(node0, lazy0, size, i as int, 0, 0);
            assert forall|j: int| 1 <= j < size implies #[trigger] settled_at::<T>(
                self.nodes(),
                self.lazies(),
                j,
            ) by {
                assert(!is_below(0, j));
            }
            assert forall|x: int| x < 2 * size && clean_above::<T>(lazy0, x) implies clean_above::<
                T,
            >(self.lazies(), x) by {
                lemma_pushed_clean::<T>(lazy0, size, i as int, x);
            }
        }
    }

    /// Hands down the updates deferred at the proper ancestors of node
    /// `i`, from the root downwards.
    fn propagate_above(&mut self, i: usize)
        requires
            old(self).wf(),
            i < 2 * old(self).spec_leaf_size(),
        ensures
            final(self).wf(),
            final(self).spec_len() == old(self).spec_len(),
            final(self).spec_leaf_size() == old(self).spec_leaf_size(),
            final(self).values() == old(self).values(),
            clean_above::<T>(final(self).lazies(), i as int),
            forall|x: int|
                x < 2 * old(self).spec_leaf_size() && clean_above::<T>(old(self).lazies(), x)
                    ==> clean_above::<T>(final(self).lazies(), x),
        decreases i,
    {
        if i > 1 {
            self.propagate_above(i / 2);
            self.propagate_at(i / 2);
        }
    }

    /// Recomputes the proper ancestors of node `start`, from the bottom up.
    fn recalc_above(&mut self, start: usize, Ghost(other): Ghost<int>)
        requires
            old(self).shaped(),
            start < 2 * old(self).spec_leaf_size(),
            settled_except::<T>(
                old(self).nodes(),
                old(self).lazies(),
                old(self).spec_leaf_size() as int,
                start as int,
                other,
            ),
        ensures
            final(self).shaped(),
            final(self).spec_len() == old(self).spec_len(),
            final(self).spec_leaf_size() == old(self).spec_leaf_size(),
            final(self).lazies() == old(self).lazies(),
            final(self)@ == old(self)@,
            settled_except::<T>(
                final(self).nodes(),
                final(self).lazies(),
                final(self).spec_leaf_size() as int,
                0,
                other,
            ),
    {
        let ghost size = self.spec_leaf_size() as int;
        let mut idx = start;
        while idx > 1
            invariant
                self.nodes().len() == 2 * size,
                size == self.spec_leaf_size(),
                2 * size <= usize::MAX,
                idx < 2 * size,
                settled_except::<T>(self.nodes(), self.lazies(), size, idx as int, other),
                self.spec_len() == old(self).spec_len(),
                self.spec_leaf_size() == old(self).spec_leaf_size(),
                self.lazies() == old(self).lazies(),
                forall|k: int| size <= k < 2 * size ==> self.nodes()[k] == old(self).nodes()[k],
            decreases idx,
        {
            proof {
                lemma_resettle_parent::<T>(self.nodes(), self.lazies(), size, idx as int, other);
            }
            let ghost before = self.nodes();
            idx = idx / 2;
            let left = self.eval_at(2 * idx);
            let right = self.eval_at(2 * idx + 1);
            let v = T::M::op(&left, &right);
            self.node[idx] = v;
            proof {
                assert(self.nodes() =~= before.update(idx as int, v));
            }
        }
        proof {
            assert forall|i: int| 1 <= i < size implies #[trigger] settled_at::<T>(
                self.nodes(),
                self.lazies(),
                i,
            ) || is_below(0, i) || is_below(other, i) by {
                assert(!is_below(idx as int, i));
            }
            assert forall|k: int| size <= k < 2 * size implies self.values()[k] == old(self).values()[k] by {}
            assert(self@ =~= old(self)@);
        }
    }
}

/// The sums of 64-bit numbers, which wrap around.
pub struct Sum64;

impl Monoid for Sum64 {
    type S = u64;

    open spec fn e_spec() -> u64 {
        0
    }

    open spec fn op_spec(left: u64, right: u64) -> u64 {
        ((left + right) % 0x1_0000_0000_0000_0000) as u64
    }

    fn op(left: &u64, right: &u64) -> (r: u64) {
        left.wrapping_add(*right)
    }

    fn e() -> (r: u64) {
        0
    }

    proof fn associative(a: u64, b: u64, c: u64) {
        lemma_add_mod_noop(a + b, c as int, 0x1_0000_0000_0000_0000);
        lemma_add_mod_noop(a as int, b + c, 0x1_0000_0000_0000_0000);
        lemma_small_mod(a as nat, 0x1_0000_0000_0000_0000);
        lemma_small_mod(c as nat, 0x1_0000_0000_0000_0000);
    }

    proof fn left_identity(a: u64) {
    }

    proof fn right_identity(a: u64) {
    }

    proof fn clone_exact(a: u64, b: u64) {
    }
}

/// The sum of a section of a sequence of 64-bit numbers, which wraps
/// around, and the length of the section.
#[derive(Clone, Copy, Debug, PartialEq, Eq)]
pub struct Section {
    pub sum: u64,
    pub len: u64,
}

/// The sums of sections that follow each other.
pub struct SumOfSection;

impl Monoid for SumOfSection {
    type S = Section;

    open spec fn e_spec() -> Section {
        Section { sum: 0, len: 0 }
    }

    open spec fn op_spec(left: Section, right: Section) -> Section {
        Section {
            sum: Sum64::op_spec(left.sum, right.sum),
            len: Sum64::op_spec(left.len, right.len),
        }
    }

    fn op(left: &Section, right: &Section) -> (r: Section) {
        Section { sum: left.sum.wrapping_add(right.sum), len: left.len.wrapping_add(right.len) }
    }

    fn e() -> (r: Section) {
        Section { sum: 0, len: 0 }
    }

    proof fn associative(a: Section, b: Section, c: Section) {
        Sum64::associative(a.sum, b.sum, c.sum);
        Sum64::associative(a.len, b.len, c.len);
    }

    proof fn left_identity(a: Section) {
    }

    proof fn right_identity(a: Section) {
    }

    proof fn clone_exact(a: Section, b: Section) {
    }
}

/// Adding a number to every entry of a section, on the sums of sections:
/// the sum grows by the number times the length.
pub struct RangeAddRangeSum;

impl ForLazySegtree for RangeAddRangeSum {
    type M = SumOfSection;

    type L = Sum64;

    open spec fn mapping_spec(m: Section, l: u64) -> Section {
        Section { sum: ((m.sum + l * m.len) % 0x1_0000_0000_0000_0000) as u64, len: m.len }
    }

    fn mapping(m: &Section, l: &u64) -> (r: Section) {
        proof {
            lemma_add_mod_noop(m.sum as int, l * m.len, 0x1_0000_0000_0000_0000);
            lemma_small_mod(m.sum as nat, 0x1_0000_0000_0000_0000);
        }
        Section { sum: m.sum.wrapping_add(l.wrapping_mul(m.len)), len: m.len }
    }

    proof fn mapping_identity(m: Section) {
        assert(0 * m.len == 0) by (nonlinear_arith);
    }

    proof fn mapping_composition(m: Section, f: u64, g: u64) {
        let r = 0x1_0000_0000_0000_0000int;
        let s = m.sum as int;
        let len = m.len as int;
        lemma_add_mod_noop(s + f * len, g * len, r);
        lemma_small_mod(((g * len) % r) as nat, r as nat);
        lemma_mul_mod_noop_general(f + g, len, r);
        lemma_add_mod_noop(s, (f + g) * len, r);
        lemma_add_mod_noop(s, ((f + g) % r) * len, r);
        assert((f + g) * len == f * len + g * len) by (nonlinear_arith);
        lemma_add_mod_noop((s + f * len) % r, g * len, r);
    }

    proof fn mapping_distributes(a: Section, b: Section, f: u64) {
        let r = 0x1_0000_0000_0000_0000int;
        let both = (a.sum + b.sum) as int;
        let len = (a.len + b.len) as int;
        let pa = f * a.len;
        let pb = f * b.len;
        let whole = f * len;
        let cut = f * (len % r);
        assert(whole == pa + pb) by (nonlinear_arith)
            requires
                whole == f * len,
                len == a.len + b.len,
                pa == f * a.len,
                pb == f * b.len,
        ;
        assert(cut % r == whole % r) by {
            lemma_mul_mod_noop_right(f as int, len, r);
        }
        assert((both % r + cut) % r == (both + cut) % r) by {
            lemma_add_mod_noop(both, cut, r);
            lemma_add_mod_noop_right(both % r, cut, r);
        }
        assert((both + cut) % r == (both + whole) % r) by {
            lemma_add_mod_noop_right(both, cut, r);
            lemma_add_mod_noop_right(both, whole, r);
        }
        assert(((a.sum + pa) % r + (b.sum + pb) % r) % r == (both + whole) % r) by {
            lemma_add_mod_noop(a.sum + pa, b.sum + pb, r);
        }
        let joined = SumOfSection::op_spec(a, b);
        assert(joined.sum == both % r);
        assert(joined.len == len % r);
        assert(Self::mapping_spec(joined, f).sum == (both % r + cut) % r);
        assert(Self::mapping_spec(a, f).sum == (a.sum + pa) % r);
        assert(Self::mapping_spec(b, f).sum == (b.sum + pb) % r);
    }
}

} // verus!
