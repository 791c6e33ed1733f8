use crate::algebra::{
    lemma_product_first, lemma_product_identities, lemma_product_last, lemma_product_split,
    product,
};
use crate::data_structure::implicit_tree::{
    balanced, balanced_at, balanced_except, end_leaf, first_leaf, is_below, is_descendant,
    is_pow2, is_power_of_two, lemma_absorb_left, lemma_absorb_right, lemma_adjacent,
    lemma_first_of_level, lemma_last_of_level, lemma_leaf_range, lemma_pairs,
    lemma_recompute_parent, lemma_subtree_identity,
};
use crate::traits::Monoid;
use crate::utils::{range_to_tuple, IndexRange};
use vstd::prelude::*;

verus! {

/// The smallest power of two that is at least `n`.
pub fn ceil_power_of_two(n: usize) -> (size: usize)
    requires
        1 <= n <= usize::MAX / 4 + 1,
    ensures
        is_power_of_two(size as int),
        n <= size < 2 * n,
        2 * size <= usize::MAX,
{
    let mut size: usize = 1;
    while size < n
        invariant
            is_power_of_two(size as int),
            size == 1 || size <= 2 * n - 2,
            1 <= n <= usize::MAX / 4 + 1,
        decreases 2 * n - size,
    {
        size = size * 2;
    }
    size
}

/// A segment tree over a monoid: point update and range product in
/// logarithmic time.
pub struct Segtree<T: Monoid> {
    original_size: usize,
    leaf_size: usize,
    node: Vec<T::S>,
}

impl<T: Monoid> View for Segtree<T> {
    type V = Seq<T::S>;

    /// The leaf values, in index order.
    open spec fn view(&self) -> Seq<T::S> {
        self.nodes().subrange(
            self.spec_leaf_size() as int,
            self.spec_leaf_size() as int + self.spec_len() as int,
        )
    }
}

impl<T: Monoid> Segtree<T> {
    /// The number of leaves that the tree was made for.
    pub closed spec fn spec_len(&self) -> nat {
        self.original_size as nat
    }

    /// The number of leaves of the complete tree.
    pub closed spec fn spec_leaf_size(&self) -> nat {
        self.leaf_size as nat
    }

    /// The stored nodes: the root at index 1, the children of `i` at `2 * i`
    /// and `2 * i + 1`, the leaves from `spec_leaf_size()` on.
    pub closed spec fn nodes(&self) -> Seq<T::S> {
        self.node@
    }

    /// The sizes fit together, and the leaves past the length hold the
    /// identity element.
    pub open spec fn shaped(&self) -> bool {
        &&& 1 <= self.spec_len() <= self.spec_leaf_size() < 2 * self.spec_len()
        &&& is_power_of_two(self.spec_leaf_size() as int)
        &&& self.nodes().len() == 2 * self.spec_leaf_size() <= usize::MAX
        &&& forall|k: int|
            self.spec_leaf_size() + self.spec_len() <= k < 2 * self.spec_leaf_size()
                ==> self.nodes()[k] == T::e_spec()
    }

    /// The tree is well formed: its sizes fit together and every internal
    /// node holds the product of its two children.
    pub open spec fn wf(&self) -> bool {
        &&& self.shaped()
        &&& balanced::<T>(self.nodes(), self.spec_leaf_size() as int)
    }

    /// A tree of `n` leaves, each holding the identity element.
    pub fn new(n: usize) -> (tree: Self)
        requires
            1 <= n <= usize::MAX / 4 + 1,
        ensures
            tree.wf(),
            tree.spec_len() == n,
            tree@ == Seq::new(n as nat, |j: int| T::e_spec()),
            forall|k: int| 0 <= k < 2 * tree.spec_leaf_size() ==> tree.nodes()[k] == T::e_spec(),
    {
        let size = ceil_power_of_two(n);
        let node = vec![T::e(); 2 * size];
        let tree = Segtree { original_size: n, leaf_size: size, node };
        proof {
            assert forall|k: int| 0 <= k < 2 * size implies tree.nodes()[k] == T::e_spec() by {
                T::clone_exact(T::e_spec(), tree.nodes()[k]);
            }
            assert forall|i: int| 1 <= i < size implies #[trigger] balanced_at::<T>(
                tree.nodes(),
                i,
            ) by {
                T::left_identity(T::e_spec());
            }
            assert(tree@ =~= Seq::new(n as nat, |j: int| T::e_spec()));
        }
        tree
    }

    /// Overwrites the first leaves with `vec`, in order, and recomputes
    /// every internal node.
    pub fn build(&mut self, vec: &[T::S])
        requires
            old(self).wf(),
            vec@.len() <= old(self).spec_len(),
        ensures
            final(self).wf(),
            final(self).spec_len() == old(self).spec_len(),
            final(self).spec_leaf_size() == old(self).spec_leaf_size(),
            final(self)@ == vec@ + old(self)@.subrange(vec@.len() as int, old(self)@.len() as int),
    {
        let mut i: usize = 0;
        while i < vec.len()
            invariant
                self.shaped(),
                i <= vec@.len() <= self.spec_len() == old(self)@.len(),
                self.spec_len() == old(self).spec_len(),
                self.spec_leaf_size() == old(self).spec_leaf_size(),
                self@ == vec@.subrange(0, i as int) + old(self)@.subrange(
                    i as int,
                    old(self)@.len() as int,
                ),
            decreases vec@.len() - i,
        {
            let idx = i + self.leaf_size;
            let ele = vec[i].clone();
            proof {
                T::clone_exact(vec@[i as int], ele);
            }
            let ghost before = self@;
            self.node[idx] = ele;
            proof {
                assert(self@ =~= before.update(i as int, ele));
            }
            i += 1;
            proof {
                assert(self@ =~= vec@.subrange(0, i as int) + old(self)@.subrange(
                    i as int,
                    old(self)@.len() as int,
                ));
            }
        }
        proof {
            assert(vec@.subrange(0, i as int) =~= vec@);
        }
        let mut i: usize = self.leaf_size;
        while i > 1
            invariant
                self.shaped(),
                1 <= i <= self.spec_leaf_size(),
                vec@.len() <= self.spec_len() == old(self)@.len(),
                self.spec_len() == old(self).spec_len(),
                self.spec_leaf_size() == old(self).spec_leaf_size(),
                self@ == vec@ + old(self)@.subrange(vec@.len() as int, old(self)@.len() as int),
                forall|k: int| i <= k < self.spec_leaf_size() ==> #[trigger] balanced_at::<T>(self.nodes(), k),
            decreases i,
        {
            i -= 1;
            let ghost before = self.nodes();
            let v = T::op(&self.node[2 * i], &self.node[2 * i + 1]);
            self.node[i] = v;
            proof {
                assert(self.nodes() =~= before.update(i as int, v));
                assert(self@ =~= vec@ + old(self)@.subrange(
                    vec@.len() as int,
                    old(self)@.len() as int,
                ));
                assert forall|k: int| i <= k < self.spec_leaf_size() implies #[trigger] balanced_at::<T>(
                    self.nodes(),
                    k,
                ) by {
                    if k > i {
                        assert(balanced_at::<T>(before, k));
                    }
                }
            }
        }
    }

    /// Sets leaf `i` to `x`.
    pub fn update(&mut self, i: usize, x: T::S)
        requires
            old(self).wf(),
            i < old(self).spec_len(),
        ensures
            final(self).wf(),
            final(self).spec_len() == old(self).spec_len(),
            final(self).spec_leaf_size() == old(self).spec_leaf_size(),
            final(self)@ == old(self)@.update(i as int, x),
    {
        let idx = i + self.leaf_size;
        self.node[idx] = x;
        proof {
            self.lemma_leaf_changed(*old(self), idx as int);
            assert(self@ =~= old(self)@.update(i as int, x));
        }
        self.recalc_above(idx);
    }

    /// Sets leaf `idx` to the product of its value and `x`, the value on the
    /// left.
    pub fn add(&mut self, idx: usize, x: T::S)
        requires
            old(self).wf(),
            idx < old(self).spec_len(),
        ensures
            final(self).wf(),
            final(self).spec_len() == old(self).spec_len(),
            final(self).spec_leaf_size() == old(self).spec_leaf_size(),
            final(self)@ == old(self)@.update(idx as int, T::op_spec(old(self)@[idx as int], x)),
    {
        let pos = idx + self.leaf_size;
        let v = T::op(&self.node[pos], &x);
        self.node[pos] = v;
        proof {
            self.lemma_leaf_changed(*old(self), pos as int);
            assert(self@ =~= old(self)@.update(idx as int, v));
        }
        self.recalc_above(pos);
    }

    /// The product of the leaves in `range`, from left to right.
    pub fn fold<R: IndexRange>(&self, range: R) -> (value: T::S)
        requires
            self.wf(),
            0 <= range.lower() < self.spec_len(),
            range.lower() <= range.upper(self.spec_len() as int) <= self.spec_len(),
        ensures
            value == product::<T>(
                self@.subrange(range.lower(), range.upper(self.spec_len() as int)),
            ),
    {
        let (l, r) = range_to_tuple(range, self.original_size);
        self.query(l, r)
    }

    /// The product of the leaves `l..r`.
    fn query(&self, l: usize, r: usize) -> (value: T::S)
        requires
            self.wf(),
            l <= r <= self.spec_len(),
        ensures
            value == product::<T>(self@.subrange(l as int, r as int)),
    {
        let ghost nodes = self.nodes();
        let ghost size = self.spec_leaf_size() as int;
        let ghost goal = product::<T>(self@.subrange(l as int, r as int));
        let mut l = l + self.leaf_size;
        let mut r = r + self.leaf_size;
        let mut vl = T::e();
        let mut vr = T::e();
        proof {
            assert(self@.subrange(l - size, r - size) =~= nodes.subrange(l as int, r as int));
            T::left_identity(goal);
            T::right_identity(goal);
        }
        while l < r
            invariant
                self.wf(),
                nodes == self.nodes(),
                size == self.spec_leaf_size(),
                1 <= l <= r <= 2 * size,
                goal == T::op_spec(
                    T::op_spec(vl, product::<T>(nodes.subrange(l as int, r as int))),
                    vr,
                ),
            decreases r - l,
        {
            if l % 2 == 1 {
                proof {
                    lemma_product_first::<T>(nodes, l as int, r as int);
                    T::associative(vl, nodes[l as int], product::<T>(nodes.subrange(l + 1, r as int)));
                }
                vl = T::op(&vl, &self.node[l]);
                l += 1;
            }
            if r % 2 == 1 {
                proof {
                    lemma_product_last::<T>(nodes, l as int, r as int);
                    let mid = product::<T>(nodes.subrange(l as int, r - 1));
                    T::associative(vl, mid, nodes[r - 1]);
                    T::associative(T::op_spec(vl, mid), nodes[r - 1], vr);
                }
                r -= 1;
                vr = T::op(&self.node[r], &vr);
            }
            proof {
                lemma_pairs::<T>(nodes, size, l as int / 2, r as int / 2);
            }
            l = l / 2;
            r = r / 2;
        }
        proof {
            T::right_identity(vl);
        }
        T::op(&vl, &vr)
    }

    /// The value of leaf `idx`.
    pub fn get(&self, idx: usize) -> (value: &T::S)
        requires
            self.wf(),
            idx < self.spec_len(),
        ensures
            *value == self@[idx as int],
    {
        &self.node[idx + self.leaf_size]
    }

    /// A product over leaves of the tree, read from the stored nodes.
    proof fn lemma_view_product(&self, a: int, b: int)
        requires
            self.wf(),
            0 <= a <= b <= self.spec_len(),
        ensures
            product::<T>(self@.subrange(a, b)) == product::<T>(
                self.nodes().subrange(self.spec_leaf_size() + a, self.spec_leaf_size() + b),
            ),
    {
        assert(self@.subrange(a, b) =~= self.nodes().subrange(
            self.spec_leaf_size() + a,
            self.spec_leaf_size() + b,
        ));
    }

    /// The leaves past the length add nothing to a product.
    proof fn lemma_padding(&self, a: int)
        requires
            self.wf(),
            0 <= a <= self.spec_len(),
        ensures
            product::<T>(self@.subrange(a, self.spec_len() as int)) == product::<T>(
                self.nodes().subrange(self.spec_leaf_size() + a, 2 * (self.spec_leaf_size() as int)),
            ),
    {
        let size = self.spec_leaf_size() as int;
        let n = self.spec_len() as int;
        self.lemma_view_product(a, n);
        lemma_product_split::<T>(self.nodes(), size + a, size + n, 2 * size);
        lemma_product_identities::<T>(self.nodes().subrange(size + n, 2 * size));
        T::right_identity(product::<T>(self.nodes().subrange(size + a, size + n)));
    }

    /// The largest `r` for which `f` accepts the product of the leaves
    /// `l..r`, found by binary search: `f` accepts the product of `l..r`,
    /// and rejects that of `l..r + 1` unless `r` is the length.
    pub fn max_right<F>(&self, l: usize, f: F) -> (r: usize) where F: Fn(&T::S) -> bool
        requires
            self.wf(),
            l <= self.spec_len(),
            forall|x: T::S| call_requires(f, (&x,)),
            forall|x: T::S, b1: bool, b2: bool|
                call_ensures(f, (&x,), b1) && call_ensures(f, (&x,), b2) ==> b1 == b2,
            forall|b: bool| call_ensures(f, (&T::e_spec(),), b) ==> b,
        ensures
            l <= r <= self.spec_len(),
            call_ensures(f, (&product::<T>(self@.subrange(l as int, r as int)),), true),
            r < self.spec_len() ==> call_ensures(
                f,
                (&product::<T>(self@.subrange(l as int, r + 1)),),
                false,
            ),
    {
        let ghost nodes = self.nodes();
        let ghost size = self.spec_leaf_size() as int;
        let ghost n = self.spec_len() as int;
        let ghost from = l + size;
        let mut v = T::e();
        let holds = f(&v);
        if l == self.original_size {
            proof {
                assert(self@.subrange(l as int, l as int).len() == 0);
            }
            return l;
        }
        let mut cur = l + self.leaf_size;
        proof {
            assert(nodes.subrange(from, from).len() == 0);
        }
        loop
            invariant_except_break
                1 <= cur < 2 * size,
                from <= first_leaf(cur as int, size),
                v == product::<T>(nodes.subrange(from, first_leaf(cur as int, size))),
            invariant
                self.wf(),
                nodes == self.nodes(),
                size == self.spec_leaf_size(),
                n == self.spec_len(),
                from == l + size,
                size <= from < size + n,
                call_ensures(f, (&v,), true),
                forall|x: T::S| call_requires(f, (&x,)),
                forall|x: T::S, b1: bool, b2: bool|
                    call_ensures(f, (&x,), b1) && call_ensures(f, (&x,), b2) ==> b1 == b2,
            ensures
                is_power_of_two(cur as int),
                2 <= cur <= 2 * size,
                from == l + size,
                v == product::<T>(nodes.subrange(from, end_leaf(cur - 1, size))),
                call_ensures(f, (&v,), true),
            decreases 2 * size - first_leaf(cur as int, size),
        {
            let ghost start = first_leaf(cur as int, size);
            while cur % 2 == 0
                invariant
                    1 <= cur < 2 * size,
                    first_leaf(cur as int, size) == start,
                decreases cur,
            {
                cur = cur / 2;
            }
            proof {
                lemma_absorb_right::<T>(nodes, size, from, cur as int);
                lemma_leaf_range(cur as int, size);
            }
            let cand = T::op(&v, &self.node[cur]);
            if !f(&cand) {
                proof {
                    if first_leaf(cur as int, size) >= size + n {
                        lemma_subtree_identity::<T>(nodes, size, cur as int, size + n);
                        T::right_identity(v);
                    }
                }
                while cur < self.leaf_size
                    invariant
                        self.wf(),
                        nodes == self.nodes(),
                        size == self.spec_leaf_size(),
                        n == self.spec_len(),
                        1 <= cur < 2 * size,
                        from == l + size,
                        size <= from <= first_leaf(cur as int, size) < size + n,
                        v == product::<T>(nodes.subrange(from, first_leaf(cur as int, size))),
                        call_ensures(f, (&v,), true),
                        call_ensures(f, (&T::op_spec(v, nodes[cur as int]),), false),
                        forall|x: T::S| call_requires(f, (&x,)),
                        forall|x: T::S, b1: bool, b2: bool|
                            call_ensures(f, (&x,), b1) && call_ensures(f, (&x,), b2) ==> b1 == b2,
                    decreases 2 * size - cur,
                {
                    proof {
                        lemma_leaf_range(cur as int, size);
                        lemma_leaf_range(2 * cur, size);
                        lemma_absorb_right::<T>(nodes, size, from, 2 * cur);
                        assert(balanced_at::<T>(nodes, cur as int));
                        T::associative(v, nodes[2 * cur], nodes[2 * cur + 1]);
                    }
                    cur = 2 * cur;
                    let cand = T::op(&v, &self.node[cur]);
                    if f(&cand) {
                        v = cand;
                        cur += 1;
                        proof {
                            if first_leaf(cur as int, size) >= size + n {
                                lemma_subtree_identity::<T>(nodes, size, cur as int, size + n);
                                T::right_identity(v);
                            }
                        }
                    }
                }
                proof {
                    self.lemma_view_product(from - size, cur - size);
                    self.lemma_view_product(from - size, cur - size + 1);
                    lemma_product_last::<T>(nodes, from, cur + 1);
                }
                return cur - self.leaf_size;
            }
            v = cand;
            cur += 1;
            if is_pow2(cur) {
                break ;
            }
            proof {
                lemma_adjacent(cur - 1, size);
                lemma_leaf_range(cur - 1, size);
            }
        }
        proof {
            lemma_last_of_level(cur - 1, size);
            self.lemma_padding(from - size);
        }
        self.original_size
    }

    /// The smallest `l` for which `f` accepts the product of the leaves
    /// `l..r`, found by binary search: `f` accepts the product of `l..r`,
    /// and rejects that of `l - 1..r` unless `l` is 0.
    pub fn min_left<F>(&self, r: usize, f: F) -> (l: usize) where F: Fn(&T::S) -> bool
        requires
            self.wf(),
            r <= self.spec_len(),
            forall|x: T::S| call_requires(f, (&x,)),
            forall|x: T::S, b1: bool, b2: bool|
                call_ensures(f, (&x,), b1) && call_ensures(f, (&x,), b2) ==> b1 == b2,
            forall|b: bool| call_ensures(f, (&T::e_spec(),), b) ==> b,
        ensures
            l <= r,
            call_ensures(f, (&product::<T>(self@.subrange(l as int, r as int)),), true),
            l > 0 ==> call_ensures(f, (&product::<T>(self@.subrange(l - 1, r as int)),), false),
    {
        let ghost nodes = self.nodes();
        let ghost size = self.spec_leaf_size() as int;
        let ghost n = self.spec_len() as int;
        let ghost to = r + size;
        let mut v = T::e();
        let holds = f(&v);
        if r == 0 {
            proof {
                assert(self@.subrange(0, 0).len() == 0);
            }
            return 0;
        }
        let mut cur = r + self.leaf_size;
        proof {
            assert(nodes.subrange(to, to).len() == 0);
        }
        loop
            invariant_except_break
                2 <= cur <= 2 * size,
                cur > size || !is_power_of_two(cur as int),
                first_leaf(cur as int, size) <= to,
                v == product::<T>(nodes.subrange(first_leaf(cur as int, size), to)),
            invariant
                self.wf(),
                nodes == self.nodes(),
                size == self.spec_leaf_size(),
                n == self.spec_len(),
                to == r + size,
                size < to <= size + n,
                call_ensures(f, (&v,), true),
                forall|x: T::S| call_requires(f, (&x,)),
                forall|x: T::S, b1: bool, b2: bool|
                    call_ensures(f, (&x,), b1) && call_ensures(f, (&x,), b2) ==> b1 == b2,
            ensures
                is_power_of_two(cur as int),
                1 <= cur < 2 * size,
                v == product::<T>(nodes.subrange(first_leaf(cur as int, size), to)),
            decreases first_leaf(cur as int, size),
        {
            proof {
                lemma_adjacent(cur - 1, size);
            }
            cur -= 1;
            let ghost stop = end_leaf(cur as int, size);
            while cur > 1 && cur % 2 == 1
                invariant
                    1 <= cur < 2 * size,
                    end_leaf(cur as int, size) == stop,
                decreases cur,
            {
                cur = cur / 2;
            }
            proof {
                lemma_absorb_left::<T>(nodes, size, cur as int, to);
                lemma_leaf_range(cur as int, size);
            }
            let cand = T::op(&self.node[cur], &v);
            if !f(&cand) {
                while cur < self.leaf_size
                    invariant
                        self.wf(),
                        nodes == self.nodes(),
                        size == self.spec_leaf_size(),
                        n == self.spec_len(),
                        1 <= cur < 2 * size,
                        to == r + size,
                        size < end_leaf(cur as int, size) <= to <= size + n,
                        v == product::<T>(nodes.subrange(end_leaf(cur as int, size), to)),
                        call_ensures(f, (&v,), true),
                        call_ensures(f, (&T::op_spec(nodes[cur as int], v),), false),
                        forall|x: T::S| call_requires(f, (&x,)),
                    decreases 2 * size - cur,
                {
                    proof {
                        lemma_leaf_range(cur as int, size);
                        lemma_leaf_range(2 * cur, size);
                        lemma_leaf_range(2 * cur + 1, size);
                        lemma_absorb_left::<T>(nodes, size, 2 * cur + 1, to);
                        assert(balanced_at::<T>(nodes, cur as int));
                        T::associative(nodes[2 * cur], nodes[2 * cur + 1], v);
                    }
                    cur = 2 * cur + 1;
                    let cand = T::op(&self.node[cur], &v);
                    if f(&cand) {
                        v = cand;
                        cur -= 1;
                    }
                }
                proof {
                    self.lemma_view_product(cur + 1 - size, to - size);
                    self.lemma_view_product(cur - size, to - size);
                    lemma_product_first::<T>(nodes, cur as int, to);
                }
                return cur + 1 - self.leaf_size;
            }
            v = cand;
            if is_pow2(cur) {
                break ;
            }
        }
        proof {
            lemma_first_of_level(cur as int, size);
            self.lemma_view_product(0, to - size);
        }
        0
    }

    /// After a change of one leaf of a well-formed tree only the proper
    /// ancestors of that leaf can be unbalanced.
    proof fn lemma_leaf_changed(&self, before: Self, pos: int)
        requires
            before.wf(),
            before.spec_leaf_size() <= pos < before.spec_leaf_size() + before.spec_len(),
            self.spec_len() == before.spec_len(),
            self.spec_leaf_size() == before.spec_leaf_size(),
            self.nodes() == before.nodes().update(pos, self.nodes()[pos]),
        ensures
            self.shaped(),
            balanced_except::<T>(self.nodes(), self.spec_leaf_size() as int, pos, 0),
    {
        assert forall|i: int| 1 <= i < self.spec_leaf_size() implies #[trigger] balanced_at::<T>(
            self.nodes(),
            i,
        ) || is_below(pos, i) || is_below(0, i) by {
            assert(balanced_at::<T>(before.nodes(), i));
            if 2 * i == pos || 2 * i + 1 == pos {
                assert(is_descendant(pos / 2, i));
            }
        }
    }

    /// Recomputes the proper ancestors of node `start`, from the bottom up.
    fn recalc_above(&mut self, start: usize)
        requires
            old(self).shaped(),
            1 <= start < 2 * old(self).spec_leaf_size(),
            balanced_except::<T>(old(self).nodes(), old(self).spec_leaf_size() as int, start as int, 0),
        ensures
            final(self).wf(),
            final(self).spec_len() == old(self).spec_len(),
            final(self).spec_leaf_size() == old(self).spec_leaf_size(),
            final(self)@ == old(self)@,
    {
        let mut idx = start;
        while idx > 1
            invariant
                self.shaped(),
                1 <= idx < 2 * self.spec_leaf_size(),
                balanced_except::<T>(self.nodes(), self.spec_leaf_size() as int, idx as int, 0),
                self.spec_len() == old(self).spec_len(),
                self.spec_leaf_size() == old(self).spec_leaf_size(),
                self@ == old(self)@,
            decreases idx,
        {
            proof {
                lemma_recompute_parent::<T>(self.nodes(), self.spec_leaf_size() as int, idx as int, 0);
            }
            let ghost before = self.nodes();
            idx = idx / 2;
            let v = T::op(&self.node[2 * idx], &self.node[2 * idx + 1]);
            self.node[idx] = v;
            proof {
                assert(self.nodes() =~= before.update(idx as int, v));
                assert(self@ =~= old(self)@);
            }
        }
        proof {
            assert forall|i: int| 1 <= i < self.spec_leaf_size() implies #[trigger] balanced_at::<T>(
                self.nodes(),
                i,
            ) by {
                assert(!is_below(idx as int, i) && !is_below(0, i));
            }
        }
    }
}

} // verus!
