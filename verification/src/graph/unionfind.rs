use crate::graph::forest::{
    find, is_forest, lemma_bounded_set, lemma_compress_all, lemma_find_is_root, lemma_link_all,
    class, raised, sizes_kept,
};
use crate::graph::potential::{
    is_weighted_forest, lemma_weighted_compress, lemma_weighted_link, potential,
};
use crate::traits::{Commutative, CommutaitveGroup, Group, Inv, Monoid};
use vstd::prelude::*;
use vstd::std_specs::cmp::PartialEqSpec;

verus! {

/// A partition of `0..n` into classes, which can be merged: each class is a
/// tree of parent pointers, with the size of the class kept at its root.
pub struct UnionFind {
    len: usize,
    par: Vec<usize>,
    size: Vec<usize>,
    height: Ghost<Seq<int>>,
    bound: Ghost<int>,
}

impl UnionFind {
    /// The number of elements.
    pub closed spec fn spec_len(&self) -> nat {
        self.len as nat
    }

    /// The representative of the class of `x`: the root of its tree.
    pub closed spec fn root_of(&self, x: int) -> int {
        find(self.par@, self.height@, self.bound@, x)
    }

    /// A bound on the number of steps from `x` up to its root.
    pub closed spec fn climb(&self, x: int) -> int {
        self.bound@ - self.height@[x]
    }

    /// The class of `x`: the elements with the same representative.
    pub open spec fn class_of(&self, x: int) -> Set<int> {
        Set::new(|z: int| 0 <= z < self.spec_len() && self.root_of(z) == self.root_of(x))
    }

    /// The parent pointers form a forest over `0..n`, and each root holds
    /// the size of its class.
    pub closed spec fn wf(&self) -> bool {
        &&& self.par@.len() == self.len
        &&& self.size@.len() == self.len
        &&& is_forest(self.par@, self.height@, self.bound@)
        &&& sizes_kept(self.par@, self.height@, self.bound@, self.size@)
    }

    /// The representatives are elements, and each stands for itself.
    pub proof fn lemma_root_of(&self, x: int)
        requires
            self.wf(),
            0 <= x < self.spec_len(),
        ensures
            0 <= self.root_of(x) < self.spec_len(),
            self.root_of(self.root_of(x)) == self.root_of(x),
    {
        lemma_find_is_root(self.par@, self.height@, self.bound@, x);
    }

    /// The partition of `0..n` in which every element is alone.
    pub fn new(n: usize) -> (uf: Self)
        ensures
            uf.wf(),
            uf.spec_len() == n,
            forall|x: int| 0 <= x < n ==> uf.root_of(x) == x,
    {
        let mut par: Vec<usize> = Vec::new();
        let mut size: Vec<usize> = Vec::new();
        let ghost height = Seq::new(n as nat, |i: int| 0int);
        let mut i: usize = 0;
        while i < n
            invariant
                i <= n,
                par@.len() == i,
                size@.len() == i,
                forall|k: int| 0 <= k < i ==> par@[k] == k && size@[k] == 1,
            decreases n - i,
        {
            par.push(i);
            size.push(1);
            i += 1;
        }
        let uf = UnionFind { len: n, par, size, height: Ghost(height), bound: Ghost(0) };
        proof {
            assert(is_forest(uf.par@, uf.height@, uf.bound@));
            assert forall|r: int| 0 <= r < n implies #[trigger] uf.size@[r] == class(
                uf.par@,
                uf.height@,
                uf.bound@,
                r,
            ).len() by {
                assert forall|z: int| 0 <= z < n implies find(uf.par@, uf.height@, uf.bound@, z)
                    == z by {}
                assert(class(uf.par@, uf.height@, uf.bound@, r) =~= set![r]);
                assert(set![r].len() == 1);
            }
        }
        uf
    }

    /// The representative of the class of `x`. The path from `x` to the
    /// root is shortened on the way; the partition stays as it is.
    pub fn root(&mut self, x: usize) -> (r: usize)
        requires
            old(self).wf(),
            x < old(self).spec_len(),
        ensures
            final(self).wf(),
            final(self).spec_len() == old(self).spec_len(),
            r == old(self).root_of(x as int),
            r < old(self).spec_len(),
            forall|z: int|
                0 <= z < old(self).spec_len() ==> final(self).root_of(z) == old(self).root_of(z),
            forall|z: int|
                0 <= z < old(self).spec_len() ==> final(self).spec_size(z) == old(self).spec_size(
                    z,
                ),
        decreases old(self).climb(x as int),
    {
        let p = self.par[x];
        proof {
            lemma_find_is_root(self.par@, self.height@, self.bound@, x as int);
        }
        if p == x {
            x
        } else {
            let r = self.root(p);
            proof {
                assert(self.root_of(x as int) == old(self).root_of(x as int));
                lemma_compress_all(self.par@, self.height@, self.bound@, self.size@, x as int);
            }
            let ghost par1 = self.par@;
            self.par[x] = r;
            proof {
                assert(self.par@ =~= par1.update(x as int, r));
            }
            r
        }
    }

    /// The number stored for `z` as the size of a class; it is the size of
    /// the class of `z` where `z` is a representative.
    pub closed spec fn spec_size(&self, z: int) -> nat {
        self.size@[z] as nat
    }

    /// Each representative holds the size of its class.
    pub proof fn lemma_size(&self, x: int)
        requires
            self.wf(),
            0 <= x < self.spec_len(),
        ensures
            self.spec_size(self.root_of(x)) == self.class_of(x).len(),
            self.class_of(x).finite(),
            self.class_of(x).contains(x),
            1 <= self.class_of(x).len() <= self.spec_len(),
    {
        let r = self.root_of(x);
        lemma_find_is_root(self.par@, self.height@, self.bound@, x);
        assert(self.class_of(x) =~= class(self.par@, self.height@, self.bound@, r));
        assert(self.size@[r] == class(self.par@, self.height@, self.bound@, r).len());
        lemma_bounded_set(self.class_of(x), self.len as int);
        assert(self.class_of(x).contains(x));
        if self.class_of(x).len() == 0 {
            assert(self.class_of(x) =~= Set::<int>::empty());
        }
    }

    /// The representative that the classes of `x` and `y` get when they are
    /// merged: that of the larger class, and that of `x` where they are of
    /// one size.
    pub open spec fn winner(&self, x: int, y: int) -> int {
        if self.spec_size(self.root_of(x)) < self.spec_size(self.root_of(y)) {
            self.root_of(y)
        } else {
            self.root_of(x)
        }
    }

    /// The representative that stops being one when the classes of `x` and
    /// `y` are merged.
    pub open spec fn loser(&self, x: int, y: int) -> int {
        if self.spec_size(self.root_of(x)) < self.spec_size(self.root_of(y)) {
            self.root_of(x)
        } else {
            self.root_of(y)
        }
    }

    /// Merges the classes of `x` and `y`, and says whether they were two.
    /// The smaller class is hung below the representative of the larger.
    pub fn unite(&mut self, x: usize, y: usize) -> (merged: bool)
        requires
            old(self).wf(),
            x < old(self).spec_len(),
            y < old(self).spec_len(),
        ensures
            final(self).wf(),
            final(self).spec_len() == old(self).spec_len(),
            merged == (old(self).root_of(x as int) != old(self).root_of(y as int)),
            forall|z: int|
                0 <= z < old(self).spec_len() ==> final(self).root_of(z) == (if merged && old(self).root_of(z) == old(self).loser(x as int, y as int) {
                    old(self).winner(x as int, y as int)
                } else {
                    old(self).root_of(z)
                }),
    {
        let mut a = self.root(x);
        let mut b = self.root(y);
        if a == b {
            return false;
        }
        if self.size[a] < self.size[b] {
            std::mem::swap(&mut a, &mut b);
        }
        proof {
            lemma_find_is_root(self.par@, self.height@, self.bound@, x as int);
            lemma_find_is_root(self.par@, self.height@, self.bound@, y as int);
            assert(a == old(self).winner(x as int, y as int));
            assert(b == old(self).loser(x as int, y as int));
            lemma_link_all(self.par@, self.height@, self.bound@, self.size@, a as int, b as int);
        }
        let ghost par1 = self.par@;
        let ghost size1 = self.size@;
        self.par[b] = a;
        let total = self.size[a] + self.size[b];
        self.size[a] = total;
        proof {
            self.height = Ghost(raised(self.height@, a as int, b as int));
            self.bound = Ghost(self.bound@ + 1);
            assert(self.par@ =~= par1.update(b as int, a));
            assert(self.size@ =~= size1.update(a as int, total));
        }
        true
    }

    /// Whether `x` and `y` are in one class.
    pub fn issame(&mut self, x: usize, y: usize) -> (same: bool)
        requires
            old(self).wf(),
            x < old(self).spec_len(),
            y < old(self).spec_len(),
        ensures
            final(self).wf(),
            final(self).spec_len() == old(self).spec_len(),
            same == (old(self).root_of(x as int) == old(self).root_of(y as int)),
            forall|z: int|
                0 <= z < old(self).spec_len() ==> final(self).root_of(z) == old(self).root_of(z),
    {
        let rx = self.root(x);
        let ry = self.root(y);
        if rx == ry {
            return true;
        }
        false
    }

    /// The number of elements in the class of `x`.
    pub fn size(&mut self, x: usize) -> (count: usize)
        requires
            old(self).wf(),
            x < old(self).spec_len(),
        ensures
            final(self).wf(),
            final(self).spec_len() == old(self).spec_len(),
            count == old(self).class_of(x as int).len(),
            forall|z: int|
                0 <= z < old(self).spec_len() ==> final(self).root_of(z) == old(self).root_of(z),
    {
        proof {
            old(self).lemma_size(x as int);
        }
        let r = self.root(x);
        self.size[r]
    }

    /// The representatives among the elements below `k`.
    pub open spec fn roots_below(&self, k: int) -> Set<int> {
        Set::new(|r: int| 0 <= r < k && self.root_of(r) == r)
    }

    /// The number of classes.
    pub fn group_count(&mut self) -> (count: usize)
        requires
            old(self).wf(),
        ensures
            final(self).wf(),
            final(self).spec_len() == old(self).spec_len(),
            count == old(self).roots_below(old(self).spec_len() as int).len(),
            forall|z: int|
                0 <= z < old(self).spec_len() ==> final(self).root_of(z) == old(self).root_of(z),
    {
        let n = self.len;
        let mut cnt: Vec<usize> = vec![0; n];
        let mut i: usize = 0;
        while i < n
            invariant
                self.wf(),
                old(self).wf(),
                n == self.spec_len() == old(self).spec_len(),
                i <= n,
                cnt@.len() == n,
                forall|z: int| 0 <= z < n ==> self.root_of(z) == old(self).root_of(z),
                forall|r: int| 0 <= r < n ==> (#[trigger] cnt@[r]) <= i,
                forall|r: int| 0 <= r < n && (#[trigger] cnt@[r]) > 0 ==> old(self).root_of(r) == r,
                forall|j: int| 0 <= j < i ==> cnt@[#[trigger] old(self).root_of(j)] > 0,
            decreases n - i,
        {
            proof {
                old(self).lemma_root_of(i as int);
            }
            let r = self.root(i);
            let ghost before = cnt@;
            let c = cnt[r] + 1;
            cnt[r] = c;
            i += 1;
            proof {
                assert forall|j: int| 0 <= j < i implies cnt@[#[trigger] old(self).root_of(j)]
                    > 0 by {
                    old(self).lemma_root_of(j);
                    if j < i - 1 {
                        assert(before[old(self).root_of(j)] > 0);
                    }
                }
            }
        }
        let mut count: usize = 0;
        let mut k: usize = 0;
        proof {
            assert(old(self).roots_below(0) =~= Set::<int>::empty());
        }
        while k < n
            invariant
                old(self).wf(),
                n == old(self).spec_len(),
                k <= n,
                cnt@.len() == n,
                count <= k,
                old(self).roots_below(k as int).finite(),
                count == old(self).roots_below(k as int).len(),
                forall|r: int| 0 <= r < n && (#[trigger] cnt@[r]) > 0 ==> old(self).root_of(r) == r,
                forall|j: int| 0 <= j < n ==> cnt@[#[trigger] old(self).root_of(j)] > 0,
            decreases n - k,
        {
            proof {
                old(self).lemma_root_of(k as int);
                if old(self).root_of(k as int) == k {
                    assert(old(self).roots_below(k + 1) =~= old(self).roots_below(k as int).insert(
                        k as int,
                    ));
                } else {
                    assert(old(self).roots_below(k + 1) =~= old(self).roots_below(k as int));
                }
            }
            if 0 < cnt[k] {
                count += 1;
            }
            k += 1;
        }
        count
    }
}

/// A partition of `0..n` into classes, which can be merged, with a
/// potential for each element: a value of a commutative group, known up to
/// a common factor within each class.
pub struct AbelPotentialedUnionFind<T> where T: CommutaitveGroup {
    len: usize,
    par: Vec<usize>,
    size: Vec<usize>,
    diff_weight: Vec<T::S>,
    height: Ghost<Seq<int>>,
    bound: Ghost<int>,
}

impl<T> AbelPotentialedUnionFind<T> where T: CommutaitveGroup, T::S: Eq {
    /// The number of elements.
    pub closed spec fn spec_len(&self) -> nat {
        self.len as nat
    }

    /// The representative of the class of `x`: the root of its tree.
    pub closed spec fn root_of(&self, x: int) -> int {
        find(self.par@, self.height@, self.bound@, x)
    }

    /// The potential of `x` against the representative of its class.
    pub closed spec fn potential_of(&self, x: int) -> T::S {
        potential::<T>(self.par@, self.height@, self.bound@, self.diff_weight@, x)
    }

    /// A bound on the number of steps from `x` up to its root.
    pub closed spec fn climb(&self, x: int) -> int {
        self.bound@ - self.height@[x]
    }

    /// The parent pointers form a forest over `0..n`, every root keeps the
    /// identity as its difference, and every stored size is 0.
    pub closed spec fn wf(&self) -> bool {
        &&& self.par@.len() == self.len
        &&& self.size@.len() == self.len
        &&& is_weighted_forest::<T>(self.par@, self.height@, self.bound@, self.diff_weight@)
        &&& forall|k: int| 0 <= k < self.len ==> self.size@[k] == 0
    }

    /// The representatives are elements, each stands for itself, and each
    /// has the identity as its potential.
    pub proof fn lemma_root_of(&self, x: int)
        requires
            self.wf(),
            0 <= x < self.spec_len(),
        ensures
            0 <= self.root_of(x) < self.spec_len(),
            self.root_of(self.root_of(x)) == self.root_of(x),
            self.potential_of(self.root_of(x)) == T::e_spec(),
    {
        lemma_find_is_root(self.par@, self.height@, self.bound@, x);
    }

    /// The partition of `0..n` in which every element is alone.
    pub fn new(n: usize) -> (uf: Self)
        ensures
            uf.wf(),
            uf.spec_len() == n,
            forall|x: int| 0 <= x < n ==> uf.root_of(x) == x,
            forall|x: int| 0 <= x < n ==> uf.potential_of(x) == T::e_spec(),
    {
        let mut par: Vec<usize> = Vec::new();
        let mut size: Vec<usize> = Vec::new();
        let mut diff_weight: Vec<T::S> = Vec::new();
        let ghost height = Seq::new(n as nat, |i: int| 0int);
        let mut i: usize = 0;
        while i < n
            invariant
                i <= n,
                par@.len() == i,
                size@.len() == i,
                diff_weight@.len() == i,
                forall|k: int| 0 <= k < i ==> (#[trigger] par@[k]) == k,
                forall|k: int| 0 <= k < i ==> (#[trigger] size@[k]) == 0,
                forall|k: int| 0 <= k < i ==> (#[trigger] diff_weight@[k]) == T::e_spec(),
            decreases n - i,
        {
            par.push(i);
            size.push(0);
            diff_weight.push(T::e());
            i += 1;
        }
        let uf = AbelPotentialedUnionFind {
            len: n,
            par,
            size,
            diff_weight,
            height: Ghost(height),
            bound: Ghost(0),
        };
        proof {
            assert(is_forest(uf.par@, uf.height@, uf.bound@));
        }
        uf
    }

    /// The representative of the class of `x`, with the path from `x` to it
    /// shortened: afterwards `x` points at its root and keeps its whole
    /// potential, and no node at or below the height of `x`, but `x`, has
    /// changed.
    fn compress(&mut self, x: usize) -> (r: usize)
        requires
            old(self).wf(),
            x < old(self).len,
        ensures
            final(self).wf(),
            final(self).len == old(self).len,
            final(self).height@ == old(self).height@,
            final(self).bound@ == old(self).bound@,
            r == old(self).root_of(x as int),
            r < old(self).len,
            final(self).diff_weight@[x as int] == old(self).potential_of(x as int),
            forall|z: int| 0 <= z < old(self).len ==> final(self).root_of(z) == old(self).root_of(z),
            forall|z: int|
                0 <= z < old(self).len ==> final(self).potential_of(z) == old(self).potential_of(z),
            forall|z: int|
                0 <= z < old(self).len && old(self).height@[z] <= old(self).height@[x as int] && z
                    != x ==> (#[trigger] final(self).par@[z]) == old(self).par@[z],
            forall|z: int|
                0 <= z < old(self).len && old(self).height@[z] <= old(self).height@[x as int] && z
                    != x ==> (#[trigger] final(self).diff_weight@[z]) == old(self).diff_weight@[z],
        decreases old(self).bound@ - old(self).height@[x as int],
    {
        let p = self.par[x];
        proof {
            lemma_find_is_root(self.par@, self.height@, self.bound@, x as int);
        }
        if p == x {
            x
        } else {
            let r = self.compress(p);
            proof {
                assert(self.par@[x as int] == p);
                assert(self.root_of(x as int) == old(self).root_of(x as int));
                assert(self.potential_of(p as int) == old(self).potential_of(p as int));
                lemma_weighted_compress::<T>(
                    self.par@,
                    self.height@,
                    self.bound@,
                    self.diff_weight@,
                    x as int,
                );
                lemma_find_is_root(self.par@, self.height@, self.bound@, x as int);
            }
            let ghost par1 = self.par@;
            let ghost diff1 = self.diff_weight@;
            let d = T::op(&self.diff_weight[x], &self.diff_weight[p]);
            self.diff_weight[x] = d;
            self.par[x] = r;
            proof {
                assert(self.par@ =~= par1.update(x as int, r));
                assert(self.diff_weight@ =~= diff1.update(x as int, d));
                assert forall|z: int|
                    0 <= z < old(self).len && old(self).height@[z] <= old(self).height@[x as int]
                        && z != x implies (#[trigger] self.par@[z]) == old(self).par@[z] by {
                    assert(par1[z] == old(self).par@[z]);
                }
                assert forall|z: int|
                    0 <= z < old(self).len && old(self).height@[z] <= old(self).height@[x as int]
                        && z != x implies (#[trigger] self.diff_weight@[z]) == old(self).diff_weight@[z] by {
                    assert(diff1[z] == old(self).diff_weight@[z]);
                }
            }
            r
        }
    }

    /// The representative of the class of `x`. The path from `x` to the
    /// root is shortened on the way; the partition and the potentials stay
    /// as they are.
    pub fn root(&mut self, x: usize) -> (r: usize)
        requires
            old(self).wf(),
            x < old(self).spec_len(),
        ensures
            final(self).wf(),
            final(self).spec_len() == old(self).spec_len(),
            r == old(self).root_of(x as int),
            r < old(self).spec_len(),
            forall|z: int|
                0 <= z < old(self).spec_len() ==> final(self).root_of(z) == old(self).root_of(z),
            forall|z: int|
                0 <= z < old(self).spec_len() ==> final(self).potential_of(z) == old(self).potential_of(z),
    {
        self.compress(x)
    }

    /// The potential of `x` against the representative of its class.
    pub fn weight(&mut self, x: usize) -> (w: T::S)
        requires
            old(self).wf(),
            x < old(self).spec_len(),
        ensures
            final(self).wf(),
            final(self).spec_len() == old(self).spec_len(),
            w == old(self).potential_of(x as int),
            forall|z: int|
                0 <= z < old(self).spec_len() ==> final(self).root_of(z) == old(self).root_of(z),
            forall|z: int|
                0 <= z < old(self).spec_len() ==> final(self).potential_of(z) == old(self).potential_of(z),
    {
        self.compress(x);
        let w = self.diff_weight[x].clone();
        proof {
            T::clone_exact(self.diff_weight@[x as int], w);
        }
        w
    }

    /// The potential of `x` against that of `y`: the product of the
    /// potential of `x` and the inverse of the potential of `y`.
    pub fn diff(&mut self, x: usize, y: usize) -> (d: T::S)
        requires
            old(self).wf(),
            x < old(self).spec_len(),
            y < old(self).spec_len(),
        ensures
            final(self).wf(),
            final(self).spec_len() == old(self).spec_len(),
            d == T::op_spec(
                old(self).potential_of(x as int),
                T::inv_spec(old(self).potential_of(y as int)),
            ),
            forall|z: int|
                0 <= z < old(self).spec_len() ==> final(self).root_of(z) == old(self).root_of(z),
            forall|z: int|
                0 <= z < old(self).spec_len() ==> final(self).potential_of(z) == old(self).potential_of(z),
    {
        let wx = self.weight(x);
        let wy = self.weight(y);
        let y = T::inv(&wy);
        T::op(&wx, &y)
    }

    /// The size kept for the class of `x`: always 0, as classes start with 0 and add up.
    pub fn size(&mut self, x: usize) -> (count: usize)
        requires
            old(self).wf(),
            x < old(self).spec_len(),
        ensures
            final(self).wf(),
            final(self).spec_len() == old(self).spec_len(),
            count == 0,
            forall|z: int|
                0 <= z < old(self).spec_len() ==> final(self).root_of(z) == old(self).root_of(z),
            forall|z: int|
                0 <= z < old(self).spec_len() ==> final(self).potential_of(z) == old(self).potential_of(z),
    {
        let r = self.compress(x);
        self.size[r]
    }

    /// Whether `x` and `y` are in one class.
    pub fn issame(&mut self, x: usize, y: usize) -> (same: bool)
        requires
            old(self).wf(),
            x < old(self).spec_len(),
            y < old(self).spec_len(),
        ensures
            final(self).wf(),
            final(self).spec_len() == old(self).spec_len(),
            same == (old(self).root_of(x as int) == old(self).root_of(y as int)),
            forall|z: int|
                0 <= z < old(self).spec_len() ==> final(self).root_of(z) == old(self).root_of(z),
            forall|z: int|
                0 <= z < old(self).spec_len() ==> final(self).potential_of(z) == old(self).potential_of(z),
    {
        let rx = self.compress(x);
        let ry = self.compress(y);
        rx == ry
    }

    /// The difference that joins the class of `y` to that of `x` so that
    /// the potential of `y` against that of `x` becomes `w`.
    pub open spec fn joint(&self, x: int, y: int, w: T::S) -> T::S {
        T::op_spec(T::op_spec(w, self.potential_of(x)), T::inv_spec(self.potential_of(y)))
    }

    /// In a commutative group, `py * ((w * px) / py) / px` is `w`.
    pub proof fn lemma_joint(w: T::S, px: T::S, py: T::S)
        ensures
            T::op_spec(
                T::op_spec(py, T::op_spec(T::op_spec(w, px), T::inv_spec(py))),
                T::inv_spec(px),
            ) == w,
    {
        let wp = T::op_spec(w, px);
        let d = T::op_spec(wp, T::inv_spec(py));
        T::commutative(py, d);
        T::associative(wp, T::inv_spec(py), py);
        T::inverse(py);
        T::right_identity(wp);
        T::associative(w, px, T::inv_spec(px));
        T::inverse(px);
        T::right_identity(w);
    }

    /// Merges the classes of `x` and `y` so that the potential of `y`
    /// against that of `x` becomes `w`. Where they are one class already,
    /// nothing changes, and the result says whether `w` agrees with the
    /// potentials as they are. Otherwise the result is `true`, the class of
    /// `y` gets the representative of `x`, and `joint(x, y, w)` is put
    /// behind the potential of each of its elements.
    pub fn unite(&mut self, x: usize, y: usize, w: T::S) -> (fits: bool)
        requires
            old(self).wf(),
            x < old(self).spec_len(),
            y < old(self).spec_len(),
        ensures
            final(self).wf(),
            final(self).spec_len() == old(self).spec_len(),
            old(self).root_of(x as int) == old(self).root_of(y as int) ==> (T::S::obeys_eq_spec()
                ==> fits == old(self).joint(x as int, y as int, w).eq_spec(&T::e_spec())),
            old(self).root_of(x as int) != old(self).root_of(y as int) ==> fits && T::op_spec(
                final(self).potential_of(y as int),
                T::inv_spec(final(self).potential_of(x as int)),
            ) == w,
            forall|z: int|
                0 <= z < old(self).spec_len() ==> final(self).root_of(z) == (if old(self).root_of(z)
                    == old(self).root_of(y as int) {
                    old(self).root_of(x as int)
                } else {
                    old(self).root_of(z)
                }),
            forall|z: int|
                0 <= z < old(self).spec_len() ==> final(self).potential_of(z) == (if old(self).root_of(z) == old(self).root_of(y as int) && old(self).root_of(x as int) != old(self).root_of(y as int) {
                    T::op_spec(old(self).potential_of(z), old(self).joint(x as int, y as int, w))
                } else {
                    old(self).potential_of(z)
                }),
    {
        let wx = self.weight(x);
        let mut d = T::op(&w, &wx);
        let wy = self.weight(y);
        let iy = T::inv(&wy);
        d = T::op(&d, &iy);
        let mut a = self.compress(x);
        let mut b = self.compress(y);
        if a == b {
            let e = T::e();
            return d == e;
        }
        if self.size[a] < self.size[b] {
            std::mem::swap(&mut a, &mut b);
            d = T::inv(&d);
        }
        proof {
            lemma_find_is_root(self.par@, self.height@, self.bound@, x as int);
            lemma_find_is_root(self.par@, self.height@, self.bound@, y as int);
            lemma_weighted_link::<T>(
                self.par@,
                self.height@,
                self.bound@,
                self.diff_weight@,
                a as int,
                b as int,
                d,
            );
            Self::lemma_joint(
                w,
                old(self).potential_of(x as int),
                old(self).potential_of(y as int),
            );
        }
        let ghost par1 = self.par@;
        let ghost diff1 = self.diff_weight@;
        let ghost size1 = self.size@;
        self.par[b] = a;
        let total = self.size[a] + self.size[b];
        self.size[a] = total;
        self.diff_weight[b] = d;
        proof {
            self.height = Ghost(raised(self.height@, a as int, b as int));
            self.bound = Ghost(self.bound@ + 1);
            assert(self.par@ =~= par1.update(b as int, a));
            assert(self.diff_weight@ =~= diff1.update(b as int, d));
            assert(self.size@ =~= size1);
        }
        true
    }

    /// The representatives among the elements below `k`.
    pub open spec fn roots_below(&self, k: int) -> Set<int> {
        Set::new(|r: int| 0 <= r < k && self.root_of(r) == r)
    }

    /// The number of classes.
    pub fn group_count(&mut self) -> (count: usize)
        requires
            old(self).wf(),
        ensures
            final(self).wf(),
            final(self).spec_len() == old(self).spec_len(),
            count == old(self).roots_below(old(self).spec_len() as int).len(),
            forall|z: int|
                0 <= z < old(self).spec_len() ==> final(self).root_of(z) == old(self).root_of(z),
            forall|z: int|
                0 <= z < old(self).spec_len() ==> final(self).potential_of(z) == old(self).potential_of(z),
    {
        let n = self.len;
        let mut cnt: Vec<usize> = vec![0; n];
        let mut i: usize = 0;
        while i < n
            invariant
                self.wf(),
                old(self).wf(),
                n == self.spec_len() == old(self).spec_len(),
                i <= n,
                cnt@.len() == n,
                forall|z: int| 0 <= z < n ==> self.root_of(z) == old(self).root_of(z),
                forall|z: int| 0 <= z < n ==> self.potential_of(z) == old(self).potential_of(z),
                forall|r: int| 0 <= r < n ==> (#[trigger] cnt@[r]) <= i,
                forall|r: int| 0 <= r < n && (#[trigger] cnt@[r]) > 0 ==> old(self).root_of(r) == r,
                forall|j: int| 0 <= j < i ==> cnt@[#[trigger] old(self).root_of(j)] > 0,
            decreases n - i,
        {
            proof {
                old(self).lemma_root_of(i as int);
            }
            let r = self.root(i);
            let ghost before = cnt@;
            let c = cnt[r] + 1;
            cnt[r] = c;
            i += 1;
            proof {
                assert forall|j: int| 0 <= j < i implies cnt@[#[trigger] old(self).root_of(j)]
                    > 0 by {
                    old(self).lemma_root_of(j);
                    if j < i - 1 {
                        assert(before[old(self).root_of(j)] > 0);
                    }
                }
            }
        }
        let mut count: usize = 0;
        let mut k: usize = 0;
        proof {
            assert(old(self).roots_below(0) =~= Set::<int>::empty());
        }
        while k < n
            invariant
                old(self).wf(),
                n == old(self).spec_len(),
                k <= n,
                cnt@.len() == n,
                count <= k,
                old(self).roots_below(k as int).finite(),
                count == old(self).roots_below(k as int).len(),
                forall|r: int| 0 <= r < n && (#[trigger] cnt@[r]) > 0 ==> old(self).root_of(r) == r,
                forall|j: int| 0 <= j < n ==> cnt@[#[trigger] old(self).root_of(j)] > 0,
            decreases n - k,
        {
            proof {
                old(self).lemma_root_of(k as int);
                if old(self).root_of(k as int) == k {
                    assert(old(self).roots_below(k + 1) =~= old(self).roots_below(k as int).insert(
                        k as int,
                    ));
                } else {
                    assert(old(self).roots_below(k + 1) =~= old(self).roots_below(k as int));
                }
            }
            if 0 < cnt[k] {
                count += 1;
            }
            k += 1;
        }
        count
    }
}

/// The 64-bit integers under the addition that wraps around.
pub struct WrappingSum;

impl Monoid for WrappingSum {
    type S = i64;

    open spec fn e_spec() -> i64 {
        0
    }

    open spec fn op_spec(left: i64, right: i64) -> i64 {
        vstd::wrapping::i64_specs::wrapping_add(left, right)
    }

    fn op(left: &i64, right: &i64) -> (r: i64) {
        left.wrapping_add(*right)
    }

    fn e() -> (r: i64) {
        0
    }

    proof fn associative(a: i64, b: i64, c: i64) {
    }

    proof fn left_identity(a: i64) {
    }

    proof fn right_identity(a: i64) {
    }

    proof fn clone_exact(a: i64, b: i64) {
    }
}

impl Inv for WrappingSum {
    open spec fn inv_spec(s: i64) -> i64 {
        vstd::wrapping::i64_specs::wrapping_sub(0, s)
    }

    fn inv(s: &i64) -> (r: i64) {
        0i64.wrapping_sub(*s)
    }

    proof fn inverse(a: i64) {
    }
}

impl Commutative for WrappingSum {
    proof fn commutative(a: i64, b: i64) {
    }
}

impl CommutaitveGroup for WrappingSum {

}

impl Group for WrappingSum {

}

/// A partition of `0..n` into classes, which can be merged, with an
/// integer potential for each element, known up to a common shift within
/// each class. Potentials are 64-bit integers, and their sums wrap around.
pub struct PotentialedUnionFind {
    inner: AbelPotentialedUnionFind<WrappingSum>,
}

impl PotentialedUnionFind {
    /// The number of elements.
    pub closed spec fn spec_len(&self) -> nat {
        self.inner.spec_len()
    }

    /// The representative of the class of `x`.
    pub closed spec fn root_of(&self, x: int) -> int {
        self.inner.root_of(x)
    }

    /// The potential of `x` against the representative of its class.
    pub closed spec fn potential_of(&self, x: int) -> i64 {
        self.inner.potential_of(x)
    }

    /// The representatives among the elements below `k`.
    pub closed spec fn roots_below(&self, k: int) -> Set<int> {
        self.inner.roots_below(k)
    }

    /// The structure is well formed.
    pub closed spec fn wf(&self) -> bool {
        self.inner.wf()
    }

    /// The representatives are elements, each stands for itself and has the
    /// potential 0; the representatives below `k` are the elements below
    /// `k` that stand for themselves.
    pub proof fn lemma_root_of(&self, x: int)
        requires
            self.wf(),
            0 <= x < self.spec_len(),
        ensures
            0 <= self.root_of(x) < self.spec_len(),
            self.root_of(self.root_of(x)) == self.root_of(x),
            self.potential_of(self.root_of(x)) == 0,
            forall|k: int, r: int|
                self.roots_below(k).contains(r) <==> 0 <= r < k && self.root_of(r) == r,
    {
        self.inner.lemma_root_of(x);
    }

    /// The integer `a + b`, wrapped around into 64 bits.
    pub open spec fn plus(a: i64, b: i64) -> i64 {
        vstd::wrapping::i64_specs::wrapping_add(a, b)
    }

    /// The integer `a - b`, wrapped around into 64 bits.
    pub open spec fn minus(a: i64, b: i64) -> i64 {
        vstd::wrapping::i64_specs::wrapping_sub(a, b)
    }

    /// The partition of `0..n` in which every element is alone.
    pub fn new(n: usize) -> (uf: Self)
        ensures
            uf.wf(),
            uf.spec_len() == n,
            forall|x: int| 0 <= x < n ==> uf.root_of(x) == x,
            forall|x: int| 0 <= x < n ==> uf.potential_of(x) == 0,
    {
        PotentialedUnionFind { inner: AbelPotentialedUnionFind::new(n) }
    }

    /// The representative of the class of `x`. The partition and the
    /// potentials stay as they are.
    pub fn root(&mut self, x: usize) -> (r: usize)
        requires
            old(self).wf(),
            x < old(self).spec_len(),
        ensures
            final(self).wf(),
            final(self).spec_len() == old(self).spec_len(),
            r == old(self).root_of(x as int),
            r < old(self).spec_len(),
            forall|z: int|
                0 <= z < old(self).spec_len() ==> final(self).root_of(z) == old(self).root_of(z),
            forall|z: int|
                0 <= z < old(self).spec_len() ==> final(self).potential_of(z) == old(self).potential_of(z),
    {
        self.inner.root(x)
    }

    /// The potential of `x` against the representative of its class.
    pub fn weight(&mut self, x: usize) -> (w: i64)
        requires
            old(self).wf(),
            x < old(self).spec_len(),
        ensures
            final(self).wf(),
            final(self).spec_len() == old(self).spec_len(),
            w == old(self).potential_of(x as int),
            forall|z: int|
                0 <= z < old(self).spec_len() ==> final(self).root_of(z) == old(self).root_of(z),
            forall|z: int|
                0 <= z < old(self).spec_len() ==> final(self).potential_of(z) == old(self).potential_of(z),
    {
        self.inner.weight(x)
    }

    /// The potential of `x` less that of `y`.
    pub fn diff(&mut self, x: usize, y: usize) -> (d: i64)
        requires
            old(self).wf(),
            x < old(self).spec_len(),
            y < old(self).spec_len(),
        ensures
            final(self).wf(),
            final(self).spec_len() == old(self).spec_len(),
            d == Self::minus(old(self).potential_of(x as int), old(self).potential_of(y as int)),
            forall|z: int|
                0 <= z < old(self).spec_len() ==> final(self).root_of(z) == old(self).root_of(z),
            forall|z: int|
                0 <= z < old(self).spec_len() ==> final(self).potential_of(z) == old(self).potential_of(z),
    {
        let wx = self.inner.weight(x);
        let wy = self.inner.weight(y);
        wx.wrapping_sub(wy)
    }

    /// The shift that joins the class of `y` to that of `x` so that the
    /// potential of `y` less that of `x` becomes `w`.
    pub open spec fn joint(&self, x: int, y: int, w: i64) -> i64 {
        Self::minus(Self::plus(w, self.potential_of(x)), self.potential_of(y))
    }

    /// Merges the classes of `x` and `y` so that the potential of `y` less
    /// that of `x` becomes `w`. Where they are one class already, nothing
    /// changes, and the result says whether `w` agrees with the potentials
    /// as they are. Otherwise the result is `true`, the class of `y` gets
    /// the representative of `x`, and the potential of each of its elements
    /// is shifted by `joint(x, y, w)`.
    pub fn unite(&mut self, x: usize, y: usize, w: i64) -> (fits: bool)
        requires
            old(self).wf(),
            x < old(self).spec_len(),
            y < old(self).spec_len(),
        ensures
            final(self).wf(),
            final(self).spec_len() == old(self).spec_len(),
            old(self).root_of(x as int) == old(self).root_of(y as int) ==> fits == (old(self).joint(x as int, y as int, w) == 0),
            old(self).root_of(x as int) != old(self).root_of(y as int) ==> fits && Self::minus(
                final(self).potential_of(y as int),
                final(self).potential_of(x as int),
            ) == w,
            forall|z: int|
                0 <= z < old(self).spec_len() ==> final(self).root_of(z) == (if old(self).root_of(z)
                    == old(self).root_of(y as int) {
                    old(self).root_of(x as int)
                } else {
                    old(self).root_of(z)
                }),
            forall|z: int|
                0 <= z < old(self).spec_len() ==> final(self).potential_of(z) == (if old(self).root_of(z) == old(self).root_of(y as int) && old(self).root_of(x as int) != old(self).root_of(y as int) {
                    Self::plus(old(self).potential_of(z), old(self).joint(x as int, y as int, w))
                } else {
                    old(self).potential_of(z)
                }),
    {
        self.inner.unite(x, y, w)
    }

    /// The size kept for the class of `x`: always 0, as classes start with 0 and add up.
    pub fn size(&mut self, x: usize) -> (count: usize)
        requires
            old(self).wf(),
            x < old(self).spec_len(),
        ensures
            final(self).wf(),
            final(self).spec_len() == old(self).spec_len(),
            count == 0,
            forall|z: int|
                0 <= z < old(self).spec_len() ==> final(self).root_of(z) == old(self).root_of(z),
            forall|z: int|
                0 <= z < old(self).spec_len() ==> final(self).potential_of(z) == old(self).potential_of(z),
    {
        self.inner.size(x)
    }

    /// Whether `x` and `y` are in one class.
    pub fn issame(&mut self, x: usize, y: usize) -> (same: bool)
        requires
            old(self).wf(),
            x < old(self).spec_len(),
            y < old(self).spec_len(),
        ensures
            final(self).wf(),
            final(self).spec_len() == old(self).spec_len(),
            same == (old(self).root_of(x as int) == old(self).root_of(y as int)),
            forall|z: int|
                0 <= z < old(self).spec_len() ==> final(self).root_of(z) == old(self).root_of(z),
            forall|z: int|
                0 <= z < old(self).spec_len() ==> final(self).potential_of(z) == old(self).potential_of(z),
    {
        self.inner.issame(x, y)
    }

    /// The number of classes.
    pub fn group_count(&mut self) -> (count: usize)
        requires
            old(self).wf(),
        ensures
            final(self).wf(),
            final(self).spec_len() == old(self).spec_len(),
            count == old(self).roots_below(old(self).spec_len() as int).len(),
            forall|z: int|
                0 <= z < old(self).spec_len() ==> final(self).root_of(z) == old(self).root_of(z),
            forall|z: int|
                0 <= z < old(self).spec_len() ==> final(self).potential_of(z) == old(self).potential_of(z),
    {
        self.inner.group_count()
    }
}

} // verus!
