use crate::traits::Monoid;
use vstd::prelude::*;

verus! {

/// The sums of 128-bit hash values, which wrap around.
#[derive(Debug, Clone, Copy)]
pub struct ZobHshP;

impl Monoid for ZobHshP {
    type S = u128;

    open spec fn e_spec() -> u128 {
        0
    }

    open spec fn op_spec(left: u128, right: u128) -> u128 {
        vstd::wrapping::u128_specs::wrapping_add(left, right)
    }

    fn op(left: &u128, right: &u128) -> (r: u128) {
        left.wrapping_add(*right)
    }

    fn e() -> (r: u128) {
        0
    }

    proof fn associative(a: u128, b: u128, c: u128) {
    }

    proof fn left_identity(a: u128) {
    }

    proof fn right_identity(a: u128) {
    }

    proof fn clone_exact(a: u128, b: u128) {
    }
}

/// The product of the elements of `s`, taken from left to right and starting
/// from the identity element.
pub open spec fn product<T: Monoid>(s: Seq<T::S>) -> T::S
    decreases s.len(),
{
    if s.len() == 0 {
        T::e_spec()
    } else {
        T::op_spec(product::<T>(s.drop_last()), s.last())
    }
}

/// The product of a single element is that element.
pub proof fn lemma_product_one<T: Monoid>(x: T::S)
    ensures
        product::<T>(seq![x]) == x,
{
    let s = seq![x];
    assert(product::<T>(s.drop_last()) == T::e_spec());
    T::left_identity(x);
}

/// The product of a concatenation is the product of the two products.
pub proof fn lemma_product_concat<T: Monoid>(a: Seq<T::S>, b: Seq<T::S>)
    ensures
        product::<T>(a + b) == T::op_spec(product::<T>(a), product::<T>(b)),
    decreases b.len(),
{
    if b.len() == 0 {
        assert(a + b =~= a);
        T::right_identity(product::<T>(a));
    } else {
        assert((a + b).drop_last() =~= a + b.drop_last());
        assert((a + b).last() == b.last());
        lemma_product_concat::<T>(a, b.drop_last());
        T::associative(product::<T>(a), product::<T>(b.drop_last()), b.last());
    }
}

/// A product over `[i, j)` splits at any `k` in between.
pub proof fn lemma_product_split<T: Monoid>(s: Seq<T::S>, i: int, k: int, j: int)
    requires
        0 <= i <= k <= j <= s.len(),
    ensures
        product::<T>(s.subrange(i, j)) == T::op_spec(
            product::<T>(s.subrange(i, k)),
            product::<T>(s.subrange(k, j)),
        ),
{
    assert(s.subrange(i, j) =~= s.subrange(i, k) + s.subrange(k, j));
    lemma_product_concat::<T>(s.subrange(i, k), s.subrange(k, j));
}

/// Taking the first element out of a product over `[i, j)`.
pub proof fn lemma_product_first<T: Monoid>(s: Seq<T::S>, i: int, j: int)
    requires
        0 <= i < j <= s.len(),
    ensures
        product::<T>(s.subrange(i, j)) == T::op_spec(s[i], product::<T>(s.subrange(i + 1, j))),
{
    lemma_product_split::<T>(s, i, i + 1, j);
    assert(s.subrange(i, i + 1) =~= seq![s[i]]);
    lemma_product_one::<T>(s[i]);
}

/// Taking the last element out of a product over `[i, j)`.
pub proof fn lemma_product_last<T: Monoid>(s: Seq<T::S>, i: int, j: int)
    requires
        0 <= i < j <= s.len(),
    ensures
        product::<T>(s.subrange(i, j)) == T::op_spec(product::<T>(s.subrange(i, j - 1)), s[j - 1]),
{
    assert(s.subrange(i, j).drop_last() =~= s.subrange(i, j - 1));
}

/// A product of identity elements is the identity element.
pub proof fn lemma_product_identities<T: Monoid>(s: Seq<T::S>)
    requires
        forall|i: int| 0 <= i < s.len() ==> s[i] == T::e_spec(),
    ensures
        product::<T>(s) == T::e_spec(),
    decreases s.len(),
{
    if s.len() > 0 {
        lemma_product_identities::<T>(s.drop_last());
        T::right_identity(T::e_spec());
    }
}

/// For a predicate on products that, once it fails for a range that starts
/// at `l`, fails for every longer one, the right boundary is unique: there
/// is one `r` for which the predicate holds on `l..r` and fails on
/// `l..r + 1`, where the end of the sequence counts as a failure.
pub proof fn lemma_right_boundary_unique<T: Monoid>(
    s: Seq<T::S>,
    l: int,
    pred: spec_fn(T::S) -> bool,
    r1: int,
    r2: int,
)
    requires
        0 <= l <= r1 <= s.len(),
        l <= r2 <= s.len(),
        forall|a: int, b: int|
            l <= a <= b <= s.len() && pred(#[trigger] product::<T>(s.subrange(l, b))) ==> pred(
                #[trigger] product::<T>(s.subrange(l, a)),
            ),
        pred(product::<T>(s.subrange(l, r1))),
        r1 == s.len() || !pred(product::<T>(s.subrange(l, r1 + 1))),
        pred(product::<T>(s.subrange(l, r2))),
        r2 == s.len() || !pred(product::<T>(s.subrange(l, r2 + 1))),
    ensures
        r1 == r2,
{
    if r1 < r2 {
        assert(pred(product::<T>(s.subrange(l, r1 + 1))));
    } else if r2 < r1 {
        assert(pred(product::<T>(s.subrange(l, r2 + 1))));
    }
}

/// For a predicate on products that, once it fails for a range that ends at
/// `r`, fails for every longer one, the left boundary is unique: there is
/// one `l` for which the predicate holds on `l..r` and fails on
/// `l - 1..r`, where the start of the sequence counts as a failure.
pub proof fn lemma_left_boundary_unique<T: Monoid>(
    s: Seq<T::S>,
    r: int,
    pred: spec_fn(T::S) -> bool,
    l1: int,
    l2: int,
)
    requires
        0 <= l1 <= r <= s.len(),
        0 <= l2 <= r,
        forall|a: int, b: int|
            0 <= a <= b <= r && pred(#[trigger] product::<T>(s.subrange(a, r))) ==> pred(
                #[trigger] product::<T>(s.subrange(b, r)),
            ),
        pred(product::<T>(s.subrange(l1, r))),
        l1 == 0 || !pred(product::<T>(s.subrange(l1 - 1, r))),
        pred(product::<T>(s.subrange(l2, r))),
        l2 == 0 || !pred(product::<T>(s.subrange(l2 - 1, r))),
    ensures
        l1 == l2,
{
    if l1 < l2 {
        assert(pred(product::<T>(s.subrange(l2 - 1, r))));
    } else if l2 < l1 {
        assert(pred(product::<T>(s.subrange(l1 - 1, r))));
    }
}

} // verus!
