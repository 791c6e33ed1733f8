use vstd::prelude::*;

verus! {

/// An associative binary operation with a two-sided identity element.
///
/// The executable operations `e` and `op` are tied to the mathematical
/// functions `e_spec` and `op_spec`; the three algebraic laws and the
/// faithfulness of `clone` are obligations of every implementation.
pub trait Monoid {
    type S: Clone;

    /// The identity element, as a mathematical value.
    spec fn e_spec() -> Self::S;

    /// The binary operation, as a mathematical function.
    spec fn op_spec(left: Self::S, right: Self::S) -> Self::S;

    fn op(left: &Self::S, right: &Self::S) -> (r: Self::S)
        ensures
            r == Self::op_spec(*left, *right),
    ;

    fn e() -> (r: Self::S)
        ensures
            r == Self::e_spec(),
    ;

    /// `op` is associative.
    proof fn associative(a: Self::S, b: Self::S, c: Self::S)
        ensures
            Self::op_spec(Self::op_spec(a, b), c) == Self::op_spec(a, Self::op_spec(b, c)),
    ;

    /// `e` is a left identity of `op`.
    proof fn left_identity(a: Self::S)
        ensures
            Self::op_spec(Self::e_spec(), a) == a,
    ;

    /// `e` is a right identity of `op`.
    proof fn right_identity(a: Self::S)
        ensures
            Self::op_spec(a, Self::e_spec()) == a,
    ;

    /// Cloning a value yields an equal value.
    proof fn clone_exact(a: Self::S, b: Self::S)
        requires
            cloned(a, b),
        ensures
            a == b,
    ;
}

/// A table of jumps: where a walk stands after a number of steps.
pub trait Doubling: Sized {
    /// One entry of the table.
    type D;

    /// Whether a table can be made of `v` with room for `2^k` steps.
    spec fn new_requires(v: Seq<Self::D>, k: usize) -> bool;

    /// Whether the table answers for `k` steps from `idx`.
    spec fn query_requires(&self, k: usize, idx: usize) -> bool;

    /// Whether the first step from `idx` can be set.
    spec fn set_next_requires(&self, idx: usize) -> bool;

    /// The table over the first steps `v`, with room for `2^k` steps.
    fn new(v: &[Self::D], k: usize) -> Self
        requires
            Self::new_requires(v@, k),
    ;

    /// The entry for `k` steps from `idx`.
    fn query(&self, k: usize, idx: usize) -> Self::D
        requires
            self.query_requires(k, idx),
    ;

    /// Sets the first step from `idx` to `x`.
    fn set_next(&mut self, x: Self::D, idx: usize)
        requires
            old(self).set_next_requires(idx),
    ;
}

/// A type with a distinguished element.
pub trait E: Sized {
    /// The distinguished element.
    fn e() -> Self;
}

/// A monoid in which every element has an inverse.
pub trait Inv: Monoid {
    /// The inverse, as a mathematical function.
    spec fn inv_spec(s: Self::S) -> Self::S;

    /// The inverse of `s`.
    fn inv(s: &Self::S) -> (r: Self::S)
        ensures
            r == Self::inv_spec(*s),
    ;

    /// An element and its inverse give the identity, on either side.
    proof fn inverse(a: Self::S)
        ensures
            Self::op_spec(a, Self::inv_spec(a)) == Self::e_spec(),
            Self::op_spec(Self::inv_spec(a), a) == Self::e_spec(),
    ;
}

/// A monoid whose operation does not depend on the order of its operands.
pub trait Commutative: Monoid {
    /// `op` is commutative.
    proof fn commutative(a: Self::S, b: Self::S)
        ensures
            Self::op_spec(a, b) == Self::op_spec(b, a),
    ;
}

/// A commutative group.
pub trait CommutaitveGroup: Monoid + Commutative + Inv {

}

/// A group.
pub trait Group: Monoid + Inv {

}

} // verus!
