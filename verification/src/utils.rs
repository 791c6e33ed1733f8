pub use crate::compressed_mapping::CompMap;
use std::ops::{
    Bound, Range, RangeBounds, RangeFrom, RangeFull, RangeInclusive, RangeTo, RangeToInclusive,
};
use vstd::prelude::*;
use vstd::std_specs::cmp::PartialEqSpec;

verus! {

/// `RangeFull` of std, the range `..`: it has no fields.
#[verifier::external_type_specification]
pub struct ExRangeFull(RangeFull);

/// `RangeFrom` of std, the range `a..`: its public field `start` is `a`.
#[verifier::external_type_specification]
#[verifier::reject_recursive_types(Idx)]
pub struct ExRangeFrom<Idx>(RangeFrom<Idx>);

/// `RangeTo` of std, the range `..b`: its public field `end` is `b`.
#[verifier::external_type_specification]
#[verifier::reject_recursive_types(Idx)]
pub struct ExRangeTo<Idx>(RangeTo<Idx>);

/// `RangeToInclusive` of std, the range `..=b`: its public field `end` is
/// `b`.
#[verifier::external_type_specification]
#[verifier::reject_recursive_types(Idx)]
pub struct ExRangeToInclusive<Idx>(RangeToInclusive<Idx>);

/// `Bound` of std, an end of a range: `Included` or `Excluded` with the
/// number at the end, or `Unbounded`.
#[verifier::external_type_specification]
#[verifier::reject_recursive_types(T)]
pub struct ExBound<T>(Bound<T>);

/// `RangeInclusive::start` of std: the lower end of `a..=b`, which is `a`.
pub assume_specification<Idx>[ RangeInclusive::<Idx>::start ](range: &RangeInclusive<Idx>) -> (start:
    &Idx)
    ensures
        *start == range@.start,
;

/// `RangeBounds::end_bound` of std on `a..=b`: the upper end `b`, and
/// whether `b` itself belongs to the range. It does, unless the range was
/// used as an iterator and ran out. The end is never left open.
#[verifier::external_body]
fn inclusive_end(range: &RangeInclusive<usize>) -> (end: Option<(usize, bool)>)
    ensures
        end == Some((range@.end, !range@.exhausted)),
{
    match range.end_bound() {
        Bound::Included(r) => Some((*r, true)),
        Bound::Excluded(r) => Some((*r, false)),
        Bound::Unbounded => None,
    }
}

/// A range of indices, in any of the notations `a..b`, `a..=b`, `a..`,
/// `..b`, `..=b` and `..`, or as a pair of its two ends.
pub trait IndexRange {
    /// The first index of the range.
    spec fn lower(&self) -> int;

    /// One past the last index of the range, where `r_max` stands for an
    /// end that the notation leaves open.
    spec fn upper(&self, r_max: int) -> int;

    /// The range as a pair `(l, r)` that stands for `l..r`.
    fn to_tuple(&self, r_max: usize) -> (lr: (usize, usize))
        requires
            self.lower() <= usize::MAX,
            self.upper(r_max as int) <= usize::MAX,
        ensures
            lr.0 == self.lower(),
            lr.1 == self.upper(r_max as int),
    ;
}

impl IndexRange for (Bound<usize>, Bound<usize>) {
    open spec fn lower(&self) -> int {
        match self.0 {
            Bound::Included(l) => l as int,
            Bound::Excluded(l) => l + 1,
            Bound::Unbounded => 0,
        }
    }

    open spec fn upper(&self, r_max: int) -> int {
        match self.1 {
            Bound::Included(r) => r + 1,
            Bound::Excluded(r) => r as int,
            Bound::Unbounded => r_max,
        }
    }

    fn to_tuple(&self, r_max: usize) -> (lr: (usize, usize)) {
        let l = match self.0 {
            Bound::Included(l) => l,
            Bound::Excluded(l) => l + 1,
            Bound::Unbounded => 0,
        };
        let r = match self.1 {
            Bound::Included(r) => r + 1,
            Bound::Excluded(r) => r,
            Bound::Unbounded => r_max,
        };
        (l, r)
    }
}

impl IndexRange for Range<usize> {
    open spec fn lower(&self) -> int {
        self.start as int
    }

    open spec fn upper(&self, r_max: int) -> int {
        self.end as int
    }

    fn to_tuple(&self, r_max: usize) -> (lr: (usize, usize)) {
        (self.start, self.end)
    }
}

impl IndexRange for RangeInclusive<usize> {
    open spec fn lower(&self) -> int {
        self@.start as int
    }

    open spec fn upper(&self, r_max: int) -> int {
        if self@.exhausted {
            self@.end as int
        } else {
            self@.end + 1
        }
    }

    fn to_tuple(&self, r_max: usize) -> (lr: (usize, usize)) {
        let (end, included) = inclusive_end(self).unwrap();
        if included {
            (*self.start(), end + 1)
        } else {
            (*self.start(), end)
        }
    }
}

impl IndexRange for RangeFrom<usize> {
    open spec fn lower(&self) -> int {
        self.start as int
    }

    open spec fn upper(&self, r_max: int) -> int {
        r_max
    }

    fn to_tuple(&self, r_max: usize) -> (lr: (usize, usize)) {
        (self.start, r_max)
    }
}

impl IndexRange for RangeTo<usize> {
    open spec fn lower(&self) -> int {
        0
    }

    open spec fn upper(&self, r_max: int) -> int {
        self.end as int
    }

    fn to_tuple(&self, r_max: usize) -> (lr: (usize, usize)) {
        (0, self.end)
    }
}

impl IndexRange for RangeToInclusive<usize> {
    open spec fn lower(&self) -> int {
        0
    }

    open spec fn upper(&self, r_max: int) -> int {
        self.end + 1
    }

    fn to_tuple(&self, r_max: usize) -> (lr: (usize, usize)) {
        (0, self.end + 1)
    }
}

impl IndexRange for RangeFull {
    open spec fn lower(&self) -> int {
        0
    }

    open spec fn upper(&self, r_max: int) -> int {
        r_max
    }

    fn to_tuple(&self, r_max: usize) -> (lr: (usize, usize)) {
        (0, r_max)
    }
}

/// Turns a range in any notation into the pair `(l, r)` that stands for
/// `l..r`; an end that the notation leaves open becomes `r_max`.
pub fn range_to_tuple<R: IndexRange>(range: R, r_max: usize) -> (lr: (usize, usize))
    requires
        range.lower() <= usize::MAX,
        range.upper(r_max as int) <= usize::MAX,
    ensures
        lr.0 == range.lower(),
        lr.1 == range.upper(r_max as int),
{
    range.to_tuple(r_max)
}

/// `s` reads the same from both ends, by the equality of `T`.
pub open spec fn palindrome<T: PartialEq>(s: Seq<T>) -> bool {
    forall|i: int| 0 <= i < s.len() / 2 ==> (#[trigger] s[i]).eq_spec(&s[s.len() - i - 1])
}

/// Whether `s` reads the same from both ends.
pub fn is_palindrome<T: Ord>(s: &[T]) -> (r: bool)
    ensures
        T::obeys_eq_spec() ==> r == palindrome(s@),
{
    let n = s.len();
    let mut i: usize = 0;
    while i < n / 2
        invariant
            n == s@.len(),
            i <= n / 2,
            T::obeys_eq_spec() ==> forall|k: int|
                0 <= k < i ==> (#[trigger] s@[k]).eq_spec(&s@[n - k - 1]),
        decreases n / 2 - i,
    {
        if s[i] != s[n - i - 1] {
            return false;
        }
        i += 1;
    }
    true
}

/// The number of `(` in `s` less the number of other characters.
pub open spec fn bracket_depth(s: Seq<char>) -> int
    decreases s.len(),
{
    if s.len() == 0 {
        0
    } else if s.last() == '(' {
        bracket_depth(s.drop_last()) + 1
    } else {
        bracket_depth(s.drop_last()) - 1
    }
}

/// `s` is a balanced sequence of brackets, where `(` opens and every other
/// character closes: no prefix closes more than it opens, and the whole
/// closes all that it opens.
pub open spec fn good_bracket_str(s: Seq<char>) -> bool {
    &&& bracket_depth(s) == 0
    &&& forall|k: int| 0 <= k <= s.len() ==> bracket_depth(#[trigger] s.take(k)) >= 0
}

/// Whether `s` is a balanced sequence of brackets, where `(` opens and
/// every other character closes.
pub fn is_good_bracket_str(s: &[char]) -> (r: bool)
    ensures
        r == good_bracket_str(s@),
{
    let mut depth: usize = 0;
    let mut i: usize = 0;
    while i < s.len()
        invariant
            i <= s@.len(),
            depth == bracket_depth(s@.take(i as int)),
            depth <= i,
            forall|k: int| 0 <= k <= i ==> bracket_depth(#[trigger] s@.take(k)) >= 0,
        decreases s@.len() - i,
    {
        proof {
            assert(s@.take(i + 1).drop_last() =~= s@.take(i as int));
        }
        if s[i] == '(' {
            depth += 1;
        } else {
            if depth == 0 {
                return false;
            }
            depth -= 1;
        }
        i += 1;
    }
    proof {
        assert(s@.take(i as int) =~= s@);
    }
    depth == 0
}

} // verus!
