use std::cmp::Ordering;
use vstd::laws_cmp::{
    obeys_cmp, obeys_cmp_ord, obeys_cmp_partial_ord, obeys_partial_cmp_spec_properties,
};
use vstd::laws_eq::obeys_eq_spec_properties;
use vstd::prelude::*;
use vstd::std_specs::cmp::{OrdSpec, PartialEqSpec, PartialOrdSpec};

verus! {

/// `a` comes before `b` in the order of `T`.
pub open spec fn below<T: Ord>(a: T, b: T) -> bool {
    a.partial_cmp_spec(&b) == Some(Ordering::Less)
}

/// `a` comes before `b` in the order of `T`, or is equal to it.
pub open spec fn at_most<T: Ord>(a: T, b: T) -> bool {
    a.partial_cmp_spec(&b) == Some(Ordering::Less) || a.partial_cmp_spec(&b) == Some(
        Ordering::Equal,
    )
}

/// The entries of `s` rise, where equal neighbours are allowed.
pub open spec fn sorted<T: Ord>(s: Seq<T>) -> bool {
    forall|i: int, j: int| 0 <= i < j < s.len() ==> at_most(#[trigger] s[i], #[trigger] s[j])
}

/// The entries of `s` rise strictly.
pub open spec fn strictly_sorted<T: Ord>(s: Seq<T>) -> bool {
    forall|i: int, j: int| 0 <= i < j < s.len() ==> below(#[trigger] s[i], #[trigger] s[j])
}

/// Some entry of `s` is equal to `x`.
pub open spec fn has_equal<T: Ord>(s: Seq<T>, x: T) -> bool {
    exists|j: int| 0 <= j < s.len() && (#[trigger] s[j]).eq_spec(&x)
}

/// `s` without the entries that are equal to the entry kept before them.
pub open spec fn without_repeats<T: PartialEq>(s: Seq<T>) -> Seq<T>
    decreases s.len(),
{
    if s.len() <= 1 {
        s
    } else {
        let kept = without_repeats(s.drop_last());
        if s.last().eq_spec(&kept.last()) {
            kept
        } else {
            kept.push(s.last())
        }
    }
}

/// The entry of `s` at the index `i`.
pub open spec fn entry<T>(s: Seq<T>, i: usize) -> T {
    s[i as int]
}

/// In a total order any two values compare, one way only, equality is an
/// equivalence, and the order passes through chains.
pub proof fn lemma_order<T: Ord>(a: T, b: T, c: T)
    requires
        obeys_cmp::<T>(),
    ensures
        at_most(a, b) || below(b, a),
        !(at_most(a, b) && below(b, a)),
        a.eq_spec(&b) <==> a.partial_cmp_spec(&b) == Some(Ordering::Equal),
        a.eq_spec(&b) ==> b.eq_spec(&a),
        a.eq_spec(&b) && b.eq_spec(&c) ==> a.eq_spec(&c),
        at_most(a, b) && at_most(b, c) ==> at_most(a, c),
        below(a, b) && at_most(b, c) ==> below(a, c),
        at_most(a, b) && below(b, c) ==> below(a, c),
{
    reveal(obeys_eq_spec_properties);
    reveal(obeys_partial_cmp_spec_properties);
    reveal(obeys_cmp_partial_ord);
    reveal(obeys_cmp_ord);
    let ab = a.partial_cmp_spec(&b);
    let ba = b.partial_cmp_spec(&a);
    let bc = b.partial_cmp_spec(&c);
    let cb = c.partial_cmp_spec(&b);
    let ac = a.partial_cmp_spec(&c);
    let ca = c.partial_cmp_spec(&a);
    assert(ab == Some(a.cmp_spec(&b)));
    assert(ba == Some(b.cmp_spec(&a)));
    assert(bc == Some(b.cmp_spec(&c)));
    assert(cb == Some(c.cmp_spec(&b)));
    assert(ac == Some(a.cmp_spec(&c)));
    assert(ca == Some(c.cmp_spec(&a)));
    assert(ab == Some(Ordering::Equal) <==> a.eq_spec(&b));
    assert(ba == Some(Ordering::Equal) <==> b.eq_spec(&a));
    assert(bc == Some(Ordering::Equal) <==> b.eq_spec(&c));
    assert(cb == Some(Ordering::Equal) <==> c.eq_spec(&b));
    assert(ac == Some(Ordering::Equal) <==> a.eq_spec(&c));
    assert(ca == Some(Ordering::Equal) <==> c.eq_spec(&a));
    assert(ab == Some(Ordering::Less) <==> ba == Some(Ordering::Greater));
    assert(ba == Some(Ordering::Less) <==> ab == Some(Ordering::Greater));
    assert(bc == Some(Ordering::Less) <==> cb == Some(Ordering::Greater));
    assert(cb == Some(Ordering::Less) <==> bc == Some(Ordering::Greater));
    assert(ac == Some(Ordering::Less) <==> ca == Some(Ordering::Greater));
    assert(ca == Some(Ordering::Less) <==> ac == Some(Ordering::Greater));
    assert(a.eq_spec(&b) <==> b.eq_spec(&a));
    assert(b.eq_spec(&c) <==> c.eq_spec(&b));
    assert(a.eq_spec(&c) <==> c.eq_spec(&a));
    if a.eq_spec(&b) && b.eq_spec(&c) {
        assert(a.eq_spec(&c));
    }
    if ab == Some(Ordering::Less) && bc == Some(Ordering::Less) {
        assert(ac == Some(Ordering::Less));
    }
    if ca == Some(Ordering::Less) && ab == Some(Ordering::Less) {
        assert(cb == Some(Ordering::Less));
    }
    if bc == Some(Ordering::Less) && ca == Some(Ordering::Less) {
        assert(ba == Some(Ordering::Less));
    }
    if c.eq_spec(&a) && a.eq_spec(&b) {
        assert(c.eq_spec(&b));
    }
    if b.eq_spec(&c) && c.eq_spec(&a) {
        assert(b.eq_spec(&a));
    }
}

/// In a total order every value is equal to itself.
pub proof fn lemma_reflexive<T: Ord>(a: T)
    requires
        obeys_cmp::<T>(),
    ensures
        a.eq_spec(&a),
        at_most(a, a),
        !below(a, a),
{
    reveal(obeys_partial_cmp_spec_properties);
    reveal(obeys_cmp_partial_ord);
    reveal(obeys_cmp_ord);
    assert(a.partial_cmp_spec(&a) == Some(a.cmp_spec(&a)));
    if a.partial_cmp_spec(&a) == Some(Ordering::Less) {
        assert(a.partial_cmp_spec(&a) == Some(Ordering::Greater));
    }
    if a.partial_cmp_spec(&a) == Some(Ordering::Greater) {
        assert(a.partial_cmp_spec(&a) == Some(Ordering::Less));
    }
}

/// A sorted sequence without its last entry is sorted.
pub proof fn lemma_sorted_front<T: Ord>(s: Seq<T>)
    requires
        sorted(s),
        s.len() > 0,
    ensures
        sorted(s.drop_last()),
{
    let front = s.drop_last();
    assert forall|i: int, j: int| 0 <= i < j < front.len() implies at_most(
        #[trigger] front[i],
        #[trigger] front[j],
    ) by {
        assert(at_most(s[i], s[j]));
    }
}

/// Without its repeats a sequence is not longer, and where it is sorted,
/// it ends with an entry equal to the last.
pub proof fn lemma_without_repeats_last<T: Ord>(s: Seq<T>)
    requires
        obeys_cmp::<T>(),
        s.len() > 0,
    ensures
        0 < without_repeats(s).len() <= s.len(),
        without_repeats(s).last().eq_spec(&s.last()),
    decreases s.len(),
{
    if s.len() == 1 {
        lemma_reflexive(s[0]);
    } else {
        lemma_without_repeats_last(s.drop_last());
        let kept = without_repeats(s.drop_last());
        lemma_order(kept.last(), s.last(), s.last());
        lemma_order(s.last(), kept.last(), s.last());
        lemma_reflexive(s.last());
    }
}

/// Without its repeats a sorted sequence is strictly sorted.
pub proof fn lemma_without_repeats_sorted<T: Ord>(s: Seq<T>)
    requires
        obeys_cmp::<T>(),
        sorted(s),
    ensures
        strictly_sorted(without_repeats(s)),
    decreases s.len(),
{
    if s.len() >= 2 {
        let r = without_repeats(s);
        let front = s.drop_last();
        let kept = without_repeats(front);
        let last = s.last();
        lemma_sorted_front(s);
        lemma_without_repeats_sorted(front);
        lemma_without_repeats_last(front);
        if !last.eq_spec(&kept.last()) {
            assert(front.last() == s[s.len() - 2]);
            assert(at_most(s[s.len() - 2], s[s.len() - 1]));
            lemma_order(kept.last(), front.last(), last);
            assert(below(kept.last(), last)) by {
                lemma_order(kept.last(), last, last);
            }
            assert forall|i: int, j: int| 0 <= i < j < r.len() implies below(
                #[trigger] r[i],
                #[trigger] r[j],
            ) by {
                if j < kept.len() {
                    assert(below(kept[i], kept[j]));
                } else if i < kept.len() - 1 {
                    assert(below(kept[i], kept[kept.len() - 1]));
                    lemma_order(kept[i], kept.last(), last);
                }
            }
        }
    }
}

/// Without its repeats a sequence keeps only entries of the sequence.
pub proof fn lemma_without_repeats_from<T: Ord>(s: Seq<T>, j: int)
    requires
        0 <= j < without_repeats(s).len(),
    ensures
        s.contains(without_repeats(s)[j]),
    decreases s.len(),
{
    if s.len() <= 1 {
        assert(s[j] == without_repeats(s)[j]);
    } else {
        let front = s.drop_last();
        let kept = without_repeats(front);
        if j < kept.len() {
            lemma_without_repeats_from(front, j);
            let k = choose|k: int| 0 <= k < front.len() && front[k] == kept[j];
            assert(s[k] == kept[j]);
        } else {
            assert(s[s.len() - 1] == without_repeats(s)[j]);
        }
    }
}

/// Without its repeats a sequence keeps, for each of its entries, one that
/// is equal to it.
pub proof fn lemma_without_repeats_keeps<T: Ord>(s: Seq<T>, i: int)
    requires
        obeys_cmp::<T>(),
        0 <= i < s.len(),
    ensures
        has_equal(without_repeats(s), s[i]),
    decreases s.len(),
{
    let r = without_repeats(s);
    if s.len() <= 1 {
        lemma_reflexive(s[i]);
        assert(r[i].eq_spec(&s[i]));
    } else {
        let front = s.drop_last();
        let kept = without_repeats(front);
        lemma_without_repeats_last(front);
        if i < front.len() {
            lemma_without_repeats_keeps(front, i);
            let k = choose|k: int| 0 <= k < kept.len() && (#[trigger] kept[k]).eq_spec(&front[i]);
            assert(r[k].eq_spec(&s[i]));
        } else {
            lemma_reflexive(s.last());
            lemma_order(s.last(), kept.last(), s.last());
            if s.last().eq_spec(&kept.last()) {
                assert(r[r.len() - 1].eq_spec(&s[i]));
            } else {
                assert(r[r.len() - 1].eq_spec(&s[i]));
            }
        }
    }
}

/// `r` is the place of `x` in `s`: where `T` is totally ordered and `s` is
/// sorted, the entries before `r` come before `x`, and `x` is at most each
/// entry from `r` on.
pub open spec fn is_lower_bound<T: Ord>(s: Seq<T>, x: T, r: usize) -> bool {
    &&& r <= s.len()
    &&& obeys_cmp::<T>() && sorted(s) ==> {
        &&& forall|i: int| 0 <= i < r ==> below(#[trigger] s[i], x)
        &&& forall|i: int| r <= i < s.len() ==> at_most(x, #[trigger] s[i])
    }
}

/// `<[T]>::sort` of std: sorts the entries in rising order. The entries
/// stay the same, each as often as before. The order of `T` has to be
/// total.
#[verifier::external_body]
fn sort_items<T: Ord>(v: &mut Vec<T>)
    requires
        obeys_cmp::<T>(),
    ensures
        final(v)@.to_multiset() == old(v)@.to_multiset(),
        sorted(final(v)@),
{
    v.sort();
}

/// `Vec::dedup` of std: removes every entry that is equal to the entry
/// kept before it.
#[verifier::external_body]
fn dedup_items<T: PartialEq>(v: &mut Vec<T>)
    requires
        T::obeys_eq_spec(),
    ensures
        final(v)@ == without_repeats(old(v)@),
{
    v.dedup();
}

/// A map from values to their ranks: the values are collected, then sorted
/// and freed of repeats, and the rank of a value is its place among them.
pub struct CompMap<T> {
    original: Vec<T>,
}

impl<T> View for CompMap<T> {
    type V = Seq<T>;

    /// The values collected, in the order in which they are held.
    closed spec fn view(&self) -> Seq<T> {
        self.original@
    }
}

impl<T> CompMap<T> where T: Clone + Ord {
    /// A map without values.
    pub fn new() -> (map: Self)
        ensures
            map@ == Seq::<T>::empty(),
    {
        CompMap { original: Vec::new() }
    }

    /// Adds the value `x` at the end.
    pub fn push(&mut self, x: T)
        ensures
            final(self)@ == old(self)@.push(x),
    {
        self.original.push(x);
    }

    /// Adds a clone of each value of `x` at the end, in order.
    pub fn push_vec(&mut self, x: &[T])
        ensures
            final(self)@.len() == old(self)@.len() + x@.len(),
            forall|i: int| 0 <= i < old(self)@.len() ==> final(self)@[i] == old(self)@[i],
            forall|i: int|
                0 <= i < x@.len() ==> cloned(x@[i], #[trigger] final(self)@[old(self)@.len() + i]),
    {
        let mut k: usize = 0;
        while k < x.len()
            invariant
                k <= x@.len(),
                self@.len() == old(self)@.len() + k,
                forall|i: int| 0 <= i < old(self)@.len() ==> self@[i] == old(self)@[i],
                forall|i: int|
                    0 <= i < k ==> cloned(x@[i], #[trigger] self@[old(self)@.len() + i]),
            decreases x@.len() - k,
        {
            let c = x[k].clone();
            self.push(c);
            k += 1;
        }
    }

    /// The place of `x` among the values, found by binary search: the
    /// number of values that come before `x`, where the values are sorted.
    pub fn get(&self, x: &T) -> (r: usize)
        ensures
            is_lower_bound(self@, *x, r),
    {
        self.lower_bound(x)
    }

    /// The places of the values of `x`, in order.
    pub fn get_vec(&self, x: &[T]) -> (ret: Vec<usize>)
        ensures
            ret@.len() == x@.len(),
            forall|k: int| 0 <= k < x@.len() ==> is_lower_bound(self@, x@[k], #[trigger] ret@[k]),
    {
        let mut ret: Vec<usize> = Vec::new();
        let mut j: usize = 0;
        while j < x.len()
            invariant
                j <= x@.len(),
                ret@.len() == j,
                forall|k: int| 0 <= k < j ==> is_lower_bound(self@, x@[k], #[trigger] ret@[k]),
            decreases x@.len() - j,
        {
            ret.push(self.get(&x[j]));
            j += 1;
        }
        ret
    }

    /// Sorts the values and removes the repeats. Afterwards the values rise
    /// strictly, each is one of the values before, and each value before
    /// has an equal among them.
    pub fn build(&mut self)
        requires
            obeys_cmp::<T>(),
        ensures
            strictly_sorted(final(self)@),
            forall|j: int| 0 <= j < final(self)@.len() ==> old(self)@.contains(
                #[trigger] final(self)@[j],
            ),
            forall|i: int| 0 <= i < old(self)@.len() ==> has_equal(
                final(self)@,
                #[trigger] old(self)@[i],
            ),
    {
        sort_items(&mut self.original);
        let ghost ordered = self.original@;
        dedup_items(&mut self.original);
        proof {
            old(self)@.to_multiset_ensures();
            ordered.to_multiset_ensures();
            lemma_without_repeats_sorted(ordered);
            assert forall|j: int| 0 <= j < self@.len() implies old(self)@.contains(
                #[trigger] self@[j],
            ) by {
                lemma_without_repeats_from(ordered, j);
                assert(ordered.to_multiset().count(self@[j]) > 0);
            }
            assert forall|i: int| 0 <= i < old(self)@.len() implies has_equal(
                self@,
                #[trigger] old(self)@[i],
            ) by {
                assert(old(self)@.contains(old(self)@[i]));
                assert(old(self)@.to_multiset().count(old(self)@[i]) > 0);
                assert(ordered.contains(old(self)@[i]));
                let k = choose|k: int| 0 <= k < ordered.len() && ordered[k] == old(self)@[i];
                lemma_without_repeats_keeps(ordered, k);
            }
        }
    }

    /// The first place at which `x` is at most the value, found by binary
    /// search.
    fn lower_bound(&self, x: &T) -> (r: usize)
        ensures
            is_lower_bound(self@, *x, r),
    {
        let n = self.original.len();
        let ghost s = self@;
        let mut lo: usize = 0;
        let mut hi: usize = n;
        while lo < hi
            invariant
                lo <= hi <= n,
                n == s.len(),
                s == self@,
                obeys_cmp::<T>() && sorted(s) ==> {
                    &&& forall|i: int| 0 <= i < lo ==> below(#[trigger] s[i], *x)
                    &&& forall|i: int| hi <= i < n ==> at_most(*x, #[trigger] s[i])
                },
            decreases hi - lo,
        {
            let mid = lo + (hi - lo - 1) / 2;
            let probe = &self.original[mid];
            proof {
                if obeys_cmp::<T>() && sorted(s) {
                    reveal(obeys_cmp_partial_ord);
                    lemma_reflexive(entry(s, mid));
                    lemma_order(*x, entry(s, mid), *x);
                    assert forall|i: int| mid <= i < n && at_most(*x, entry(s, mid)) implies at_most(
                        *x,
                        #[trigger] s[i],
                    ) by {
                        if mid < i {
                            assert(at_most(entry(s, mid), s[i]));
                        }
                        lemma_order(*x, entry(s, mid), s[i]);
                    }
                    assert forall|i: int| 0 <= i <= mid && below(entry(s, mid), *x) implies below(
                        #[trigger] s[i],
                        *x,
                    ) by {
                        if i < mid {
                            assert(at_most(s[i], entry(s, mid)));
                        }
                        lemma_order(s[i], entry(s, mid), *x);
                    }
                }
            }
            if *x <= *probe {
                hi = mid;
            } else {
                lo = mid + 1;
            }
        }
        hi
    }
}

impl<T> Default for CompMap<T> where T: Clone + Ord {
    fn default() -> (map: Self)
        ensures
            map@ == Seq::<T>::empty(),
    {
        Self::new()
    }
}

} // verus!
