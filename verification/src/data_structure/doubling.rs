use crate::traits::{Doubling, Monoid};
use vstd::prelude::*;

verus! {

/// The bit `i` of `k` is set.
pub open spec fn bit_set(k: usize, i: usize) -> bool {
    (k >> i) & 1 == 1
}

/// Whether the bit `i` of `k` is set.
fn has_bit(k: usize, i: usize) -> (b: bool)
    requires
        i < usize::BITS,
    ensures
        b == bit_set(k, i),
{
    (k >> i) & 1 == 1
}

/// A table of jumps without weights: the row 0 holds, for each place, the
/// place that one step leads to, if any.
pub struct UnWeightDoubling {
    table: Vec<Vec<Option<usize>>>,
}

/// What `query` finds on the way from `idx`: whether every row before
/// `upto` whose bit is set in `k` has an entry for `idx`.
pub open spec fn all_present(table: Seq<Vec<Option<usize>>>, k: usize, idx: int, upto: int) -> bool {
    forall|i: int|
        0 <= i < upto && bit_set(k, i as usize) ==> (#[trigger] table[i])@[idx] is Some
}

/// The places that the rows before `upto` whose bit is set in `k` lead to,
/// one after the other, from every place.
pub open spec fn jumps(table: Seq<Vec<Option<usize>>>, k: usize, upto: int) -> Seq<Option<usize>>
    decreases upto,
{
    if upto <= 0 {
        Seq::new(table[0]@.len(), |j: int| Some(j as usize))
    } else if bit_set(k, (upto - 1) as usize) {
        Seq::new(
            table[0]@.len(),
            |j: int| table[upto - 1]@[jumps(table, k, upto - 1)[j]->0 as int],
        )
    } else {
        jumps(table, k, upto - 1)
    }
}

/// The jumps of the rows before `upto` can be followed: wherever a row is
/// to be used, every place so far is a place of the table.
pub open spec fn jumps_defined(table: Seq<Vec<Option<usize>>>, k: usize, upto: int) -> bool {
    forall|i: int, j: int|
        0 <= i < upto && bit_set(k, i as usize) && 0 <= j < table[0]@.len() ==> (#[trigger] jumps(
            table,
            k,
            i,
        )[j]) is Some && jumps(table, k, i)[j]->0 < table[0]@.len()
}

impl View for UnWeightDoubling {
    type V = Seq<Vec<Option<usize>>>;

    /// The rows of the table.
    closed spec fn view(&self) -> Seq<Vec<Option<usize>>> {
        self.table@
    }
}

impl UnWeightDoubling {
    /// The table has a row, and its rows are of one width.
    pub open spec fn wf(&self) -> bool {
        &&& self@.len() >= 1
        &&& forall|i: int| 0 <= i < self@.len() ==> (#[trigger] self@[i])@.len() == self@[0]@.len()
    }

    /// From every place, the place that the rows whose bit is set in `k`
    /// lead to, one after the other.
    pub fn query_vec(&self, k: usize) -> (ret: Vec<Option<usize>>)
        requires
            self.wf(),
            self@.len() <= usize::BITS,
            jumps_defined(self@, k, self@.len() as int),
        ensures
            ret@ == jumps(self@, k, self@.len() as int),
    {
        let width = self.table[0].len();
        let mut ret: Vec<Option<usize>> = Vec::new();
        let mut j: usize = 0;
        while j < width
            invariant
                j <= width,
                ret@.len() == j,
                forall|t: int| 0 <= t < j ==> ret@[t] == Some(t as usize),
            decreases width - j,
        {
            ret.push(Some(j));
            j += 1;
        }
        proof {
            assert(ret@ =~= jumps(self@, k, 0));
        }
        let mut i: usize = 0;
        while i < self.table.len()
            invariant
                self.wf(),
                self@.len() <= usize::BITS,
                width == self@[0]@.len(),
                i <= self@.len(),
                jumps_defined(self@, k, self@.len() as int),
                ret@ == jumps(self@, k, i as int),
                ret@.len() == width,
            decreases self@.len() - i,
        {
            if has_bit(k, i) {
                let mut next: Vec<Option<usize>> = Vec::new();
                let mut j: usize = 0;
                while j < width
                    invariant
                        self.wf(),
                        width == self@[0]@.len(),
                        i < self@.len(),
                        bit_set(k, i),
                        j <= width,
                        ret@.len() == width,
                        ret@ == jumps(self@, k, i as int),
                        jumps_defined(self@, k, self@.len() as int),
                        next@.len() == j,
                        forall|t: int|
                            0 <= t < j ==> next@[t] == self@[i as int]@[ret@[t]->0 as int],
                    decreases width - j,
                {
                    proof {
                        assert(jumps(self@, k, i as int)[j as int] is Some);
                        assert(self@[i as int]@.len() == width);
                    }
                    let from = ret[j].unwrap();
                    next.push(self.table[i][from]);
                    j += 1;
                }
                proof {
                    assert(next@ =~= jumps(self@, k, i + 1));
                }
                ret = next;
            }
            i += 1;
        }
        ret
    }
}

impl Doubling for UnWeightDoubling {
    type D = Option<usize>;

    /// A table needs a row.
    open spec fn new_requires(v: Seq<Option<usize>>, k: usize) -> bool {
        k >= 1
    }

    /// The rows up to the last are asked by their bits, so the bit behind
    /// the last row may not be set, and `idx` is a place of the table.
    open spec fn query_requires(&self, k: usize, idx: usize) -> bool {
        &&& self.wf()
        &&& self@.len() < usize::BITS
        &&& !bit_set(k, self@.len() as usize)
        &&& idx < self@[0]@.len()
    }

    /// `idx` is a place of the table.
    open spec fn set_next_requires(&self, idx: usize) -> bool {
        self.wf() && idx < self@[0]@.len()
    }

    /// The table of `k` rows with `v` as the row 0 and no entry in the
    /// other rows.
    fn new(v: &[Option<usize>], k: usize) -> (made: Self)
        ensures
            made.wf(),
            made@.len() == k,
            made@[0]@ == v@,
            forall|i: int, j: int|
                1 <= i < k && 0 <= j < v@.len() ==> (#[trigger] made@[i]@[j]) is None,
    {
        let mut table: Vec<Vec<Option<usize>>> = Vec::new();
        let mut r: usize = 0;
        while r < k
            invariant
                r <= k,
                table@.len() == r,
                forall|i: int| 0 <= i < r ==> (#[trigger] table@[i])@.len() == v@.len(),
                forall|i: int, j: int|
                    0 <= i < r && 0 <= j < v@.len() ==> (#[trigger] table@[i]@[j]) is None,
            decreases k - r,
        {
            let row: Vec<Option<usize>> = vec![None; v.len()];
            table.push(row);
            r += 1;
        }
        let mut i: usize = 0;
        while i < v.len()
            invariant
                k >= 1,
                i <= v@.len(),
                table@.len() == k,
                forall|r: int| 0 <= r < k ==> (#[trigger] table@[r])@.len() == v@.len(),
                forall|j: int| 0 <= j < i ==> table@[0]@[j] == v@[j],
                forall|r: int, j: int|
                    1 <= r < k && 0 <= j < v@.len() ==> (#[trigger] table@[r]@[j]) is None,
            decreases v@.len() - i,
        {
            let val = v[i];
            table[0][i] = val;
            i += 1;
        }
        proof {
            assert(table@[0]@ =~= v@);
        }
        UnWeightDoubling { table }
    }

    /// `idx`, where every row whose bit is set in `k` has an entry for
    /// `idx`, and nothing otherwise.
    fn query(&self, k: usize, idx: usize) -> (found: Option<usize>)
        ensures
            found == (if all_present(self@, k, idx as int, self@.len() as int) {
                Some(idx)
            } else {
                None
            }),
    {
        let x = idx;
        let mut i: usize = 0;
        while i <= self.table.len()
            invariant
                self.query_requires(k, idx),
                x == idx,
                i <= self@.len() + 1,
                all_present(self@, k, idx as int, i as int),
            decreases self@.len() + 1 - i,
        {
            if has_bit(k, i) {
                match self.table[i][x] {
                    Some(_) => {},
                    None => {
                        return None;
                    },
                }
            }
            i += 1;
        }
        Some(x)
    }

    /// Sets the first step from `idx` to `x`.
    fn set_next(&mut self, x: Option<usize>, idx: usize)
        ensures
            final(self).wf(),
            final(self)@.len() == old(self)@.len(),
            final(self)@[0]@ == old(self)@[0]@.update(idx as int, x),
            forall|i: int| 1 <= i < old(self)@.len() ==> final(self)@[i] == old(self)@[i],
    {
        self.table[0][idx] = x;
    }
}

/// A table of jumps with weights: the row `j` holds, for each place, the
/// place that `2^j` steps lead to and the product of the weights on the
/// way, if the steps can be taken.
pub struct WeightDoubling<T> where T: Monoid {
    table: Vec<Vec<Option<(usize, T::S)>>>,
}

/// Where `2^j` steps from the place `i` lead, by the first steps `v`, and
/// the product of the weights on the way.
pub open spec fn hop<T: Monoid>(v: Seq<Option<(usize, T::S)>>, j: int, i: int) -> Option<
    (usize, T::S),
>
    decreases j,
{
    if j <= 0 {
        v[i]
    } else {
        match hop::<T>(v, j - 1, i) {
            Some((p, m)) => match hop::<T>(v, j - 1, p as int) {
                Some((np, nm)) => Some((np, T::op_spec(m, nm))),
                None => None,
            },
            None => None,
        }
    }
}

/// The place that the entry `x` leads to; 0 where it leads nowhere.
pub open spec fn target<T: Monoid>(x: Option<(usize, T::S)>) -> usize {
    match x {
        Some((p, _)) => p,
        None => 0,
    }
}

/// The first steps `v` lead to places.
pub open spec fn steps_inside<T: Monoid>(v: Seq<Option<(usize, T::S)>>) -> bool {
    forall|i: int| 0 <= i < v.len() && (#[trigger] v[i]) is Some ==> target::<T>(v[i]) < v.len()
}

/// Steps that lead to places lead to places however often they are taken.
pub proof fn lemma_hop_inside<T: Monoid>(v: Seq<Option<(usize, T::S)>>, j: int, i: int)
    requires
        steps_inside::<T>(v),
        0 <= i < v.len(),
    ensures
        hop::<T>(v, j, i) is Some ==> target::<T>(hop::<T>(v, j, i)) < v.len(),
    decreases j,
{
    if j > 0 {
        lemma_hop_inside::<T>(v, j - 1, i);
        if hop::<T>(v, j - 1, i) is Some {
            lemma_hop_inside::<T>(v, j - 1, target::<T>(hop::<T>(v, j - 1, i)) as int);
        }
    }
}

/// Where the rows before `upto` whose bit is set in `k` lead from the place
/// `idx`, one after the other, and the product of the weights on the way.
pub open spec fn walk<T: Monoid>(
    table: Seq<Vec<Option<(usize, T::S)>>>,
    k: usize,
    upto: int,
    idx: usize,
) -> Option<(usize, T::S)>
    decreases upto,
{
    if upto <= 0 {
        Some((idx, T::e_spec()))
    } else if bit_set(k, (upto - 1) as usize) {
        match walk::<T>(table, k, upto - 1, idx) {
            Some((x, m)) => match table[upto - 1]@[x as int] {
                Some((nx, nm)) => Some((nx, T::op_spec(m, nm))),
                None => None,
            },
            None => None,
        }
    } else {
        walk::<T>(table, k, upto - 1, idx)
    }
}

impl<T: Monoid> View for WeightDoubling<T> {
    type V = Seq<Vec<Option<(usize, T::S)>>>;

    /// The rows of the table.
    closed spec fn view(&self) -> Seq<Vec<Option<(usize, T::S)>>> {
        self.table@
    }
}

impl<T: Monoid> WeightDoubling<T> {
    /// The table has a row, its rows are of one width, and its entries lead
    /// to places.
    pub open spec fn wf(&self) -> bool {
        &&& self@.len() >= 1
        &&& forall|i: int| 0 <= i < self@.len() ==> (#[trigger] self@[i])@.len() == self@[0]@.len()
        &&& forall|i: int, j: int|
            0 <= i < self@.len() && 0 <= j < self@[0]@.len() && (#[trigger] self@[i]@[j]) is Some
                ==> target::<T>(self@[i]@[j]) < self@[0]@.len()
    }

    /// A copy of the entry `x`.
    fn copy_entry(x: &Option<(usize, T::S)>) -> (c: Option<(usize, T::S)>)
        ensures
            c == *x,
    {
        match x {
            Some((p, m)) => {
                let w = m.clone();
                proof {
                    T::clone_exact(*m, w);
                }
                Some((*p, w))
            },
            None => None,
        }
    }
}

impl<T: Monoid> Doubling for WeightDoubling<T> {
    type D = Option<(usize, T::S)>;

    /// A table needs a row, and the first steps lead to places.
    open spec fn new_requires(v: Seq<Option<(usize, T::S)>>, k: usize) -> bool {
        k >= 1 && steps_inside::<T>(v)
    }

    /// The rows up to the last are asked by their bits, so the bit behind
    /// the last row may not be set, and `idx` is a place of the table.
    open spec fn query_requires(&self, k: usize, idx: usize) -> bool {
        &&& self.wf()
        &&& self@.len() < usize::BITS
        &&& !bit_set(k, self@.len() as usize)
        &&& idx < self@[0]@.len()
    }

    /// `idx` is a place of the table.
    open spec fn set_next_requires(&self, idx: usize) -> bool {
        self.wf() && idx < self@[0]@.len()
    }

    /// The table of `k` rows over the first steps `v`: the row `j` holds
    /// where `2^j` steps lead.
    fn new(v: &[Option<(usize, T::S)>], k: usize) -> (made: Self)
        ensures
            made.wf(),
            made@.len() == k,
            forall|j: int, i: int|
                0 <= j < k && 0 <= i < v@.len() ==> (#[trigger] made@[j]@[i]) == hop::<T>(v@, j, i),
            made@[0]@.len() == v@.len(),
    {
        let n = v.len();
        let mut table: Vec<Vec<Option<(usize, T::S)>>> = Vec::new();
        let mut r: usize = 0;
        while r < k
            invariant
                r <= k,
                n == v@.len(),
                table@.len() == r,
                forall|i: int| 0 <= i < r ==> (#[trigger] table@[i])@.len() == n,
                forall|i: int, j: int|
                    0 <= i < r && 0 <= j < n ==> (#[trigger] table@[i]@[j]) is None,
            decreases k - r,
        {
            let mut row: Vec<Option<(usize, T::S)>> = Vec::new();
            let mut j: usize = 0;
            while j < n
                invariant
                    j <= n,
                    row@.len() == j,
                    forall|t: int| 0 <= t < j ==> (#[trigger] row@[t]) is None,
                decreases n - j,
            {
                row.push(None);
                j += 1;
            }
            table.push(row);
            r += 1;
        }
        let mut i: usize = 0;
        while i < n
            invariant
                k >= 1,
                n == v@.len(),
                i <= n,
                table@.len() == k,
                forall|r: int| 0 <= r < k ==> (#[trigger] table@[r])@.len() == n,
                forall|j: int| 0 <= j < i ==> table@[0]@[j] == v@[j],
                forall|r: int, j: int|
                    1 <= r < k && 0 <= j < n ==> (#[trigger] table@[r]@[j]) is None,
            decreases n - i,
        {
            let val = Self::copy_entry(&v[i]);
            table[0][i] = val;
            i += 1;
        }
        let mut r: usize = 0;
        while r < k - 1
            invariant
                k >= 1,
                n == v@.len(),
                steps_inside::<T>(v@),
                r <= k - 1,
                table@.len() == k,
                forall|a: int| 0 <= a < k ==> (#[trigger] table@[a])@.len() == n,
                forall|a: int, j: int|
                    0 <= a <= r && 0 <= j < n ==> (#[trigger] table@[a]@[j]) == hop::<T>(v@, a, j),
            decreases k - 1 - r,
        {
            let mut i: usize = 0;
            while i < n
                invariant
                    k >= 1,
                    n == v@.len(),
                    steps_inside::<T>(v@),
                    r < k - 1,
                    i <= n,
                    table@.len() == k,
                    forall|a: int| 0 <= a < k ==> (#[trigger] table@[a])@.len() == n,
                    forall|a: int, j: int|
                        0 <= a <= r && 0 <= j < n ==> (#[trigger] table@[a]@[j]) == hop::<T>(
                            v@,
                            a,
                            j,
                        ),
                    forall|j: int|
                        0 <= j < i ==> (#[trigger] table@[r + 1]@[j]) == hop::<T>(v@, r + 1, j),
                decreases n - i,
            {
                proof {
                    lemma_hop_inside::<T>(v@, r as int, i as int);
                    assert(table@[r as int]@[i as int] == hop::<T>(v@, r as int, i as int));
                }
                let first = Self::copy_entry(&table[r][i]);
                let entry = match first {
                    Some((p, m)) => {
                        proof {
                            assert(table@[r as int]@[p as int] == hop::<T>(v@, r as int, p as int));
                        }
                        let nval = Self::copy_entry(&table[r][p]);
                        match nval {
                            Some((np, nm)) => Some((np, T::op(&m, &nm))),
                            None => None,
                        }
                    },
                    None => None,
                };
                table[r + 1][i] = entry;
                i += 1;
            }
            r += 1;
        }
        proof {
            assert forall|i: int, j: int|
                0 <= i < k && 0 <= j < n && (#[trigger] table@[i]@[j]) is Some implies target::<T>(
                table@[i]@[j],
            ) < n by {
                lemma_hop_inside::<T>(v@, i, j);
            }
        }
        WeightDoubling { table }
    }

    /// Where the rows whose bit is set in `k` lead from `idx`, one after
    /// the other, and the product of the weights on the way; nothing where
    /// one of the steps cannot be taken.
    fn query(&self, k: usize, idx: usize) -> (found: Option<(usize, T::S)>)
        ensures
            found == walk::<T>(self@, k, self@.len() as int, idx),
    {
        let mut m = T::e();
        let mut x = idx;
        let mut i: usize = 0;
        while i <= self.table.len()
            invariant
                self.query_requires(k, idx),
                i <= self@.len() + 1,
                x < self@[0]@.len(),
                walk::<T>(self@, k, i as int, idx) == Some((x, m)),
            ensures
                i == self@.len() + 1,
                walk::<T>(self@, k, i as int, idx) == Some((x, m)),
            decreases self@.len() + 1 - i,
        {
            if has_bit(k, i) {
                match &self.table[i][x] {
                    Some((nx, nm)) => {
                        x = *nx;
                        m = T::op(&m, nm);
                    },
                    None => {
                        proof {
                            Self::lemma_walk_none(self@, k, i + 1, self@.len() as int, idx);
                        }
                        return None;
                    },
                }
            }
            i += 1;
        }
        Some((x, m))
    }

    /// Sets the first step from `idx` to `x`, which leads to a place.
    fn set_next(&mut self, x: Option<(usize, T::S)>, idx: usize)
        ensures
            final(self)@.len() == old(self)@.len(),
            final(self)@[0]@ == old(self)@[0]@.update(idx as int, x),
            forall|i: int| 1 <= i < old(self)@.len() ==> final(self)@[i] == old(self)@[i],
            x is None || target::<T>(x) < old(self)@[0]@.len() ==> final(self).wf(),
    {
        self.table[0][idx] = x;
    }
}

impl<T: Monoid> WeightDoubling<T> {
    /// A walk that has come to nothing stays nothing.
    proof fn lemma_walk_none(
        table: Seq<Vec<Option<(usize, T::S)>>>,
        k: usize,
        from: int,
        upto: int,
        idx: usize,
    )
        requires
            0 <= from <= upto,
            walk::<T>(table, k, from, idx) is None,
        ensures
            walk::<T>(table, k, upto, idx) is None,
        decreases upto - from,
    {
        if from < upto {
            Self::lemma_walk_none(table, k, from, upto - 1, idx);
        }
    }
}

} // verus!
