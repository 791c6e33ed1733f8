use crate::utils::{range_to_tuple, IndexRange};
use rand::Rng;
use vstd::arithmetic::div_mod::{
    lemma_add_mod_noop, lemma_mul_mod_noop_general, lemma_small_mod, lemma_sub_mod_noop,
};
use vstd::arithmetic::power::{lemma_pow0, lemma_pow1, lemma_pow_adds, pow};
use vstd::prelude::*;

verus! {

/// What a `Pcg64Mcg` generator that was seeded with `seed` draws first from
/// the numbers `low..=high`.
pub uninterp spec fn seeded_draw(seed: u128, low: i128, high: i128) -> i128;

/// `Rng::gen_range` of rand on a `Pcg64Mcg` of rand_pcg that was made with
/// `new(seed)`: a number drawn from `low..=high`. The generator starts from
/// the same state each time, so the draw depends on the three numbers
/// alone.
#[verifier::external_body]
fn draw_seeded(seed: u128, low: i128, high: i128) -> (drawn: i128)
    requires
        low <= high,
    ensures
        drawn == seeded_draw(seed, low, high),
        low <= drawn <= high,
{
    let mut rng = rand_pcg::Pcg64Mcg::new(seed);
    rng.gen_range(low..=high)
}

/// The modulus of the hashes: the prime `2^61 - 1`.
pub open spec fn modulus() -> int {
    0x1fff_ffff_ffff_ffff
}

/// The value of `s` as a number in the base `base`, with the code points
/// as digits, the first the most significant.
pub open spec fn poly(s: Seq<char>, base: int) -> int
    decreases s.len(),
{
    if s.len() == 0 {
        0
    } else {
        poly(s.drop_last(), base) * base + s.last() as u32
    }
}

/// The hash of `s`: its value in the base `base`, modulo `2^61 - 1`.
pub open spec fn hash_of(s: Seq<char>, base: int) -> int {
    poly(s, base) % modulus()
}

/// The value of a text is the value of a prefix, shifted by the length of
/// the rest, plus the value of the rest.
pub proof fn lemma_poly_split(s: Seq<char>, base: int, l: int, r: int)
    requires
        0 <= l <= r <= s.len(),
    ensures
        poly(s.subrange(0, r), base) == poly(s.subrange(0, l), base) * pow(base, (r - l) as nat)
            + poly(s.subrange(l, r), base),
    decreases r - l,
{
    if l == r {
        lemma_pow0(base);
        assert(s.subrange(l, r).len() == 0);
    } else {
        lemma_poly_split(s, base, l, r - 1);
        assert(s.subrange(0, r).drop_last() =~= s.subrange(0, r - 1));
        assert(s.subrange(l, r).drop_last() =~= s.subrange(l, r - 1));
        lemma_pow_adds(base, (r - 1 - l) as nat, 1);
        lemma_pow1(base);
        let a = poly(s.subrange(0, l), base);
        let p = pow(base, (r - 1 - l) as nat);
        let b = poly(s.subrange(l, r - 1), base);
        assert((a * p + b) * base == a * (p * base) + b * base) by (nonlinear_arith);
    }
}

/// The remainder of `x` by the positive `m`, from 0 to `m - 1`.
fn rem_euclid(x: i128, m: i128) -> (r: i128)
    requires
        m > 0,
    ensures
        r == x as int % m as int,
        0 <= r < m,
{
    match x.checked_rem_euclid(m) {
        Some(r) => r,
        None => 0,
    }
}

/// The hashes of the prefixes of a text, from which the hash of any part
/// of the text is read.
pub struct RollingHsh {
    modulo: i128,
    hash: Vec<i128>,
    base_pow: Vec<i128>,
    text: Ghost<Seq<char>>,
    base: Ghost<int>,
}

impl RollingHsh {
    /// The text that was hashed.
    pub closed spec fn text(&self) -> Seq<char> {
        self.text@
    }

    /// The base of the hashes.
    pub closed spec fn base(&self) -> int {
        self.base@
    }

    /// The tables hold the hashes of the prefixes of the text and the
    /// powers of the base, modulo `2^61 - 1`.
    pub closed spec fn wf(&self) -> bool {
        &&& self.modulo == modulus()
        &&& 2 <= self.base@ <= modulus() - 2
        &&& self.hash@.len() == self.text@.len() + 1
        &&& self.base_pow@.len() == self.text@.len() + 1
        &&& forall|i: int|
            0 <= i <= self.text@.len() ==> #[trigger] self.hash@[i] == hash_of(
                self.text@.subrange(0, i),
                self.base@,
            )
        &&& forall|i: int|
            0 <= i <= self.text@.len() ==> #[trigger] self.base_pow@[i] == pow(
                self.base@,
                i as nat,
            ) % modulus()
    }

    /// The hashes of `v` in the base that a generator seeded with 0 draws
    /// from `2..=2^61 - 3`.
    pub fn new(v: &Vec<char>) -> (hasher: Self)
        requires
            v@.len() < usize::MAX,
        ensures
            hasher.wf(),
            hasher.text() == v@,
            hasher.base() == seeded_draw(0, 2, (modulus() - 2) as i128),
    {
        let modulo: i128 = 0x1fff_ffff_ffff_ffff;
        let base = draw_seeded(0, 2, modulo - 2);
        Self::with_base(v, base)
    }

    /// The hashes of `v` in the base `base`.
    pub fn with_base(v: &Vec<char>, base: i128) -> (hasher: Self)
        requires
            v@.len() < usize::MAX,
            2 <= base <= modulus() - 2,
        ensures
            hasher.wf(),
            hasher.text() == v@,
            hasher.base() == base,
    {
        let modulo: i128 = 0x1fff_ffff_ffff_ffff;
        proof {
            lemma_pow0(base as int);
        }
        let mut base_pow: Vec<i128> = vec![1; v.len() + 1];
        let mut i: usize = 0;
        while i < v.len()
            invariant
                i <= v@.len() < usize::MAX,
                modulo == modulus(),
                2 <= base <= modulus() - 2,
                base_pow@.len() == v@.len() + 1,
                forall|k: int|
                    0 <= k <= i ==> #[trigger] base_pow@[k] == pow(base as int, k as nat)
                        % modulus(),
            decreases v@.len() - i,
        {
            proof {
                let p = pow(base as int, i as nat);
                lemma_pow_adds(base as int, i as nat, 1);
                lemma_pow1(base as int);
                lemma_mul_mod_noop_general(p, base as int, modulus());
                assert(0 <= base_pow@[i as int] * base < modulus() * modulus())
                    by (nonlinear_arith)
                    requires
                        0 <= base_pow@[i as int] < modulus(),
                        0 <= base < modulus(),
                ;
            }
            let x = rem_euclid(base_pow[i] * base, modulo);
            base_pow[i + 1] = x;
            i += 1;
        }
        let mut hash: Vec<i128> = vec![0; v.len() + 1];
        let mut i: usize = 0;
        proof {
            assert(v@.subrange(0, 0).len() == 0);
        }
        while i < v.len()
            invariant
                i <= v@.len() < usize::MAX,
                modulo == modulus(),
                2 <= base <= modulus() - 2,
                hash@.len() == v@.len() + 1,
                forall|k: int|
                    0 <= k <= i ==> #[trigger] hash@[k] == hash_of(v@.subrange(0, k), base as int),
            decreases v@.len() - i,
        {
            proof {
                let before = poly(v@.subrange(0, i as int), base as int);
                let c = v@[i as int] as u32 as int;
                assert(v@.subrange(0, i + 1).drop_last() =~= v@.subrange(0, i as int));
                lemma_mul_mod_noop_general(before, base as int, modulus());
                lemma_add_mod_noop(before * base, c, modulus());
                lemma_small_mod(c as nat, modulus() as nat);
                assert(0 <= hash@[i as int] * base < modulus() * modulus()) by (nonlinear_arith)
                    requires
                        0 <= hash@[i as int] < modulus(),
                        0 <= base < modulus(),
                ;
            }
            let shifted = rem_euclid(hash[i] * base, modulo);
            let x = rem_euclid(shifted + (v[i] as u32) as i128, modulo);
            hash[i + 1] = x;
            i += 1;
        }
        RollingHsh { modulo, hash, base_pow, text: Ghost(v@), base: Ghost(base as int) }
    }

    /// The hash of the part of the text in `range`.
    pub fn get_hash<R: IndexRange>(&self, range: R) -> (h: i128)
        requires
            self.wf(),
            0 <= range.lower() <= range.upper(self.text().len() as int) <= self.text().len(),
        ensures
            h == hash_of(
                self.text().subrange(range.lower(), range.upper(self.text().len() as int)),
                self.base(),
            ),
    {
        let (l, r) = range_to_tuple(range, self.hash.len() - 1);
        let r_hash = self.hash[r];
        let l_hash = self.hash[l];
        proof {
            let m = modulus();
            let whole = poly(self.text@.subrange(0, r as int), self.base@);
            let front = poly(self.text@.subrange(0, l as int), self.base@);
            let shift = pow(self.base@, (r - l) as nat);
            lemma_poly_split(self.text@, self.base@, l as int, r as int);
            assert(self.base_pow@[r - l] == shift % m);
            lemma_mul_mod_noop_general(front, shift, m);
            lemma_sub_mod_noop(whole, front * shift, m);
            lemma_sub_mod_noop(r_hash as int, l_hash * self.base_pow@[r - l], m);
            lemma_small_mod(r_hash as nat, m as nat);
            assert(0 <= l_hash * self.base_pow@[r - l] < m * m) by (nonlinear_arith)
                requires
                    0 <= l_hash < m,
                    0 <= self.base_pow@[r - l] < m,
            ;
        }
        rem_euclid(r_hash - l_hash * self.base_pow[r - l], self.modulo)
    }
}

} // verus!
