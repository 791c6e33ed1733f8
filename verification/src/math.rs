use vstd::arithmetic::div_mod::{
    lemma_div_decreases, lemma_div_is_ordered, lemma_div_is_ordered_by_denominator, lemma_div_multiples_vanish,
    lemma_fundamental_div_mod, lemma_mod_multiples_basic, lemma_mul_mod_noop_general,
    lemma_small_mod,
};
use vstd::arithmetic::power::{
    lemma_pow0, lemma_pow1, lemma_pow_adds, lemma_pow_mod_noop, lemma_pow_multiplies,
    lemma_square_is_pow2, pow,
};
use vstd::prelude::*;

verus! {

/// `d` is a positive divisor of `n`.
pub open spec fn divides(d: int, n: int) -> bool {
    d > 0 && n % d == 0
}

/// A multiple of `d` is `d` times the quotient.
pub proof fn lemma_divides_quotient(d: int, n: int)
    requires
        divides(d, n),
    ensures
        n == d * (n / d),
        n == (n / d) * d,
        n > 0 ==> n / d >= 1 && d <= n,
{
    lemma_fundamental_div_mod(n, d);
    assert(d * (n / d) == (n / d) * d) by (nonlinear_arith);
    if n > 0 {
        assert(n / d >= 1 && d <= n) by (nonlinear_arith)
            requires
                n == d * (n / d),
                d > 0,
                n > 0,
        ;
    }
}

/// A product with `d` is a multiple of `d`.
pub proof fn lemma_divides_product(d: int, k: int)
    requires
        d > 0,
    ensures
        divides(d, d * k),
        divides(d, k * d),
        k >= 0 ==> (d * k) / d == k && (k * d) / d == k,
{
    lemma_mod_multiples_basic(k, d);
    assert(d * k == k * d) by (nonlinear_arith);
    if k >= 0 {
        lemma_div_multiples_vanish(k, d);
    }
}

/// A divisor of `x` and `y` divides `x + q * y`.
pub proof fn lemma_divides_combination(d: int, x: int, y: int, q: int)
    requires
        divides(d, x),
        divides(d, y),
    ensures
        divides(d, x + q * y),
{
    lemma_fundamental_div_mod(x, d);
    lemma_fundamental_div_mod(y, d);
    let k = x / d + q * (y / d);
    assert(x + q * y == d * k) by (nonlinear_arith)
        requires
            x == d * (x / d),
            y == d * (y / d),
            k == x / d + q * (y / d),
    ;
    lemma_divides_product(d, k);
}

/// A divisor of a divisor is a divisor.
pub proof fn lemma_divides_transitive(a: int, b: int, c: int)
    requires
        divides(a, b),
        divides(b, c),
    ensures
        divides(a, c),
{
    lemma_fundamental_div_mod(b, a);
    lemma_fundamental_div_mod(c, b);
    let k = (b / a) * (c / b);
    assert(c == a * k) by (nonlinear_arith)
        requires
            b == a * (b / a),
            c == b * (c / b),
            k == (b / a) * (c / b),
    ;
    lemma_divides_product(a, k);
}

/// The quotient of a positive number by a divisor is a divisor too, and
/// dividing by it gives the divisor back.
pub proof fn lemma_cofactor(d: int, n: int)
    requires
        divides(d, n),
        n > 0,
    ensures
        divides(n / d, n),
        n / (n / d) == d,
        1 <= n / d <= n,
{
    lemma_divides_quotient(d, n);
    lemma_divides_product(n / d, d);
    assert(n / d <= n) by (nonlinear_arith)
        requires
            n == d * (n / d),
            d >= 1,
            n / d >= 1,
    ;
}

/// A divisor of `n` that is at least `i`, where `i` exceeds `n / i`, has a
/// quotient below `i`.
pub proof fn lemma_small_cofactor(n: int, d: int, i: int)
    requires
        1 <= i <= d,
        n > 0,
        divides(d, n),
        i > n / i,
    ensures
        1 <= n / d < i,
        divides(n / d, n),
        n / (n / d) == d,
{
    lemma_cofactor(d, n);
    lemma_div_is_ordered_by_denominator(n, i, d);
}

/// A number that is at most the quotient by itself has its square within
/// the number.
pub proof fn lemma_square_within(n: int, i: int)
    requires
        1 <= i <= n / i,
    ensures
        i * i <= n,
{
    lemma_fundamental_div_mod(n, i);
    assert(i * i <= n) by (nonlinear_arith)
        requires
            n == i * (n / i) + n % i,
            n % i >= 0,
            1 <= i <= n / i,
    ;
}

/// A number whose square is within `n` is below `n`, or 1.
pub proof fn lemma_root_below(n: int, i: int)
    requires
        1 <= i,
        i * i <= n,
    ensures
        i < n || i == 1,
{
    assert(i < n || i == 1) by (nonlinear_arith)
        requires
            1 <= i,
            i * i <= n,
    ;
}

/// The greatest common divisor of `a` and `b`, and 0 where both are 0.
pub open spec fn gcd_of(a: nat, b: nat) -> nat
    decreases b,
{
    if b == 0 {
        a
    } else {
        gcd_of(b, a % b)
    }
}

/// `gcd_of(a, b)` divides `a` and `b`, every divisor of both divides it,
/// and it is 0 only where both are 0.
pub proof fn lemma_gcd(a: nat, b: nat)
    ensures
        gcd_of(a, b) == 0 <==> a == 0 && b == 0,
        gcd_of(a, b) > 0 ==> divides(gcd_of(a, b) as int, a as int) && divides(
            gcd_of(a, b) as int,
            b as int,
        ),
        forall|d: int|
            divides(d, a as int) && divides(d, b as int) ==> #[trigger] divides(
                d,
                gcd_of(a, b) as int,
            ),
    decreases b,
{
    let g = gcd_of(a, b) as int;
    if b == 0 {
        if a > 0 {
            lemma_divides_product(a as int, 1);
            lemma_divides_product(a as int, 0);
        }
    } else {
        let r = a % b;
        lemma_gcd(b, r);
        lemma_fundamental_div_mod(a as int, b as int);
        assert(b as int * (a as int / b as int) == (a as int / b as int) * b as int)
            by (nonlinear_arith);
        lemma_divides_combination(g, r as int, b as int, a as int / b as int);
        assert forall|d: int| divides(d, a as int) && divides(d, b as int) implies #[trigger] divides(
            d,
            g,
        ) by {
            lemma_divides_combination(d, a as int, b as int, -(a as int / b as int));
            assert(a as int + (-(a as int / b as int)) * b as int == r) by (nonlinear_arith)
                requires
                    a as int == b as int * (a as int / b as int) + r,
            ;
            assert(divides(d, b as int) && divides(d, r as int));
        }
    }
}

/// The greatest common divisor of `a` and `b`, by Euclid's algorithm.
pub fn gcd(a: usize, b: usize) -> (g: usize)
    ensures
        g == gcd_of(a as nat, b as nat),
    decreases b,
{
    if b == 0 {
        a
    } else {
        gcd(b, a % b)
    }
}

/// The least common multiple of `a` and `b`: `a`, divided by the greatest
/// common divisor, times `b`.
pub fn lcm(a: usize, b: usize) -> (l: usize)
    requires
        a != 0 || b != 0,
        (a / gcd_of(a as nat, b as nat) as usize) * b <= usize::MAX,
    ensures
        l == (a as nat / gcd_of(a as nat, b as nat)) * b,
{
    proof {
        lemma_gcd(a as nat, b as nat);
    }
    (a / gcd(a, b)) * b
}

/// `lcm` gives a common multiple: it is `a * b` divided by the greatest
/// common divisor, a multiple of `b`, and of `a`.
pub proof fn lemma_lcm(a: nat, b: nat)
    requires
        a > 0,
        b > 0,
    ensures
        (a / gcd_of(a, b)) * b * gcd_of(a, b) == a * b,
        divides(a as int, ((a / gcd_of(a, b)) * b) as int),
        divides(b as int, ((a / gcd_of(a, b)) * b) as int),
{
    lemma_gcd(a, b);
    let g = gcd_of(a, b) as int;
    let l = (a as int / g) * b as int;
    lemma_divides_quotient(g, a as int);
    lemma_divides_quotient(g, b as int);
    assert(l * g == a * b) by (nonlinear_arith)
        requires
            l == (a as int / g) * b as int,
            a as int == g * (a as int / g),
    ;
    assert(l == a as int * (b as int / g)) by (nonlinear_arith)
        requires
            l == (a as int / g) * b as int,
            a as int == g * (a as int / g),
            b as int == g * (b as int / g),
    ;
    lemma_divides_product(a as int, b as int / g);
    lemma_divides_product(b as int, a as int / g);
}

/// No number from 2 up to `n - 1` divides `n`. For `n >= 2` this says that
/// `n` is prime; it holds of 0 and 1 too.
pub open spec fn has_no_proper_factor(n: int) -> bool {
    forall|d: int| 2 <= d < n ==> #[trigger] (n % d) != 0
}

/// Whether no number from 2 up to `n - 1` divides `n`: whether `n` is
/// prime, where `n >= 2`.
pub fn is_prime(n: usize) -> (r: bool)
    ensures
        r == has_no_proper_factor(n as int),
{
    let mut i: usize = 2;
    while i <= n
        invariant
            2 <= i,
            forall|d: int| 2 <= d < i && d < n ==> #[trigger] (n as int % d) != 0,
        decreases n - i,
    {
        if i > n / i {
            proof {
                assert forall|d: int| 2 <= d < n implies #[trigger] (n as int % d) != 0 by {
                    if d >= i && n as int % d == 0 {
                        lemma_small_cofactor(n as int, d, i as int);
                        lemma_divides_quotient(d, n as int);
                        let q = n as int / d;
                        assert(q != 1);
                        assert(n as int % q == 0);
                    }
                }
            }
            return true;
        }
        proof {
            lemma_square_within(n as int, i as int);
            assert(i < n) by (nonlinear_arith)
                requires
                    i * i <= n,
                    i >= 2,
            ;
        }
        if n % i == 0 {
            return false;
        }
        i += 1;
    }
    true
}

/// What `get_divisors` lists for the numbers from 1 to `k`: each `i` in
/// turn whose square is within `n` and that has no bit in common with `n`,
/// followed by `n / i` unless that is `i` again.
pub open spec fn listed_divisors(n: usize, k: usize) -> Seq<usize>
    decreases k,
{
    if k == 0 {
        Seq::empty()
    } else {
        let before = listed_divisors(n, (k - 1) as usize);
        if k > n / k || n & k != 0 {
            before
        } else if k * k != n {
            before.push(k).push(n / k)
        } else {
            before.push(k)
        }
    }
}

/// Past a number that exceeds the quotient of `n` by itself nothing more is
/// listed.
proof fn lemma_listed_tail(n: usize, i: usize, k: usize)
    requires
        1 <= i <= k + 1,
        i > n / i,
    ensures
        listed_divisors(n, k) == listed_divisors(n, (i - 1) as usize),
    decreases k,
{
    if k >= i {
        lemma_div_is_ordered_by_denominator(n as int, i as int, k as int);
        lemma_listed_tail(n, i, (k - 1) as usize);
    }
}

/// The numbers `i` from 1 on whose square is within `n` and that have no
/// bit in common with `n`, in rising order, each followed by `n / i` unless
/// that is `i` again.
pub fn get_divisors(n: usize) -> (ret: Vec<usize>)
    ensures
        ret@ == listed_divisors(n, n),
{
    let mut ret: Vec<usize> = Vec::new();
    let mut i: usize = 1;
    while i <= n
        invariant
            1 <= i <= n + 1,
            ret@ == listed_divisors(n, (i - 1) as usize),
        decreases n + 1 - i,
    {
        if i > n / i {
            proof {
                lemma_listed_tail(n, i, n);
            }
            return ret;
        }
        proof {
            lemma_square_within(n as int, i as int);
            lemma_root_below(n as int, i as int);
        }
        if n & i != 0 {
            i += 1;
            continue ;
        }
        ret.push(i);
        if i * i != n {
            ret.push(n / i)
        }
        i += 1;
    }
    ret
}

/// The divisors of `n`.
pub open spec fn divisors(n: int) -> Set<int> {
    Set::new(|d: int| 1 <= d <= n && n % d == 0)
}

/// The divisors of `n` that are below `i` or have a quotient below `i`.
pub open spec fn outer_divisors(n: int, i: int) -> Set<int> {
    Set::new(|d: int| 1 <= d <= n && n % d == 0 && (d < i || n / d < i))
}

/// A set of numbers from 1 to `n` is finite and has at most `n` elements.
pub proof fn lemma_positive_set(s: Set<int>, n: int)
    requires
        n >= 0,
        forall|z: int| s.contains(z) ==> 1 <= z <= n,
    ensures
        s.finite(),
        s.len() <= n,
{
    vstd::set_lib::lemma_int_range(1, n + 1);
    let range = vstd::set_lib::set_int_range(1, n + 1);
    assert(s.subset_of(range));
    vstd::set_lib::lemma_len_subset(s, range);
}

/// Going from `i` to `i + 1`, where the square of `i` is within `n`, adds
/// to the outer divisors `i` and `n / i` where `i` divides `n`, and nothing
/// otherwise.
proof fn lemma_outer_step(n: int, i: int)
    requires
        1 <= i <= n / i,
    ensures
        n % i != 0 ==> outer_divisors(n, i + 1) == outer_divisors(n, i),
        n % i == 0 ==> outer_divisors(n, i + 1) == outer_divisors(n, i).insert(i).insert(n / i),
        !outer_divisors(n, i).contains(i),
        !outer_divisors(n, i).contains(n / i),
        n % i == 0 ==> (i == n / i <==> i * i == n),
{
    lemma_square_within(n, i);
    assert forall|d: int| 1 <= d <= n && #[trigger] (n % d) == 0 && n / d == i implies n % i
        == 0 && d == n / i by {
        lemma_cofactor(d, n);
    }
    if n % i == 0 {
        lemma_cofactor(i, n);
        lemma_divides_quotient(i, n);
        assert(outer_divisors(n, i + 1) =~= outer_divisors(n, i).insert(i).insert(n / i));
        if i * i == n {
            lemma_divides_product(i, i);
        }
    } else {
        assert(outer_divisors(n, i + 1) =~= outer_divisors(n, i));
    }
    if n / i >= 1 && n % (n / i) == 0 {
        lemma_cofactor(n / i, n);
        lemma_fundamental_div_mod(n, i);
        let q = n / i;
        assert(n / q >= i) by {
            if n / q < i {
                lemma_fundamental_div_mod(n, q);
                assert(false) by (nonlinear_arith)
                    requires
                        n == q * (n / q) + n % q,
                        n % q == 0,
                        n == i * q + n % i,
                        n % i >= 0,
                        n / q < i,
                        q >= 1,
                ;
            }
        }
    }
}

/// The number of divisors of `n`.
pub fn divisors_num(n: usize) -> (ret: usize)
    ensures
        ret == divisors(n as int).len(),
{
    let mut ret: usize = 0;
    let mut i: usize = 1;
    proof {
        assert forall|d: int| 1 <= d <= n && #[trigger] (n as int % d) == 0 implies n as int / d
            >= 1 by {
            lemma_cofactor(d, n as int);
        }
        assert(outer_divisors(n as int, 1) =~= Set::<int>::empty());
    }
    while i <= n && i <= n / i
        invariant
            1 <= i <= n + 1,
            ret == outer_divisors(n as int, i as int).len(),
            outer_divisors(n as int, i as int).finite(),
        decreases n + 1 - i,
    {
        proof {
            lemma_outer_step(n as int, i as int);
            lemma_square_within(n as int, i as int);
            lemma_root_below(n as int, i as int);
            lemma_positive_set(outer_divisors(n as int, i + 1), n as int);
        }
        if n % i != 0 {
            i += 1;
            continue ;
        }
        ret += 1;
        if i * i != n {
            ret += 1;
        }
        i += 1;
    }
    proof {
        if i <= n {
            assert forall|d: int|
                1 <= d <= n && #[trigger] (n as int % d) == 0 && d >= i implies n as int / d
                < i by {
                lemma_small_cofactor(n as int, d, i as int);
            }
        }
        assert(outer_divisors(n as int, i as int) =~= divisors(n as int));
    }
    ret
}

/// The divisors of `j` among the numbers from 1 to `i`.
pub open spec fn divisors_upto(j: int, i: int) -> Set<int> {
    Set::new(|d: int| 1 <= d <= i && j % d == 0)
}

/// For each number up to `n`, the number of its divisors; 0 for 0.
pub fn divisors_num_range(n: usize) -> (ret: Vec<usize>)
    requires
        n < usize::MAX,
    ensures
        ret@.len() == n + 1,
        ret@[0] == 0,
        forall|j: int| 1 <= j <= n ==> #[trigger] ret@[j] == divisors(j).len(),
{
    let mut ret: Vec<usize> = vec![0; n + 1];
    let mut i: usize = 1;
    proof {
        assert forall|j: int| 1 <= j <= n implies divisors_upto(j, 0) =~= Set::<int>::empty() by {}
    }
    while i <= n
        invariant
            1 <= i <= n + 1,
            n < usize::MAX,
            ret@.len() == n + 1,
            ret@[0] == 0,
            forall|j: int|
                1 <= j <= n ==> #[trigger] ret@[j] == divisors_upto(j, i - 1).len()
                    && divisors_upto(j, i - 1).finite(),
        decreases n + 1 - i,
    {
        let ghost before = ret@;
        let mut j: usize = i;
        proof {
            assert forall|k: int| 1 <= k <= n implies #[trigger] before[k] == divisors_upto(
                k,
                i - 1,
            ).len() && divisors_upto(k, i - 1).finite() by {
                assert(ret@[k] == divisors_upto(k, i - 1).len());
            }
            lemma_divides_product(i as int, 1);
            assert forall|k: int| 1 <= k < i implies #[trigger] (k % i as int) != 0 by {
                lemma_small_mod(k as nat, i as nat);
            }
        }
        loop
            invariant_except_break
                forall|k: int|
                    1 <= k <= n ==> #[trigger] ret@[k] == before[k] + (if k % i as int == 0 && k
                        < j {
                        1int
                    } else {
                        0int
                    }),
            invariant
                1 <= i <= j <= n,
                j as int % i as int == 0,
                ret@.len() == n + 1,
                ret@[0] == 0,
                before.len() == n + 1,
                forall|k: int|
                    1 <= k <= n ==> #[trigger] before[k] == divisors_upto(k, i - 1).len()
                        && divisors_upto(k, i - 1).finite(),
            ensures
                forall|k: int|
                    1 <= k <= n ==> #[trigger] ret@[k] == before[k] + (if k % i as int == 0 {
                        1int
                    } else {
                        0int
                    }),
                ret@.len() == n + 1,
                ret@[0] == 0,
            decreases n - j,
        {
            proof {
                assert(divisors_upto(j as int, i as int) =~= divisors_upto(j as int, i - 1).insert(
                    i as int,
                ));
                lemma_positive_set(divisors_upto(j as int, i as int), j as int);
            }
            let c = ret[j] + 1;
            ret[j] = c;
            proof {
                assert forall|k: int| j < k < j + i && 1 <= k <= n implies #[trigger] (k
                    % i as int) != 0 by {
                    if k % i as int == 0 {
                        lemma_divides_combination(i as int, k, j as int, -1);
                        lemma_small_mod((k - j) as nat, i as nat);
                    }
                }
            }
            if j > n - i {
                break ;
            }
            proof {
                lemma_divides_combination(i as int, j as int, i as int, 1);
            }
            j += i;
        }
        proof {
            assert forall|k: int| 1 <= k <= n implies #[trigger] ret@[k] == divisors_upto(
                k,
                i as int,
            ).len() && divisors_upto(k, i as int).finite() by {
                assert(before[k] == divisors_upto(k, i - 1).len());
                if k % i as int == 0 {
                    assert(divisors_upto(k, i as int) =~= divisors_upto(k, i - 1).insert(i as int));
                } else {
                    assert(divisors_upto(k, i as int) =~= divisors_upto(k, i - 1));
                }
            }
        }
        i += 1;
    }
    proof {
        assert forall|j: int| 1 <= j <= n implies #[trigger] ret@[j] == divisors(j).len() by {
            assert(ret@[j] == divisors_upto(j, n as int).len());
            assert(divisors_upto(j, n as int) =~= divisors(j)) by {
                assert forall|d: int| 1 <= d && #[trigger] (j % d) == 0 implies d <= j by {
                    lemma_divides_quotient(d, j);
                }
            }
        }
    }
    ret
}

/// No number from 2 up to `bound - 1`, and below `k`, divides `k`.
pub open spec fn no_factor_below(k: int, bound: int) -> bool {
    forall|d: int| 2 <= d < bound && d < k ==> #[trigger] (k % d) != 0
}

/// `p` is the least number from 2 on that divides `k`.
pub open spec fn is_least_factor(p: int, k: int) -> bool {
    &&& 2 <= p <= k
    &&& k % p == 0
    &&& no_factor_below(k, p)
}

/// The least factor of a number is prime.
pub proof fn lemma_least_factor_prime(p: int, k: int)
    requires
        is_least_factor(p, k),
    ensures
        has_no_proper_factor(p),
{
    assert forall|d: int| 2 <= d < p implies #[trigger] (p % d) != 0 by {
        if p % d == 0 {
            lemma_divides_transitive(d, p, k);
        }
    }
}

/// A number without a proper factor below `i`, where `i` exceeds `k / i`,
/// has no proper factor at all.
pub proof fn lemma_no_factor_beyond_root(k: int, i: int)
    requires
        k >= 1,
        i >= 1,
        i > k / i,
        no_factor_below(k, i),
    ensures
        has_no_proper_factor(k),
{
    assert forall|d: int| 2 <= d < k implies #[trigger] (k % d) != 0 by {
        if d >= i && k % d == 0 {
            lemma_small_cofactor(k, d, i);
            lemma_divides_quotient(d, k);
            let q = k / d;
            assert(q != 1);
            assert(k % q == 0);
        }
    }
}

/// Where `i` is not prime, a number without a proper factor below `i` is
/// not a proper multiple of `i`.
pub proof fn lemma_composite_step(k: int, i: int)
    requires
        2 <= i,
        !no_factor_below(i, i),
    ensures
        no_factor_below(k, i + 1) == no_factor_below(k, i),
{
    let d = choose|d: int| 2 <= d < i && d < i && #[trigger] (i % d) == 0;
    if no_factor_below(k, i) && i < k && k % i == 0 {
        lemma_divides_transitive(d, i, k);
        assert(k % d != 0);
    }
    if no_factor_below(k, i) {
        assert forall|e: int| 2 <= e < i + 1 && e < k implies #[trigger] (k % e) != 0 by {}
    }
}

/// A proper multiple of `i` is at least twice `i`.
pub proof fn lemma_proper_multiple(k: int, i: int)
    requires
        1 <= i < k,
        k % i == 0,
    ensures
        2 * i <= k,
{
    lemma_divides_quotient(i, k);
    assert(2 * i <= k) by (nonlinear_arith)
        requires
            k == i * (k / i),
            1 <= i < k,
    ;
}

/// A sieve over the numbers up to `n`: for each number from 2 on, whether it
/// is prime. The entry for 0 is `false`, that for 1 is `true`.
pub fn eratostenes_thive(n: usize) -> (isprime: Vec<bool>)
    requires
        1 <= n < usize::MAX,
    ensures
        isprime@.len() == n + 1,
        !isprime@[0],
        isprime@[1],
        forall|k: int| 2 <= k <= n ==> #[trigger] isprime@[k] == has_no_proper_factor(k),
{
    let mut isprime: Vec<bool> = vec![true; n + 1];
    isprime[0] = false;
    isprime[1] = true;
    let mut i: usize = 2;
    while i <= n && i <= n / i
        invariant
            2 <= i <= n + 1,
            n < usize::MAX,
            isprime@.len() == n + 1,
            !isprime@[0],
            isprime@[1],
            forall|k: int| 2 <= k <= n ==> #[trigger] isprime@[k] == no_factor_below(k, i as int),
        decreases n + 1 - i,
    {
        proof {
            lemma_square_within(n as int, i as int);
            assert(2 * i <= n) by (nonlinear_arith)
                requires
                    i * i <= n,
                    i >= 2,
            ;
        }
        if !isprime[i] {
            proof {
                assert forall|k: int| 2 <= k <= n implies #[trigger] isprime@[k]
                    == no_factor_below(k, i + 1) by {
                    lemma_composite_step(k, i as int);
                }
            }
            i += 1;
            continue ;
        }
        let ghost before = isprime@;
        let mut j: usize = 2 * i;
        proof {
            lemma_divides_product(i as int, 2);
        }
        loop
            invariant_except_break
                forall|k: int|
                    2 <= k <= n ==> #[trigger] isprime@[k] == (before[k] && !(k % i as int == 0
                        && 2 * i <= k < j)),
            invariant
                2 <= i,
                2 * i <= j <= n,
                j as int % i as int == 0,
                isprime@.len() == n + 1,
                before.len() == n + 1,
                !isprime@[0],
                isprime@[1],
            ensures
                forall|k: int|
                    2 <= k <= n ==> #[trigger] isprime@[k] == (before[k] && !(k % i as int == 0
                        && 2 * i <= k)),
                isprime@.len() == n + 1,
                !isprime@[0],
                isprime@[1],
            decreases n - j,
        {
            isprime[j] = false;
            proof {
                assert forall|k: int| j < k < j + i && 1 <= k <= n implies #[trigger] (k
                    % i as int) != 0 by {
                    if k % i as int == 0 {
                        lemma_divides_combination(i as int, k, j as int, -1);
                        lemma_small_mod((k - j) as nat, i as nat);
                    }
                }
            }
            if j > n - i {
                break ;
            }
            proof {
                lemma_divides_combination(i as int, j as int, i as int, 1);
            }
            j += i;
        }
        proof {
            assert forall|k: int| 2 <= k <= n implies #[trigger] isprime@[k] == no_factor_below(
                k,
                i + 1,
            ) by {
                assert(before[k] == no_factor_below(k, i as int));
                if i < k && k % i as int == 0 {
                    lemma_proper_multiple(k, i as int);
                }
                if no_factor_below(k, i as int) && !(i < k && k % i as int == 0) {
                    assert forall|e: int| 2 <= e < i + 1 && e < k implies #[trigger] (k % e)
                        != 0 by {}
                }
            }
        }
        i += 1;
    }
    proof {
        assert forall|k: int| 2 <= k <= n implies #[trigger] isprime@[k] == has_no_proper_factor(
            k,
        ) by {
            assert(isprime@[k] == no_factor_below(k, i as int));
            if i <= n {
                lemma_div_is_ordered(k, n as int, i as int);
                if no_factor_below(k, i as int) {
                    lemma_no_factor_beyond_root(k, i as int);
                }
            }
        }
    }
    isprime
}

/// For each number from 2 up to `n` its least prime factor; 0 for 0 and 1
/// for 1.
pub fn get_minfactor(n: usize) -> (minfactor: Vec<usize>)
    requires
        1 <= n < usize::MAX,
    ensures
        minfactor@.len() == n + 1,
        minfactor@[0] == 0,
        minfactor@[1] == 1,
        forall|k: int| 2 <= k <= n ==> is_least_factor(#[trigger] minfactor@[k] as int, k),
{
    let mut isprime: Vec<bool> = vec![true; n + 1];
    let mut minfactor: Vec<usize> = vec![0; n + 1];
    isprime[0] = false;
    isprime[1] = false;
    minfactor[1] = 1;
    let mut i: usize = 2;
    while i <= n
        invariant
            2 <= i <= n + 1,
            n < usize::MAX,
            isprime@.len() == n + 1,
            minfactor@.len() == n + 1,
            minfactor@[0] == 0,
            minfactor@[1] == 1,
            forall|k: int| 2 <= k <= n ==> #[trigger] isprime@[k] == no_factor_below(k, i as int),
            forall|k: int|
                2 <= k <= n && #[trigger] minfactor@[k] != 0 ==> is_least_factor(
                    minfactor@[k] as int,
                    k,
                ),
            forall|k: int|
                2 <= k <= n && #[trigger] minfactor@[k] == 0 ==> k >= i && no_factor_below(
                    k,
                    i as int,
                ),
        decreases n + 1 - i,
    {
        if !isprime[i] {
            proof {
                assert forall|k: int| 2 <= k <= n implies #[trigger] isprime@[k]
                    == no_factor_below(k, i + 1) by {
                    lemma_composite_step(k, i as int);
                }
                assert forall|k: int| 2 <= k <= n && #[trigger] minfactor@[k] == 0 implies k >= i
                    + 1 && no_factor_below(k, i + 1) by {
                    lemma_composite_step(k, i as int);
                }
            }
            i += 1;
            continue ;
        }
        minfactor[i] = i;
        let ghost sieve = isprime@;
        let ghost least = minfactor@;
        if i <= n - i {
            let mut j: usize = i + i;
            proof {
                lemma_divides_product(i as int, 2);
            }
            loop
                invariant_except_break
                    forall|k: int|
                        2 <= k <= n ==> #[trigger] isprime@[k] == (sieve[k] && !(k % i as int == 0
                            && 2 * i <= k < j)),
                    forall|k: int|
                        2 <= k <= n ==> #[trigger] minfactor@[k] == (if least[k] == 0 && k
                            % i as int == 0 && 2 * i <= k < j {
                            i
                        } else {
                            least[k]
                        }),
                invariant
                    2 <= i,
                    2 * i <= j <= n,
                    j as int % i as int == 0,
                    isprime@.len() == n + 1,
                    minfactor@.len() == n + 1,
                    sieve.len() == n + 1,
                    least.len() == n + 1,
                    minfactor@[0] == 0,
                    minfactor@[1] == 1,
                ensures
                    forall|k: int|
                        2 <= k <= n ==> #[trigger] isprime@[k] == (sieve[k] && !(k % i as int == 0
                            && 2 * i <= k)),
                    forall|k: int|
                        2 <= k <= n ==> #[trigger] minfactor@[k] == (if least[k] == 0 && k
                            % i as int == 0 && 2 * i <= k {
                            i
                        } else {
                            least[k]
                        }),
                    isprime@.len() == n + 1,
                    minfactor@.len() == n + 1,
                    minfactor@[0] == 0,
                    minfactor@[1] == 1,
                decreases n - j,
            {
                isprime[j] = false;
                if minfactor[j] == 0 {
                    minfactor[j] = i;
                }
                proof {
                    assert forall|k: int| j < k < j + i && 1 <= k <= n implies #[trigger] (k
                        % i as int) != 0 by {
                        if k % i as int == 0 {
                            lemma_divides_combination(i as int, k, j as int, -1);
                            lemma_small_mod((k - j) as nat, i as nat);
                        }
                    }
                }
                if j > n - i {
                    break ;
                }
                proof {
                    lemma_divides_combination(i as int, j as int, i as int, 1);
                }
                j += i;
            }
        }
        proof {
            lemma_divides_product(i as int, 1);
            assert forall|k: int| 2 <= k <= n implies #[trigger] isprime@[k] == no_factor_below(
                k,
                i + 1,
            ) by {
                assert(sieve[k] == no_factor_below(k, i as int));
                if i < k && k % i as int == 0 {
                    lemma_proper_multiple(k, i as int);
                }
                if no_factor_below(k, i as int) && !(i < k && k % i as int == 0) {
                    assert forall|e: int| 2 <= e < i + 1 && e < k implies #[trigger] (k % e)
                        != 0 by {}
                }
            }
            assert forall|k: int| 2 <= k <= n && #[trigger] minfactor@[k] != 0 implies is_least_factor(
                minfactor@[k] as int,
                k,
            ) by {
                if k == i {
                    assert(sieve[k] == no_factor_below(k, i as int));
                } else if least[k] == 0 {
                    assert(no_factor_below(k, i as int));
                } else {
                    assert(least[k] != 0);
                }
            }
            assert forall|k: int| 2 <= k <= n && #[trigger] minfactor@[k] == 0 implies k >= i + 1
                && no_factor_below(k, i + 1) by {
                assert(least[k] == 0);
                if i < k && k % i as int == 0 {
                    lemma_proper_multiple(k, i as int);
                }
                assert forall|e: int| 2 <= e < i + 1 && e < k implies #[trigger] (k % e) != 0 by {}
            }
        }
        i += 1;
    }
    proof {
        assert forall|k: int| 2 <= k <= n implies is_least_factor(
            #[trigger] minfactor@[k] as int,
            k,
        ) by {
            if minfactor@[k] == 0 {
                assert(k >= i);
            }
        }
    }
    minfactor
}

/// The product of the powers `p^e` over the pairs `(p, e)` of `f`.
pub open spec fn product_of(f: Seq<(usize, usize)>) -> int
    decreases f.len(),
{
    if f.len() == 0 {
        1
    } else {
        product_of(f.drop_last()) * pow(f.last().0 as int, f.last().1 as nat)
    }
}

/// `f` is a factorization into primes: the bases are primes in rising order
/// and the exponents are positive.
pub open spec fn is_prime_factorization(f: Seq<(usize, usize)>) -> bool {
    &&& forall|t: int|
        0 <= t < f.len() ==> 2 <= (#[trigger] f[t]).0 && f[t].1 >= 1 && has_no_proper_factor(
            f[t].0 as int,
        )
    &&& forall|s: int, t: int| 0 <= s < t < f.len() ==> (#[trigger] f[s]).0 < (#[trigger] f[t]).0
}

/// Taking one factor `i` out of `m` into the power of `i`.
proof fn lemma_take_factor(m: int, i: int, e: nat)
    requires
        m >= 1,
        i >= 2,
        m % i == 0,
    ensures
        1 <= m / i < m,
        (m / i) * pow(i, e + 1) == m * pow(i, e),
        divides(m / i, m),
{
    lemma_divides_quotient(i, m);
    lemma_cofactor(i, m);
    lemma_pow_adds(i, 1, e);
    lemma_pow1(i);
    let q = m / i;
    let p = pow(i, e);
    assert(q * (i * p) == (i * q) * p) by (nonlinear_arith);
    assert(q < m) by (nonlinear_arith)
        requires
            m == i * q,
            i >= 2,
            q >= 1,
    ;
}

/// One more pair at the end multiplies the product by its power.
proof fn lemma_product_push(f: Seq<(usize, usize)>, p: usize, e: usize)
    ensures
        product_of(f.push((p, e))) == product_of(f) * pow(p as int, e as nat),
{
    assert(f.push((p, e)).drop_last() =~= f);
}

/// The factorization of `n` into primes, by trial division: the primes
/// that divide `n`, in rising order, each with its exponent. It is empty
/// for 0 and for 1.
pub fn factorize(n: usize) -> (ret: Vec<(usize, usize)>)
    ensures
        n >= 1 ==> product_of(ret@) == n,
        n == 0 ==> ret@.len() == 0,
        is_prime_factorization(ret@),
        forall|t: int| 0 <= t < ret@.len() ==> (#[trigger] ret@[t]).0 <= n,
{
    let mut ret: Vec<(usize, usize)> = Vec::new();
    let mut m: usize = n;
    let mut i: usize = 2;
    while i <= n && i <= n / i
        invariant
            2 <= i,
            i <= n + 1 || i == 2,
            m <= n,
            n >= 1 ==> m >= 1 && m * product_of(ret@) == n,
            n == 0 ==> ret@.len() == 0,
            forall|d: int| 2 <= d < i ==> #[trigger] (m as int % d) != 0,
            is_prime_factorization(ret@),
            forall|t: int| 0 <= t < ret@.len() ==> (#[trigger] ret@[t]).0 < i,
        decreases n + 1 - i,
    {
        proof {
            lemma_square_within(n as int, i as int);
            lemma_root_below(n as int, i as int);
            lemma_pow0(i as int);
        }
        let ghost start = m;
        let mut exp: usize = 0;
        while m % i == 0
            invariant
                i >= 2,
                1 <= m <= start,
                exp + m <= start,
                m * pow(i as int, exp as nat) == start,
                exp == 0 ==> m == start,
                exp > 0 ==> start as int % i as int == 0,
                forall|d: int| 2 <= d < i ==> #[trigger] (m as int % d) != 0,
            decreases m,
        {
            proof {
                lemma_take_factor(m as int, i as int, exp as nat);
                assert forall|d: int| 2 <= d < i implies #[trigger] ((m as int / i as int) % d)
                    != 0 by {
                    if (m as int / i as int) % d == 0 {
                        lemma_divides_transitive(d, m as int / i as int, m as int);
                    }
                }
            }
            exp += 1;
            m /= i;
        }
        if 0 < exp {
            proof {
                lemma_product_push(ret@, i, exp);
                let before = product_of(ret@);
                let power = pow(i as int, exp as nat);
                assert(m * (before * power) == (m * power) * before) by (nonlinear_arith);
                assert forall|d: int| 2 <= d < i implies #[trigger] (i as int % d) != 0 by {
                    if i as int % d == 0 {
                        lemma_divides_transitive(d, i as int, start as int);
                    }
                }
            }
            ret.push((i, exp));
        }
        i += 1;
    }
    if 2 <= m {
        proof {
            lemma_product_push(ret@, m, 1);
            lemma_pow1(m as int);
            let before = product_of(ret@);
            assert(before * m == m * before) by (nonlinear_arith);
            if m < i {
                assert(m as int % m as int == 0) by {
                    lemma_divides_product(m as int, 1);
                }
            }
            if i <= n {
                lemma_div_is_ordered(m as int, n as int, i as int);
                lemma_no_factor_beyond_root(m as int, i as int);
            }
        }
        ret.push((m, 1));
    } else {
        proof {
            if n >= 1 {
                let product = product_of(ret@);
                assert(product == n) by (nonlinear_arith)
                    requires
                        m == 1,
                        m * product == n,
                ;
            }
        }
    }
    ret
}

/// `table` gives for each number from 2 up to `n` its least prime factor,
/// and 1 for 1.
pub open spec fn is_minfactor_table(table: Seq<usize>, n: int) -> bool {
    &&& table.len() > n
    &&& n >= 1 ==> table[1] == 1
    &&& forall|k: int| 2 <= k <= n ==> is_least_factor(#[trigger] table[k] as int, k)
}

/// The factorization of `n` into primes, read from a table of least prime
/// factors: the primes that divide `n`, in rising order, each with its
/// exponent. It is empty for 0 and for 1.
pub fn factorize_by_minfactor(n: usize, minfactor: &[usize]) -> (ret: Vec<(usize, usize)>)
    requires
        is_minfactor_table(minfactor@, n as int),
    ensures
        n >= 1 ==> product_of(ret@) == n,
        n == 0 ==> ret@.len() == 0,
        is_prime_factorization(ret@),
        forall|t: int| 0 <= t < ret@.len() ==> (#[trigger] ret@[t]).0 <= n,
{
    let mut ret: Vec<(usize, usize)> = Vec::new();
    let mut m: usize = n;
    while m > 1
        invariant
            m <= n,
            is_minfactor_table(minfactor@, n as int),
            n >= 1 ==> m >= 1 && m * product_of(ret@) == n,
            n == 0 ==> ret@.len() == 0 && m == 0,
            is_prime_factorization(ret@),
            forall|t: int| 0 <= t < ret@.len() ==> (#[trigger] ret@[t]).0 <= n,
            forall|t: int|
                0 <= t < ret@.len() && m >= 2 ==> (#[trigger] ret@[t]).0 < minfactor@[m as int],
        decreases m,
    {
        let p = minfactor[m];
        let ghost start = m;
        let mut exp: usize = 0;
        proof {
            lemma_pow0(p as int);
            lemma_least_factor_prime(p as int, m as int);
        }
        while minfactor[m] == p
            invariant
                p >= 2,
                1 <= m <= start <= n,
                exp + m <= start,
                is_minfactor_table(minfactor@, n as int),
                m * pow(p as int, exp as nat) == start,
                exp == 0 ==> m == start && minfactor@[m as int] == p,
                m >= 2 ==> minfactor@[m as int] >= p,
            decreases m,
        {
            proof {
                assert(m >= 2);
                lemma_take_factor(m as int, p as int, exp as nat);
                let q = m as int / p as int;
                if q >= 2 {
                    let least = minfactor@[q] as int;
                    lemma_divides_transitive(least, q, m as int);
                    if least < p {
                        assert(m as int % least != 0);
                    }
                }
            }
            exp += 1;
            m /= p;
        }
        proof {
            lemma_product_push(ret@, p, exp);
            let before = product_of(ret@);
            let power = pow(p as int, exp as nat);
            assert(m * (before * power) == (m * power) * before) by (nonlinear_arith);
        }
        ret.push((p, exp));
    }
    proof {
        if n >= 1 {
            let product = product_of(ret@);
            assert(product == n) by (nonlinear_arith)
                requires
                    m == 1,
                    m * product == n,
            ;
        }
    }
    ret
}

/// The remainder of `x` by the positive `m`, from 0 to `m - 1`.
fn rem_euclid(x: isize, m: isize) -> (r: isize)
    requires
        m > 0,
    ensures
        r == x as int % m as int,
        0 <= r < m,
{
    match x.checked_rem_euclid(m) {
        Some(r) => r,
        None => 0,
    }
}

/// One step of square and multiply.
proof fn lemma_pow_mod_step(ans: int, base: int, exp: nat, m: int)
    requires
        m > 0,
        exp > 0,
    ensures
        exp % 2 == 1 ==> (((ans * base) % m) * pow((base * base) % m, exp / 2)) % m == (ans * pow(
            base,
            exp,
        )) % m,
        exp % 2 == 0 ==> (ans * pow((base * base) % m, exp / 2)) % m == (ans * pow(base, exp)) % m,
{
    let half = exp / 2;
    let sq = base * base;
    lemma_square_is_pow2(base);
    lemma_pow_multiplies(base, 2, half);
    lemma_pow_mod_noop(sq, half, m);
    let ps = pow(sq, half);
    let pr = pow(sq % m, half);
    assert(pr % m == ps % m);
    if exp % 2 == 1 {
        assert(exp == 1 + 2 * half);
        lemma_pow_adds(base, 1, 2 * half);
        lemma_pow1(base);
        assert(pow(base, exp) == base * ps);
        lemma_mul_mod_noop_general(ans * base, pr, m);
        lemma_mul_mod_noop_general(ans * base, ps, m);
        assert((ans * base) * ps == ans * (base * ps)) by (nonlinear_arith);
    } else {
        assert(exp == 2 * half);
        lemma_mul_mod_noop_general(ans, pr, m);
        lemma_mul_mod_noop_general(ans, ps, m);
    }
}

/// `base` to the power `exp`, modulo `modulus`, by square and multiply; 1
/// where `exp` is 0.
pub fn pow_mod(base: isize, exp: usize, modulus: usize) -> (r: usize)
    requires
        1 <= modulus,
        (modulus - 1) * (modulus - 1) <= isize::MAX,
        base * base <= isize::MAX,
    ensures
        exp == 0 ==> r == 1,
        exp > 0 ==> r == pow(base as int, exp as nat) % (modulus as int),
{
    proof {
        assert(modulus <= isize::MAX) by (nonlinear_arith)
            requires
                1 <= modulus,
                (modulus - 1) * (modulus - 1) <= isize::MAX,
        ;
    }
    let m: isize = modulus as isize;
    let ghost base0 = base as int;
    let ghost exp0 = exp as nat;
    let mut base: isize = base;
    let mut exp: usize = exp;
    let mut ans: isize = 1;
    while exp > 0
        invariant
            m == modulus,
            1 <= m,
            (m - 1) * (m - 1) <= isize::MAX,
            base * base <= isize::MAX,
            exp <= exp0,
            exp == exp0 ==> ans == 1 && base == base0,
            exp < exp0 ==> 0 <= base < m,
            ans == 1 || 0 <= ans < m,
            exp == 0 && exp0 > 0 ==> 0 <= ans < m,
            exp0 > 0 ==> (ans * pow(base as int, exp as nat)) % (m as int) == pow(base0, exp0) % (
            m as int),
        decreases exp,
    {
        proof {
            lemma_pow_mod_step(ans as int, base as int, exp as nat, m as int);
            assert(0 <= base * base) by (nonlinear_arith);
            if exp < exp0 && ans != 1 {
                assert(0 <= ans * base <= isize::MAX) by (nonlinear_arith)
                    requires
                        0 <= ans < m,
                        0 <= base < m,
                        (m - 1) * (m - 1) <= isize::MAX,
                ;
            }
        }
        if exp % 2 == 1 {
            ans = ans * base;
            ans = rem_euclid(ans, m);
        }
        base = base * base;
        base = rem_euclid(base, m);
        exp = exp / 2;
        proof {
            assert(base * base <= isize::MAX) by (nonlinear_arith)
                requires
                    0 <= base < m,
                    (m - 1) * (m - 1) <= isize::MAX,
            ;
        }
    }
    proof {
        if exp0 > 0 {
            lemma_pow0(base as int);
            lemma_small_mod(ans as nat, m as nat);
        }
    }
    ans as usize
}

/// The digits of `x` in base `n`, the most significant first; none for 0.
pub open spec fn digits_of(x: nat, n: nat) -> Seq<u64>
    decreases x,
{
    if x == 0 || n < 2 {
        Seq::empty()
    } else {
        proof {
            lemma_div_decreases(x as int, n as int);
        }
        digits_of(x / n, n).push((x % n) as u64)
    }
}

/// The digits of `x` in base `n`, the least significant first.
pub open spec fn low_digits(x: nat, n: nat) -> Seq<u64>
    decreases x,
{
    if x == 0 || n < 2 {
        Seq::empty()
    } else {
        proof {
            lemma_div_decreases(x as int, n as int);
        }
        seq![(x % n) as u64] + low_digits(x / n, n)
    }
}

/// The digits from the most significant on are the digits from the least
/// significant on, read backwards.
pub proof fn lemma_low_digits(x: nat, n: nat)
    ensures
        digits_of(x, n) == low_digits(x, n).reverse(),
        digits_of(x, n).len() == low_digits(x, n).len(),
    decreases x,
{
    if x == 0 || n < 2 {
        assert(low_digits(x, n).reverse() =~= Seq::<u64>::empty());
    } else {
        lemma_div_decreases(x as int, n as int);
        lemma_low_digits(x / n, n);
        let rest = low_digits(x / n, n);
        let low = low_digits(x, n);
        assert(low.len() == rest.len() + 1);
        assert forall|i: int| 0 <= i < low.len() implies digits_of(x, n)[i] == low.reverse()[i] by {
            if i < rest.len() {
                assert(low[low.len() - 1 - i] == rest[rest.len() - 1 - i]);
                assert(rest.reverse()[i] == rest[rest.len() - 1 - i]);
            }
        }
        assert(digits_of(x, n) =~= low.reverse());
    }
}

/// The digits of a value are digits: each is below the base.
pub proof fn lemma_digits_below_base(x: nat, n: nat, i: int)
    requires
        n >= 2,
        0 <= i < digits_of(x, n).len(),
    ensures
        digits_of(x, n)[i] < n,
    decreases x,
{
    if x != 0 {
        lemma_div_decreases(x as int, n as int);
        if i < digits_of(x / n, n).len() {
            lemma_digits_below_base(x / n, n, i);
        }
    }
}

/// `v` read backwards.
fn reversed(v: Vec<u64>) -> (r: Vec<u64>)
    ensures
        r@ == v@.reverse(),
{
    let mut r: Vec<u64> = Vec::new();
    let mut i: usize = v.len();
    while i > 0
        invariant
            i <= v@.len(),
            r@.len() == v@.len() - i,
            forall|k: int| 0 <= k < r@.len() ==> r@[k] == v@[v@.len() - 1 - k],
        decreases i,
    {
        i -= 1;
        r.push(v[i]);
    }
    proof {
        assert(r@ =~= v@.reverse());
    }
    r
}

/// The value of the decimal digit `c`, if it is one.
pub open spec fn decimal_digit(c: char) -> Option<nat> {
    if '0' <= c <= '9' {
        Some((c as u32 - '0' as u32) as nat)
    } else {
        None
    }
}

/// The number that `s` is the decimal notation of, if it is one; 0 for the
/// empty sequence.
pub open spec fn decimal_value(s: Seq<char>) -> Option<nat>
    decreases s.len(),
{
    if s.len() == 0 {
        Some(0)
    } else {
        match (decimal_value(s.drop_last()), decimal_digit(s.last())) {
            (Some(v), Some(d)) => Some(10 * v + d),
            _ => None,
        }
    }
}

/// The number that `s` is the decimal notation of, if it is one that fits
/// a `usize`.
pub open spec fn decimal_usize(s: Seq<char>) -> Option<nat> {
    match decimal_value(s) {
        Some(v) => if v <= usize::MAX {
            Some(v)
        } else {
            None
        },
        None => None,
    }
}

/// A prefix of a decimal notation is one too, of a number that is not
/// larger.
proof fn lemma_decimal_prefix(s: Seq<char>, k: int)
    requires
        0 <= k <= s.len(),
        decimal_value(s) is Some,
    ensures
        decimal_value(s.take(k)) is Some,
        decimal_value(s.take(k))->0 <= decimal_value(s)->0,
    decreases s.len(),
{
    if k == s.len() {
        assert(s.take(k) =~= s);
    } else {
        assert(s.drop_last().take(k) =~= s.take(k));
        lemma_decimal_prefix(s.drop_last(), k);
    }
}

/// A value that can be written in any base.
pub trait NRadixFrom {
    /// The number that `self` stands for, where it stands for one.
    spec fn number(&self) -> Option<nat>;

    /// The digits of the number in base `n`, the most significant first;
    /// none for 0.
    fn n_radix_from(&self, n: u64) -> (digits: Vec<u64>)
        requires
            n >= 2,
            self.number() is Some,
        ensures
            digits@ == digits_of(self.number()->0, n as nat),
    ;
}

impl NRadixFrom for u64 {
    open spec fn number(&self) -> Option<nat> {
        Some(*self as nat)
    }

    fn n_radix_from(&self, n: u64) -> (digits: Vec<u64>) {
        let mut ret: Vec<u64> = Vec::new();
        let mut x: u64 = *self;
        while 0 < x
            invariant
                n >= 2,
                ret@ + low_digits(x as nat, n as nat) == low_digits(*self as nat, n as nat),
            decreases x,
        {
            let t = x % n;
            proof {
                assert(ret@.push(t) + low_digits((x / n) as nat, n as nat) =~= ret@ + low_digits(
                    x as nat,
                    n as nat,
                ));
            }
            ret.push(t);
            x /= n;
        }
        proof {
            assert(ret@ =~= low_digits(*self as nat, n as nat));
            lemma_low_digits(*self as nat, n as nat);
        }
        reversed(ret)
    }
}

impl NRadixFrom for u128 {
    open spec fn number(&self) -> Option<nat> {
        Some(*self as nat)
    }

    fn n_radix_from(&self, n: u64) -> (digits: Vec<u64>) {
        let base: u128 = n as u128;
        let mut ret: Vec<u64> = Vec::new();
        let mut x: u128 = *self;
        while 0 < x
            invariant
                n >= 2,
                base == n,
                ret@ + low_digits(x as nat, n as nat) == low_digits(*self as nat, n as nat),
            decreases x,
        {
            let t = x % base;
            proof {
                assert(ret@.push(t as u64) + low_digits((x / base) as nat, n as nat) =~= ret@
                    + low_digits(x as nat, n as nat));
            }
            ret.push(t as u64);
            x /= base;
        }
        proof {
            assert(ret@ =~= low_digits(*self as nat, n as nat));
            lemma_low_digits(*self as nat, n as nat);
        }
        reversed(ret)
    }
}

impl NRadixFrom for usize {
    open spec fn number(&self) -> Option<nat> {
        Some(*self as nat)
    }

    fn n_radix_from(&self, n: u64) -> (digits: Vec<u64>) {
        let x: u64 = *self as u64;
        x.n_radix_from(n)
    }
}

impl NRadixFrom for u8 {
    open spec fn number(&self) -> Option<nat> {
        Some(*self as nat)
    }

    fn n_radix_from(&self, n: u64) -> (digits: Vec<u64>) {
        let x: usize = *self as usize;
        x.n_radix_from(n)
    }
}

impl NRadixFrom for u16 {
    open spec fn number(&self) -> Option<nat> {
        Some(*self as nat)
    }

    fn n_radix_from(&self, n: u64) -> (digits: Vec<u64>) {
        let x: usize = *self as usize;
        x.n_radix_from(n)
    }
}

impl NRadixFrom for u32 {
    open spec fn number(&self) -> Option<nat> {
        Some(*self as nat)
    }

    fn n_radix_from(&self, n: u64) -> (digits: Vec<u64>) {
        let x: usize = *self as usize;
        x.n_radix_from(n)
    }
}

impl NRadixFrom for [char] {
    open spec fn number(&self) -> Option<nat> {
        decimal_usize(self@)
    }

    fn n_radix_from(&self, n: u64) -> (digits: Vec<u64>) {
        let mut a: usize = 0;
        let mut i: usize = 0;
        while i < self.len()
            invariant
                i <= self@.len(),
                decimal_usize(self@) is Some,
                decimal_value(self@.take(i as int)) == Some(a as nat),
            decreases self@.len() - i,
        {
            proof {
                lemma_decimal_prefix(self@, i + 1);
                assert(self@.take(i + 1).drop_last() =~= self@.take(i as int));
            }
            let c = self[i];
            a = a * 10;
            a = a + (c as u32 - '0' as u32) as usize;
            i += 1;
        }
        proof {
            assert(self@.take(i as int) =~= self@);
        }
        a.n_radix_from(n)
    }
}

impl NRadixFrom for &str {
    open spec fn number(&self) -> Option<nat> {
        decimal_usize(self@)
    }

    fn n_radix_from(&self, n: u64) -> (digits: Vec<u64>) {
        let mut a: usize = 0;
        for c in it: self.chars()
            invariant
                it.seq() == self@,
                decimal_usize(self@) is Some,
                decimal_value(self@.take(it.index() as int)) == Some(a as nat),
        {
            proof {
                lemma_decimal_prefix(self@, it.index() + 1);
                assert(self@.take(it.index() + 1).drop_last() =~= self@.take(it.index() as int));
            }
            a = a * 10;
            a = a + (c as u32 - '0' as u32) as usize;
        }
        proof {
            assert(self@.take(self@.len() as int) =~= self@);
        }
        a.n_radix_from(n)
    }
}

impl NRadixFrom for String {
    open spec fn number(&self) -> Option<nat> {
        decimal_usize(self@)
    }

    fn n_radix_from(&self, n: u64) -> (digits: Vec<u64>) {
        self.as_str().n_radix_from(n)
    }
}

/// The size of `x` without its sign.
pub open spec fn size_of(x: int) -> int {
    if x < 0 {
        -x
    } else {
        x
    }
}

/// The quotient of `x` by the positive `m`, rounded down.
fn div_euclid(x: isize, m: isize) -> (q: isize)
    requires
        m > 0,
    ensures
        q == x as int / m as int,
{
    proof {
        lemma_fundamental_div_mod(x as int, m as int);
        let q = x as int / m as int;
        let r = x as int % m as int;
        assert(isize::MIN <= q <= isize::MAX) by (nonlinear_arith)
            requires
                x == m * q + r,
                0 <= r < m,
                m >= 1,
                isize::MIN <= x <= isize::MAX,
        ;
    }
    match x.checked_div_euclid(m) {
        Some(q) => q,
        None => 0,
    }
}

/// One step of Euclid's algorithm with the factors carried along keeps the
/// factors small.
proof fn lemma_modinv_step(a: int, b: int, u: int, v: int, m: int)
    requires
        b > 0,
        v == 0 || a >= 0,
        size_of(u) * b + size_of(v) * size_of(a) <= m,
    ensures
        size_of(v) * (a % b) + size_of(u - (a / b) * v) * b <= m,
        size_of((a / b) * v) <= m,
        size_of(u - (a / b) * v) <= m,
        size_of(u) <= m,
        size_of(v) <= m || a == 0,
{
    let t = a / b;
    let r = a % b;
    lemma_fundamental_div_mod(a, b);
    let su = size_of(u);
    let sv = size_of(v);
    let w = size_of(u - t * v);
    if v == 0 {
        assert(t * v == 0) by (nonlinear_arith)
            requires
                v == 0,
        ;
        assert(sv * r == 0) by (nonlinear_arith)
            requires
                sv == 0,
        ;
        assert(su <= su * b) by (nonlinear_arith)
            requires
                su >= 0,
                b >= 1,
        ;
    } else {
        assert(t >= 0) by (nonlinear_arith)
            requires
                a == b * t + r,
                0 <= r < b,
                a >= 0,
        ;
        assert(size_of(t * v) == t * sv) by (nonlinear_arith)
            requires
                t >= 0,
                sv == v || sv == -v,
                sv >= 0,
                (size_of(t * v) == t * v && t * v >= 0) || (size_of(t * v) == -(t * v) && t * v
                    < 0),
        ;
        assert(w <= su + t * sv);
        assert(sv * r + w * b <= su * b + sv * a) by (nonlinear_arith)
            requires
                w <= su + t * sv,
                a == b * t + r,
                b > 0,
                sv >= 0,
                w >= 0,
        ;
        assert(t * sv <= sv * a) by (nonlinear_arith)
            requires
                a == b * t + r,
                0 <= r,
                b >= 1,
                t >= 0,
                sv >= 0,
        ;
        assert(su <= su * b && sv * r >= 0 && su * b >= 0) by (nonlinear_arith)
            requires
                su >= 0,
                sv >= 0,
                r >= 0,
                b >= 1,
        ;
        assert(w <= w * b) by (nonlinear_arith)
            requires
                w >= 0,
                b >= 1,
        ;
        assert(sv <= sv * a || a == 0) by (nonlinear_arith)
            requires
                sv >= 0,
                a >= 0,
        ;
    }
    assert(w <= w * b) by (nonlinear_arith)
        requires
            w >= 0,
            b >= 1,
    ;
}

/// The inverse of `a` modulo `m`, from 0 to `m - 1`, by Euclid's algorithm
/// with the factors carried along. It is an inverse where `a` and `m` have
/// no common divisor but 1.
pub fn modinv(a: isize, m: isize) -> (inverse: isize)
    requires
        m >= 1,
        a >= isize::MIN + m,
    ensures
        0 <= inverse < m,
        gcd_of((a as int % m as int) as nat, m as nat) == 1 ==> (a * inverse) % (m as int) == 1int
            % (m as int),
{
    let ghost a0 = a as int;
    let ghost goal = gcd_of(m as nat, (a as int % m as int) as nat);
    let mut a: isize = a;
    let mut b: isize = m;
    let mut u: isize = 1;
    let mut v: isize = 0;
    proof {
        assert(size_of(1) * m + size_of(0) * size_of(a0) == m) by (nonlinear_arith);
        lemma_divides_product(m as int, 0);
        assert(1 * a0 - a0 == m * 0) by (nonlinear_arith);
        lemma_divides_product(m as int, -1);
        assert((0 * a0 - m) == m * (-1)) by (nonlinear_arith);
    }
    while b > 0
        invariant
            m >= 1,
            a0 >= isize::MIN + m,
            b >= 0,
            goal == gcd_of(m as nat, (a0 % m as int) as nat),
            (a == a0 && b == m && u == 1 && v == 0) || (a > 0 && gcd_of(a as nat, b as nat)
                == goal),
            v == 0 || a >= 0,
            size_of(u as int) * b + size_of(v as int) * size_of(a as int) <= m,
            (u * a0 - a) % (m as int) == 0,
            (v * a0 - b) % (m as int) == 0,
        decreases b,
    {
        proof {
            lemma_modinv_step(a as int, b as int, u as int, v as int, m as int);
            lemma_fundamental_div_mod(a as int, b as int);
            let t = a as int / b as int;
            let r = a as int % b as int;
            if a != a0 || b != m {
                assert(0 <= b * t <= a) by (nonlinear_arith)
                    requires
                        a == b * t + r,
                        0 <= r < b,
                        a > 0,
                ;
            } else {
                lemma_fundamental_div_mod(a0, m as int);
            }
            assert(b * t == t * b) by (nonlinear_arith);
            lemma_divides_combination(
                m as int,
                u * a0 - a,
                v * a0 - b,
                -t,
            );
            assert((u * a0 - a) + (-t) * (v * a0 - b) == (u - t * v) * a0 - (a - t * b))
                by (nonlinear_arith);
        }
        let t = div_euclid(a, b);
        a = a - t * b;
        let rest = a;
        a = b;
        b = rest;
        u = u - t * v;
        let other = u;
        u = v;
        v = other;
    }
    proof {
        if gcd_of((a0 % m as int) as nat, m as nat) == 1 {
            lemma_small_mod((a0 % m as int) as nat, m as nat);
            assert(goal == 1);
            assert(a == 1);
            lemma_divides_combination(m as int, u * a0 - 1, m as int, 0);
            lemma_mul_mod_noop_general(u as int, a0, m as int);
            lemma_mul_mod_noop_general(a0, u as int, m as int);
            lemma_mod_one_more(u * a0, m as int);
            assert(u * a0 == a0 * u) by (nonlinear_arith);
            assert((u as int % m as int) * a0 == a0 * (u as int % m as int)) by (nonlinear_arith);
        }
    }
    rem_euclid(u, m)
}

/// A number that is one more than a multiple of `m` has the remainder of 1.
proof fn lemma_mod_one_more(x: int, m: int)
    requires
        m >= 1,
        (x - 1) % m == 0,
    ensures
        x % m == 1int % m,
{
    lemma_fundamental_div_mod(x - 1, m);
    let q = (x - 1) / m;
    vstd::arithmetic::div_mod::lemma_mod_multiples_vanish(q, 1, m);
    assert(m * q + 1 == x);
}

} // verus!
