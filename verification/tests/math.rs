use algolib::math::{
    divisors_num, divisors_num_range, eratostenes_thive, factorize, factorize_by_minfactor, gcd,
    get_divisors, get_minfactor, is_prime, lcm, modinv, pow_mod,
};

#[test]
fn gcd_and_lcm() {
    assert_eq!(gcd(12, 18), 6);
    assert_eq!(gcd(18, 12), 6);
    assert_eq!(gcd(0, 5), 5);
    assert_eq!(gcd(5, 0), 5);
    assert_eq!(gcd(0, 0), 0);
    assert_eq!(gcd(17, 5), 1);
    assert_eq!(lcm(4, 6), 12);
    assert_eq!(lcm(0, 6), 0);
    assert_eq!(lcm(7, 1), 7);
}

#[test]
fn primes() {
    let primes = [2usize, 3, 5, 7, 11, 13, 97, 7919];
    for p in primes {
        assert!(is_prime(p));
    }
    for c in [4usize, 6, 9, 15, 25, 49, 7917, 1_000_000] {
        assert!(!is_prime(c));
    }
    assert!(is_prime(0));
    assert!(is_prime(1));
    assert!(is_prime(usize::MAX) == (usize::MAX % 3 != 0 && usize::MAX % 5 != 0));
}

#[test]
fn listed_divisors() {
    assert_eq!(get_divisors(0), Vec::<usize>::new());
    assert_eq!(get_divisors(1), Vec::<usize>::new());
    assert_eq!(get_divisors(4), vec![1, 4, 2]);
    assert_eq!(get_divisors(8), vec![1, 8, 2, 4]);
    assert_eq!(get_divisors(9), vec![2, 4]);
    assert_eq!(get_divisors(10), vec![1, 10]);
}

#[test]
fn divisor_counts() {
    assert_eq!(divisors_num(0), 0);
    assert_eq!(divisors_num(1), 1);
    assert_eq!(divisors_num(12), 6);
    assert_eq!(divisors_num(16), 5);
    assert_eq!(divisors_num(97), 2);
    let table = divisors_num_range(20);
    assert_eq!(table.len(), 21);
    assert_eq!(table[0], 0);
    for j in 1..=20usize {
        assert_eq!(table[j], divisors_num(j));
    }
    assert_eq!(divisors_num_range(0), vec![0]);
}

#[test]
fn sieves() {
    let sieve = eratostenes_thive(50);
    assert_eq!(sieve.len(), 51);
    assert!(!sieve[0]);
    assert!(sieve[1]);
    for k in 2..=50usize {
        assert_eq!(sieve[k], is_prime(k));
    }
    assert_eq!(eratostenes_thive(1), vec![false, true]);
    let least = get_minfactor(50);
    assert_eq!(least[0], 0);
    assert_eq!(least[1], 1);
    for k in 2..=50usize {
        let p = (2..=k).find(|d| k % d == 0).unwrap();
        assert_eq!(least[k], p);
    }
    assert_eq!(get_minfactor(1), vec![0, 1]);
}

#[test]
fn factorizations() {
    assert_eq!(factorize(0), vec![]);
    assert_eq!(factorize(1), vec![]);
    assert_eq!(factorize(2), vec![(2, 1)]);
    assert_eq!(factorize(360), vec![(2, 3), (3, 2), (5, 1)]);
    assert_eq!(factorize(97), vec![(97, 1)]);
    assert_eq!(factorize(2 * 97), vec![(2, 1), (97, 1)]);
    let least = get_minfactor(400);
    for n in 0..=400usize {
        assert_eq!(factorize_by_minfactor(n, &least), factorize(n));
    }
}

#[test]
fn modular_powers() {
    assert_eq!(pow_mod(2, 10, 1000), 24);
    assert_eq!(pow_mod(2, 0, 1000), 1);
    assert_eq!(pow_mod(5, 0, 1), 1);
    assert_eq!(pow_mod(5, 3, 1), 0);
    assert_eq!(pow_mod(-2, 3, 7), 6);
    assert_eq!(pow_mod(3, 200, 1_000_000_007), {
        let mut r: u128 = 1;
        for _ in 0..200 {
            r = r * 3 % 1_000_000_007;
        }
        r as usize
    });
}

#[test]
fn modular_inverses() {
    assert_eq!(modinv(3, 7), 5);
    assert_eq!(modinv(1, 7), 1);
    assert_eq!(modinv(10, 7), 5);
    assert_eq!(modinv(-4, 7), 5);
    assert_eq!(modinv(5, 1), 0);
    assert_eq!(modinv(0, 1), 0);
    let m = 1_000_000_007isize;
    for a in [2isize, 12345, 999_999_999, -17] {
        let inverse = modinv(a, m);
        assert!(0 <= inverse && inverse < m);
        assert_eq!((a as i128 * inverse as i128).rem_euclid(m as i128), 1);
    }
}
