use algolib::algebra::ZobHshP;
use algolib::data_structure::swag::Swag;
use algolib::math::NRadixFrom;
use algolib::str_algo::rolling_hash::RollingHsh;
use algolib::traits::Monoid;
use algolib::utils::{is_good_bracket_str, is_palindrome, range_to_tuple};
use std::ops::Bound;

#[test]
fn lib_it_works() {}

#[test]
fn compressed_mapping_it_works() {}

#[test]
fn it_work() {}

#[test]
fn n_dim_acc_it_works() {}

#[test]
fn refcell() {}

#[test]
fn utils_it_works() {
    assert_eq!(is_palindrome(&[1, 2, 1]), true);
    assert_eq!(is_palindrome(&[1, 2, 3, 1]), false);
    assert_eq!(is_palindrome(&['a', 'b', 'a']), true);
}

#[test]
fn palindrome_edges() {
    let empty: [u8; 0] = [];
    assert!(is_palindrome(&empty));
    assert!(is_palindrome(&[7]));
    assert!(is_palindrome(&[1, 2, 2, 1]));
    assert!(!is_palindrome(&[1, 2]));
}

#[test]
fn bracket_strings() {
    let of = |s: &str| s.chars().collect::<Vec<char>>();
    assert!(is_good_bracket_str(&of("")));
    assert!(is_good_bracket_str(&of("()")));
    assert!(is_good_bracket_str(&of("(()())")));
    assert!(!is_good_bracket_str(&of("(")));
    assert!(!is_good_bracket_str(&of(")(")));
    assert!(!is_good_bracket_str(&of("())")));
    assert!(is_good_bracket_str(&of("(x")));
}

#[test]
fn range_notations() {
    assert_eq!(range_to_tuple(2..5, 9), (2, 5));
    assert_eq!(range_to_tuple(2..=5, 9), (2, 6));
    assert_eq!(range_to_tuple(2.., 9), (2, 9));
    assert_eq!(range_to_tuple(..5, 9), (0, 5));
    assert_eq!(range_to_tuple(..=5, 9), (0, 6));
    assert_eq!(range_to_tuple(.., 9), (0, 9));
}

#[test]
fn monoid_laws_on_samples() {
    let samples: [u128; 5] = [0, 1, 77, u128::MAX, u128::MAX / 2 + 3];
    for &a in &samples {
        assert_eq!(ZobHshP::op(&ZobHshP::e(), &a), a);
        assert_eq!(ZobHshP::op(&a, &ZobHshP::e()), a);
        for &b in &samples {
            for &c in &samples {
                let left = ZobHshP::op(&ZobHshP::op(&a, &b), &c);
                let right = ZobHshP::op(&a, &ZobHshP::op(&b, &c));
                assert_eq!(left, right);
            }
        }
    }
}

#[derive(Debug, Clone, Copy)]
struct Min {}

impl Monoid for Min {
    type S = usize;

    fn e_spec() -> usize {
        0
    }

    fn op_spec(left: usize, right: usize) -> usize {
        left.min(right)
    }

    fn e() -> usize {
        0
    }

    fn op(left: &usize, right: &usize) -> usize {
        left.min(right).clone()
    }

    fn associative(_a: usize, _b: usize, _c: usize) {}

    fn left_identity(_a: usize) {}

    fn right_identity(_a: usize) {}

    fn clone_exact(_a: usize, _b: usize) {}
}

#[test]
fn swag_it_works() {
    let mut swag = Swag::<Min>::new();
    let v = (0..6).collect::<Vec<usize>>();
    for &i in &v {
        swag.push_back(i);
        println!("{}", swag.fold());
    }
    println!();
    println!("POP");
    for _ in 0..6 {
        println!("{}", swag.pop_front().unwrap());
        println!("{}", swag.fold());
    }

    let mut swag = Swag::<Min>::new();
    let v = (0..6).collect::<Vec<usize>>();
    for i in v {
        swag.push_back(i);
    }
    assert_eq!(0, swag.fold());
    assert_eq!(Some(0), swag.pop_front());
    assert_eq!(1, swag.fold());
    assert_eq!(Some(1), swag.pop_front());
    assert_eq!(2, swag.fold());
}

#[test]
fn swag_sums() {
    let mut swag = Swag::<ZobHshP>::new();
    assert_eq!(swag.fold(), 0);
    assert_eq!(swag.pop_front(), None);
    for x in [5u128, 7, 11] {
        swag.push_back(x);
    }
    assert_eq!(swag.fold(), 23);
    assert_eq!(swag.pop_front(), Some(23));
    assert_eq!(swag.fold(), 18);
    swag.push_back(100);
    assert_eq!(swag.fold(), 118);
    assert_eq!(swag.pop_front(), Some(18));
    assert_eq!(swag.pop_front(), Some(11));
    assert_eq!(swag.pop_front(), Some(100));
    assert_eq!(swag.pop_front(), None);
    assert_eq!(Swag::<ZobHshP>::default().fold(), 0);
}

#[test]
fn from_str_radix() {
    let s = "101";
    assert_eq!(10, u8::from_str_radix(s, 3).unwrap());

    assert_eq!(vec![1, 0], 2usize.n_radix_from(2));

    let v = vec!['2'];
    assert_eq!(vec![1, 0], v.n_radix_from(2));

    assert_eq!(vec![1, 0], "2".n_radix_from(2));
}

#[test]
fn radix_of_every_kind() {
    assert_eq!(255u8.n_radix_from(16), vec![15, 15]);
    assert_eq!(1000u16.n_radix_from(10), vec![1, 0, 0, 0]);
    assert_eq!(7u32.n_radix_from(2), vec![1, 1, 1]);
    assert_eq!(0u64.n_radix_from(2), Vec::<u64>::new());
    assert_eq!(u64::MAX.n_radix_from(u64::MAX), vec![1, 0]);
    assert_eq!((1u128 << 64).n_radix_from(2).len(), 65);
    assert_eq!(String::from("12").n_radix_from(5), vec![2, 2]);
    assert_eq!("".n_radix_from(2), Vec::<u64>::new());
}

#[test]
fn rolling_hash_it_works() {
    let v = vec!['a', 'b', 'c', 'a', 'b', 'c'];
    let r = RollingHsh::new(&v);
    let a = r.get_hash(0..=2);
    let b = r.get_hash(3..=5);
    assert_eq!(a, b);
}

#[test]
fn rolling_hash_values() {
    let v = vec!['a', 'b', 'a'];
    let r = RollingHsh::with_base(&v, 10);
    assert_eq!(r.get_hash(0..0), 0);
    assert_eq!(r.get_hash(0..1), 97);
    assert_eq!(r.get_hash(0..2), 970 + 98);
    assert_eq!(r.get_hash(..), 9700 + 980 + 97);
    assert_eq!(r.get_hash(1..), 980 + 97);
    assert_eq!(r.get_hash(2..3), r.get_hash(0..1));
    let m: i128 = (1 << 61) - 1;
    let big = RollingHsh::with_base(&v, m - 2);
    assert_eq!(big.get_hash(0..2), ((97 * (m - 2)) % m + 98) % m);
    let drawn = RollingHsh::new(&v);
    let single = drawn.get_hash(0..1);
    let pair = drawn.get_hash(0..2);
    assert_eq!(single, 97);
    let base = (pair - 98 + m) % m * mod_inverse(97, m) % m;
    assert!(2 <= base && base < m - 2);
    assert_eq!(RollingHsh::with_base(&v, base).get_hash(..), drawn.get_hash(..));
}

fn mod_inverse(a: i128, m: i128) -> i128 {
    let mut result = 1i128;
    let mut base = a % m;
    let mut e = m - 2;
    while e > 0 {
        if e & 1 == 1 {
            result = result * base % m;
        }
        base = base * base % m;
        e >>= 1;
    }
    result
}

#[test]
fn range_as_a_pair_of_ends() {
    assert_eq!(range_to_tuple((Bound::Included(2), Bound::Excluded(5)), 9), (2, 5));
    assert_eq!(range_to_tuple((Bound::Excluded(2), Bound::Included(5)), 9), (3, 6));
    assert_eq!(range_to_tuple((Bound::Unbounded, Bound::Unbounded), 9), (0, 9));
    assert_eq!(range_to_tuple((Bound::Excluded(0), Bound::Unbounded), 4), (1, 4));
}
