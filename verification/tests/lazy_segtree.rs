use algolib::data_structure::lazy_segtree::{
    ForLazySegtree, LazySegtree, RangeAddRangeSum, Section, Sum64, SumOfSection,
};
use algolib::traits::Monoid;

fn leaf(value: u64) -> Section {
    Section { sum: value, len: 1 }
}

fn tree_of(values: &[u64]) -> LazySegtree<RangeAddRangeSum> {
    let leaves: Vec<Section> = values.iter().map(|&v| leaf(v)).collect();
    let mut tree = LazySegtree::<RangeAddRangeSum>::new(values.len());
    tree.build(&leaves);
    tree
}

fn check_all_folds(tree: &mut LazySegtree<RangeAddRangeSum>, values: &[u64]) {
    for l in 0..values.len() {
        for r in l..=values.len() {
            let expected: u64 = values[l..r].iter().sum();
            let got = tree.fold(l..r);
            assert_eq!(got.sum, expected);
            assert_eq!(got.len, (r - l) as u64);
        }
    }
}

#[test]
fn lazy_range_add_scenario() {
    let mut tree = tree_of(&[0, 0, 0, 0]);
    tree.apply_range(0..2, 5);
    assert_eq!(tree.fold(0..4).sum, 10);
    tree.apply_range(1..3, 1);
    assert_eq!(tree.fold(0..4).sum, 12);
    assert_eq!(tree.fold(1..2).sum, 6);
}

#[test]
fn lazy_new_holds_identity() {
    let mut tree = LazySegtree::<RangeAddRangeSum>::new(5);
    assert_eq!(tree.fold(..), Section { sum: 0, len: 0 });
    tree.apply_range(.., 9);
    assert_eq!(tree.fold(..), Section { sum: 0, len: 0 });
}

#[test]
fn lazy_overlapping_applies_match_array() {
    let mut values: Vec<u64> = vec![3, 1, 4, 1, 5, 9, 2];
    let n = values.len();
    let mut tree = tree_of(&values);
    check_all_folds(&mut tree, &values);
    for step in 0..40usize {
        let l = (step * 5 + 1) % n;
        let r = l + (step * 3) % (n - l + 1);
        let add = (step as u64) * 7 + 1;
        tree.apply_range(l..r, add);
        for v in values[l..r].iter_mut() {
            *v += add;
        }
        check_all_folds(&mut tree, &values);
    }
}

#[test]
fn lazy_update_after_apply() {
    let mut values: Vec<u64> = vec![1, 2, 3, 4, 5, 6];
    let mut tree = tree_of(&values);
    tree.apply_range(1..5, 10);
    for v in values[1..5].iter_mut() {
        *v += 10;
    }
    tree.update(2, leaf(100));
    values[2] = 100;
    check_all_folds(&mut tree, &values);
    tree.apply_range(..=2, 1);
    for v in values[..=2].iter_mut() {
        *v += 1;
    }
    tree.update(0, leaf(0));
    values[0] = 0;
    check_all_folds(&mut tree, &values);
}

#[test]
fn lazy_build_keeps_other_values() {
    let mut values: Vec<u64> = vec![1, 2, 3, 4, 5];
    let mut tree = tree_of(&values);
    tree.apply_range(.., 10);
    tree.build(&[leaf(7), leaf(8)]);
    values = vec![7, 8, 13, 14, 15];
    check_all_folds(&mut tree, &values);
}

#[test]
fn lazy_max_right_and_min_left_match_scan() {
    for n in 1..=9usize {
        let mut values: Vec<u64> = (0..n).map(|i| ((i * 5 + 2) % 7) as u64).collect();
        let mut tree = tree_of(&values);
        let l0 = n / 3;
        let r0 = n - n / 4;
        tree.apply_range(l0..r0, 3);
        for v in values[l0..r0].iter_mut() {
            *v += 3;
        }
        for l in 0..=n {
            for limit in 0..40u64 {
                let mut expected = l;
                let mut sum = 0;
                while expected < n && sum + values[expected] <= limit {
                    sum += values[expected];
                    expected += 1;
                }
                assert_eq!(tree.max_right(l, |v: &Section| v.sum <= limit), expected);
            }
        }
        for r in 0..=n {
            for limit in 0..40u64 {
                let mut expected = r;
                let mut sum = 0;
                while expected > 0 && sum + values[expected - 1] <= limit {
                    sum += values[expected - 1];
                    expected -= 1;
                }
                assert_eq!(tree.min_left(r, |v: &Section| v.sum <= limit), expected);
            }
        }
        check_all_folds(&mut tree, &values);
    }
}

#[test]
fn lazy_pending_update_is_seen_by_search() {
    let mut tree = tree_of(&[0, 0, 0, 0]);
    tree.apply_range(0..1, 5);
    assert_eq!(tree.max_right(0, |v: &Section| v.sum <= 3), 0);
    assert_eq!(tree.min_left(1, |v: &Section| v.sum <= 3), 1);
}

#[test]
fn action_laws_on_samples() {
    let updates: [u64; 4] = [0, 1, 9, u64::MAX];
    let sections = [
        Section { sum: 0, len: 0 },
        Section { sum: 5, len: 1 },
        Section { sum: u64::MAX, len: 3 },
    ];
    for &a in &sections {
        assert_eq!(RangeAddRangeSum::mapping(&a, &Sum64::e()), a);
        for &f in &updates {
            for &g in &updates {
                let twice = RangeAddRangeSum::mapping(&RangeAddRangeSum::mapping(&a, &f), &g);
                let once = RangeAddRangeSum::mapping(&a, &Sum64::op(&f, &g));
                assert_eq!(twice, once);
            }
            for &b in &sections {
                let whole = RangeAddRangeSum::mapping(&SumOfSection::op(&a, &b), &f);
                let parts = SumOfSection::op(
                    &RangeAddRangeSum::mapping(&a, &f),
                    &RangeAddRangeSum::mapping(&b, &f),
                );
                assert_eq!(whole, parts);
            }
        }
    }
    assert_eq!(
        RangeAddRangeSum::mapping(&Section { sum: 1, len: 4 }, &3),
        Section { sum: 13, len: 4 }
    );
}
