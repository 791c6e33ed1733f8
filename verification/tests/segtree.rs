use algolib::algebra::ZobHshP;
use algolib::data_structure::segtree::Segtree;

fn sample() -> Segtree<ZobHshP> {
    let mut tree = Segtree::<ZobHshP>::new(5);
    tree.build(&[1, 2, 3, 4, 5]);
    tree
}

fn naive_max_right(values: &[u128], l: usize, limit: u128) -> usize {
    let mut r = l;
    let mut sum = 0u128;
    while r < values.len() && sum + values[r] <= limit {
        sum += values[r];
        r += 1;
    }
    r
}

fn naive_min_left(values: &[u128], r: usize, limit: u128) -> usize {
    let mut l = r;
    let mut sum = 0u128;
    while l > 0 && sum + values[l - 1] <= limit {
        sum += values[l - 1];
        l -= 1;
    }
    l
}

#[test]
fn segtree_sum_scenario() {
    let mut tree = sample();
    assert_eq!(tree.fold(1..4), 9);
    assert_eq!(tree.max_right(0, |v: &u128| *v <= 6), 3);
    tree.update(2, 10);
    assert_eq!(tree.fold(0..5), 22);
    assert_eq!(tree.max_right(0, |v: &u128| *v <= 6), 2);
}

#[test]
fn segtree_new_holds_identity() {
    let tree = Segtree::<ZobHshP>::new(6);
    for i in 0..6 {
        assert_eq!(*tree.get(i), 0);
    }
    assert_eq!(tree.fold(..), 0);
    assert_eq!(tree.fold(0..0), 0);
}

#[test]
fn segtree_build_prefix_only() {
    let mut tree = Segtree::<ZobHshP>::new(5);
    tree.build(&[7, 8]);
    assert_eq!(*tree.get(0), 7);
    assert_eq!(*tree.get(1), 8);
    assert_eq!(*tree.get(2), 0);
    assert_eq!(tree.fold(..), 15);
}

#[test]
fn segtree_fold_all_ranges() {
    let values: Vec<u128> = vec![3, 1, 4, 1, 5, 9, 2];
    let mut tree = Segtree::<ZobHshP>::new(values.len());
    tree.build(&values);
    for l in 0..values.len() {
        for r in l..=values.len() {
            let expected: u128 = values[l..r].iter().sum();
            assert_eq!(tree.fold(l..r), expected);
        }
    }
    assert_eq!(tree.fold(..), 25);
    assert_eq!(tree.fold(2..), 21);
    assert_eq!(tree.fold(..3), 8);
    assert_eq!(tree.fold(..=3), 9);
    assert_eq!(tree.fold(1..=2), 5);
}

#[test]
fn segtree_update_and_add() {
    let mut values: Vec<u128> = vec![3, 1, 4, 1, 5, 9, 2, 6, 5];
    let mut tree = Segtree::<ZobHshP>::new(values.len());
    tree.build(&values);
    for step in 0..20usize {
        let i = (step * 7 + 3) % values.len();
        if step % 2 == 0 {
            values[i] = (step as u128) * 11 + 1;
            tree.update(i, values[i]);
        } else {
            values[i] += step as u128;
            tree.add(i, step as u128);
        }
        assert_eq!(*tree.get(i), values[i]);
        for l in 0..values.len() {
            for r in l..=values.len() {
                let expected: u128 = values[l..r].iter().sum();
                assert_eq!(tree.fold(l..r), expected);
            }
        }
    }
}

#[test]
fn segtree_wrapping_sum() {
    let mut tree = Segtree::<ZobHshP>::new(2);
    tree.build(&[u128::MAX, 2]);
    assert_eq!(tree.fold(..), 1);
}

#[test]
fn segtree_max_right_matches_scan() {
    for n in 1..=9usize {
        let values: Vec<u128> = (0..n).map(|i| ((i * 5 + 2) % 7) as u128).collect();
        let mut tree = Segtree::<ZobHshP>::new(n);
        tree.build(&values);
        for l in 0..=n {
            for limit in 0..30u128 {
                let r = tree.max_right(l, |v: &u128| *v <= limit);
                assert_eq!(r, naive_max_right(&values, l, limit));
            }
        }
    }
}

#[test]
fn segtree_min_left_matches_scan() {
    for n in 1..=9usize {
        let values: Vec<u128> = (0..n).map(|i| ((i * 3 + 1) % 5) as u128).collect();
        let mut tree = Segtree::<ZobHshP>::new(n);
        tree.build(&values);
        for r in 0..=n {
            for limit in 0..20u128 {
                let l = tree.min_left(r, |v: &u128| *v <= limit);
                assert_eq!(l, naive_min_left(&values, r, limit));
            }
        }
    }
}

#[test]
fn segtree_search_edges() {
    let tree = sample();
    assert_eq!(tree.max_right(5, |v: &u128| *v <= 0), 5);
    assert_eq!(tree.max_right(0, |_v: &u128| true), 5);
    assert_eq!(tree.max_right(2, |v: &u128| *v == 0), 2);
    assert_eq!(tree.min_left(0, |v: &u128| *v <= 0), 0);
    assert_eq!(tree.min_left(5, |_v: &u128| true), 0);
    assert_eq!(tree.min_left(3, |v: &u128| *v == 0), 3);
    assert_eq!(tree.min_left(5, |v: &u128| *v <= 9), 3);
}

#[test]
fn segtree_after_updates_equals_rebuilt_tree() {
    let mut values: Vec<u128> = vec![4, 8, 15, 16, 23, 42];
    let mut tree = Segtree::<ZobHshP>::new(values.len());
    tree.build(&values);
    for step in 0..12usize {
        let i = (step * 5 + 1) % values.len();
        if step % 3 == 0 {
            values[i] += 100;
            tree.add(i, 100);
        } else {
            values[i] = step as u128;
            tree.update(i, step as u128);
        }
        let mut rebuilt = Segtree::<ZobHshP>::new(values.len());
        rebuilt.build(&values);
        for l in 0..values.len() {
            for r in l..=values.len() {
                assert_eq!(tree.fold(l..r), rebuilt.fold(l..r));
            }
            assert_eq!(tree.get(l), rebuilt.get(l));
            for limit in [0u128, 20, 60, 500] {
                assert_eq!(
                    tree.max_right(l, |v: &u128| *v <= limit),
                    rebuilt.max_right(l, |v: &u128| *v <= limit)
                );
            }
        }
    }
}
