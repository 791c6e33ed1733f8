use algolib::algebra::ZobHshP;
use algolib::data_structure::doubling::{UnWeightDoubling, WeightDoubling};
use algolib::graph::dfs;
use algolib::str_algo::trie::Trie;
use algolib::traits::Doubling;

fn chars(s: &str) -> Vec<char> {
    s.chars().collect()
}

#[test]
fn trie_counts_starts() {
    let mut trie = Trie::new();
    assert!(trie.contains(&chars("")));
    assert!(!trie.contains(&chars("a")));
    for word in ["ab", "abc", "abd", "b", ""] {
        trie.insert(&chars(word));
    }
    assert!(trie.contains(&chars("a")));
    assert!(trie.contains(&chars("abd")));
    assert!(trie.contains(&chars("b")));
    assert!(!trie.contains(&chars("abe")));
    assert!(!trie.contains(&chars("ba")));
    assert_eq!(trie.lcp(&chars("abc")), 2);
    assert_eq!(trie.lcp(&chars("abx")), 2);
    assert_eq!(trie.lcp(&chars("b")), 0);
    assert_eq!(trie.lcp(&chars("")), 0);
    assert_eq!(trie.lcp(&chars("xyz")), 0);
    assert_eq!(trie.abc353e(&chars("abc")), 3 + 3 + 1);
    assert_eq!(trie.abc353e(&chars("abz")), 3 + 3);
    assert_eq!(trie.abc353e(&chars("b")), 1);
    assert_eq!(trie.abc353e(&chars("zz")), 0);
    trie.insert(&chars("ab"));
    assert_eq!(trie.abc353e(&chars("ab")), 4 + 4);
}

#[test]
fn jumps_without_weights() {
    let first = [Some(1), Some(2), None];
    let mut table = UnWeightDoubling::new(&first, 3);
    assert_eq!(table.query(0, 1), Some(1));
    assert_eq!(table.query(1, 1), Some(1));
    assert_eq!(table.query(1, 2), None);
    assert_eq!(table.query(2, 0), None);
    assert_eq!(table.query_vec(0), vec![Some(0), Some(1), Some(2)]);
    assert_eq!(table.query_vec(1), vec![Some(1), Some(2), None]);
    table.set_next(Some(0), 2);
    assert_eq!(table.query(1, 2), Some(2));
    assert_eq!(table.query_vec(1), vec![Some(1), Some(2), Some(0)]);
}

#[test]
fn jumps_with_weights() {
    let first: [Option<(usize, u128)>; 4] = [Some((1, 10)), Some((2, 20)), Some((3, 30)), None];
    let mut table = WeightDoubling::<ZobHshP>::new(&first, 3);
    assert_eq!(table.query(0, 2), Some((2, 0)));
    assert_eq!(table.query(1, 0), Some((1, 10)));
    assert_eq!(table.query(2, 0), Some((2, 30)));
    assert_eq!(table.query(3, 0), Some((3, 60)));
    assert_eq!(table.query(4, 0), None);
    assert_eq!(table.query(1, 3), None);
    assert_eq!(table.query(2, 2), None);
    table.set_next(Some((0, 5)), 3);
    assert_eq!(table.query(1, 3), Some((0, 5)));
}

#[test]
fn walk_comes_back() {
    dfs(0, 3, &[vec![1, 2], vec![2, 3], vec![3], vec![0]]);
    dfs(1, 0, &[vec![], vec![]]);
}
