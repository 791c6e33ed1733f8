use algolib::graph::kruskal;
use algolib::graph::unionfind::{
    AbelPotentialedUnionFind, PotentialedUnionFind, UnionFind, WrappingSum,
};

#[test]
fn union_find_merges() {
    let mut uf = UnionFind::new(6);
    assert_eq!(uf.group_count(), 6);
    for x in 0..6 {
        assert_eq!(uf.root(x), x);
        assert_eq!(uf.size(x), 1);
    }
    assert!(uf.unite(0, 1));
    assert!(!uf.unite(1, 0));
    assert!(uf.unite(2, 3));
    assert!(uf.unite(0, 3));
    assert!(uf.issame(1, 2));
    assert!(!uf.issame(1, 4));
    assert_eq!(uf.size(3), 4);
    assert_eq!(uf.size(4), 1);
    assert_eq!(uf.group_count(), 3);
    assert_eq!(uf.root(1), uf.root(2));
    assert_eq!(uf.root(0), 0);
}

#[test]
fn union_find_larger_class_wins() {
    let mut uf = UnionFind::new(5);
    uf.unite(3, 4);
    uf.unite(0, 3);
    assert_eq!(uf.root(0), 3);
    uf.unite(1, 2);
    uf.unite(1, 0);
    assert_eq!(uf.root(1), 3);
    assert_eq!(uf.size(2), 5);
    assert_eq!(uf.group_count(), 1);
}

#[test]
fn union_find_empty() {
    let mut uf = UnionFind::new(0);
    assert_eq!(uf.group_count(), 0);
}

#[test]
fn potentials_follow_the_differences() {
    let mut uf = PotentialedUnionFind::new(5);
    assert!(uf.unite(0, 1, 3));
    assert!(uf.unite(1, 2, 4));
    assert_eq!(uf.diff(2, 0), 7);
    assert_eq!(uf.diff(0, 2), -7);
    assert_eq!(uf.diff(1, 1), 0);
    assert!(uf.unite(0, 2, 7));
    assert!(!uf.unite(0, 2, 8));
    assert!(uf.unite(4, 3, -2));
    assert!(uf.unite(2, 4, 10));
    assert_eq!(uf.diff(3, 0), 15);
    assert!(uf.issame(0, 3));
    assert_eq!(uf.group_count(), 1);
    assert_eq!(uf.size(0), 0);
    let top = uf.root(3);
    assert_eq!(uf.weight(top), 0);
    let w0 = uf.weight(0);
    let w3 = uf.weight(3);
    assert_eq!(w3 - w0, 15);
}

#[test]
fn potentials_wrap_around() {
    let mut uf = PotentialedUnionFind::new(3);
    assert!(uf.unite(0, 1, i64::MAX));
    assert!(uf.unite(1, 2, 1));
    assert_eq!(uf.diff(2, 0), i64::MIN);
}

#[test]
fn group_potentials() {
    let mut uf = AbelPotentialedUnionFind::<WrappingSum>::new(4);
    assert_eq!(uf.group_count(), 4);
    assert!(uf.unite(0, 1, 5));
    assert!(uf.unite(2, 3, 6));
    assert!(!uf.issame(1, 2));
    assert!(uf.unite(1, 2, 1));
    assert_eq!(uf.diff(3, 0), 12);
    assert_eq!(uf.diff(0, 3), -12);
    assert!(uf.unite(0, 3, 12));
    assert!(!uf.unite(3, 0, 12));
    assert_eq!(uf.root(3), uf.root(0));
    assert_eq!(uf.group_count(), 1);
    assert_eq!(uf.size(1), 0);
    assert_eq!(uf.weight(0), 0);
}

#[test]
fn kruskal_costs_no_more_than_any_spanning_forest() {
    let edges: Vec<(isize, usize, usize)> =
        vec![(4, 0, 1), (-1, 1, 2), (3, 0, 2), (2, 2, 3), (2, 3, 1), (7, 4, 5), (0, 5, 4)];
    let n = 6usize;
    let (chosen, cost) = kruskal(edges.clone(), n);
    assert_eq!(cost, chosen.iter().map(|e| e.0).sum::<isize>());
    let mut whole = UnionFind::new(n);
    for &(_, u, v) in &edges {
        whole.unite(u, v);
    }
    let parts = whole.group_count();
    assert_eq!(chosen.len(), n - parts);
    let mut least: Option<isize> = None;
    for mask in 0u32..(1 << edges.len()) {
        let mut uf = UnionFind::new(n);
        let mut forest = true;
        let mut sum = 0isize;
        for (i, &(c, u, v)) in edges.iter().enumerate() {
            if mask & (1 << i) != 0 {
                forest = forest && uf.unite(u, v);
                sum += c;
            }
        }
        if forest && uf.group_count() == parts {
            assert!(cost <= sum);
            least = Some(least.map_or(sum, |l| l.min(sum)));
        }
    }
    assert_eq!(least, Some(cost));
    assert_eq!(cost, 4);
}
