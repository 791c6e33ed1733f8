use algolib::compressed_mapping::CompMap;
use algolib::data_structure::n_dim_acc::{Acc2d, Acc3d};

#[test]
fn comp_map_ranks() {
    let mut map = CompMap::<i64>::new();
    map.push(30);
    map.push_vec(&[10, 20, 10, 30]);
    map.build();
    assert_eq!(map.get(&10), 0);
    assert_eq!(map.get(&20), 1);
    assert_eq!(map.get(&30), 2);
    assert_eq!(map.get(&5), 0);
    assert_eq!(map.get(&15), 1);
    assert_eq!(map.get(&31), 3);
    assert_eq!(map.get_vec(&[30, 10, 25]), vec![2, 0, 2]);
}

#[test]
fn comp_map_empty() {
    let mut map: CompMap<u8> = CompMap::default();
    map.build();
    assert_eq!(map.get(&3), 0);
    assert_eq!(map.get_vec(&[]), Vec::<usize>::new());
}

#[test]
fn comp_map_of_utils_is_the_same() {
    let mut map = algolib::utils::CompMap::<char>::new();
    map.push_vec(&['b', 'a', 'b']);
    map.build();
    assert_eq!(map.get(&'b'), 1);
}

#[test]
fn sums_over_boxes() {
    let grid = vec![vec![1, 2, 3], vec![4, 5, 6]];
    let table = Acc2d::new(&grid);
    assert_eq!(table.fold(0..2, 0..3), 21);
    assert_eq!(table.fold(0..1, 0..3), 6);
    assert_eq!(table.fold(1..2, 1..3), 11);
    assert_eq!(table.fold(1..=1, 0..=0), 4);
    assert_eq!(table.fold(0..0, 0..3), 0);
    assert_eq!(table.fold(0..2, 2..2), 0);
    for li in 0..=2usize {
        for ri in li..=2 {
            for lj in 0..=3usize {
                for rj in lj..=3 {
                    let mut expected = 0;
                    for row in &grid[li..ri] {
                        for x in &row[lj..rj] {
                            expected += x;
                        }
                    }
                    assert_eq!(table.fold(li..ri, lj..rj), expected);
                }
            }
        }
    }
}

#[test]
fn sums_over_blocks() {
    let cube: Vec<Vec<Vec<isize>>> = (0..3)
        .map(|a| (0..2).map(|b| (0..4).map(|c| (a * 100 + b * 10 + c - 7) as isize).collect()).collect())
        .collect();
    let table = Acc3d::new(&cube);
    assert_eq!(table.fold(0..1, 0..1, 0..1), -7);
    for li in 0..=3usize {
        for ri in li..=3 {
            for lj in 0..=2usize {
                for rj in lj..=2 {
                    for lk in 0..=4usize {
                        for rk in lk..=4 {
                            let mut expected = 0;
                            for sheet in &cube[li..ri] {
                                for line in &sheet[lj..rj] {
                                    for x in &line[lk..rk] {
                                        expected += x;
                                    }
                                }
                            }
                            assert_eq!(table.fold(li..ri, lj..rj, lk..rk), expected);
                        }
                    }
                }
            }
        }
    }
}
