use algolib::dp::no_limit_quantity_knapsack::{knapsack, kubaru};
use algolib::graph::scc::Scc;
use algolib::graph::{
    bellman_ford, bfs, cycle_detection, cycle_reconstruct, dijkstra, euler_tour, isbiparrite,
    kruskal, topological_sort, warshall_froyd,
};

#[test]
fn et() {
    let g = vec![vec![1, 5], vec![0, 2, 4], vec![1, 3], vec![2], vec![1], vec![0]];
    let (v_in, v_out) = euler_tour(0, &g);
    println!("{}", v_in.iter().map(|x| x.to_string()).collect::<Vec<String>>().join("\t"));
    println!("{}", v_out.iter().map(|x| x.to_string()).collect::<Vec<String>>().join("\t"));
}

#[test]
fn euler_tour_times() {
    let g = vec![vec![1, 5], vec![0, 2, 4], vec![1, 3], vec![2], vec![1], vec![0]];
    let (v_in, v_out) = euler_tour(0, &g);
    assert_eq!(v_in, vec![0, 1, 2, 3, 6, 9]);
    assert_eq!(v_out, vec![11, 8, 5, 4, 7, 10]);
    let (a, b) = euler_tour(1, &[vec![], vec![], vec![0]]);
    assert_eq!(a, vec![0, 0, 0]);
    assert_eq!(b, vec![0, 1, 0]);
}

#[test]
fn distances() {
    let g = vec![vec![1, 2], vec![3], vec![3], vec![4], vec![], vec![0]];
    assert_eq!(bfs(0, &g), vec![0, 1, 1, 2, 3, -1]);
    assert_eq!(bfs(5, &g), vec![1, 2, 2, 3, 4, 0]);
    assert_eq!(bfs(4, &g), vec![-1, -1, -1, -1, 0, -1]);
    assert_eq!(bfs(0, &[vec![0, 0]]), vec![0]);
}

#[test]
fn two_colours() {
    assert!(isbiparrite(&[]));
    assert!(isbiparrite(&[vec![1], vec![0, 2], vec![1]]));
    assert!(isbiparrite(&[vec![1, 3], vec![0, 2], vec![1, 3], vec![2, 0], vec![]]));
    assert!(!isbiparrite(&[vec![1, 2], vec![0, 2], vec![0, 1]]));
    assert!(!isbiparrite(&[vec![0]]));
    assert!(!isbiparrite(&[vec![], vec![2], vec![1, 3, 4], vec![2, 4], vec![2, 3]]));
}

#[test]
fn cycles() {
    let g = vec![vec![1], vec![2], vec![3], vec![1], vec![0]];
    let n = g.len();
    let mut seen = vec![false; n];
    let mut finished = vec![false; n];
    let mut history = vec![];
    let found = cycle_detection(&g, 0, &mut seen, &mut finished, &mut history);
    assert_eq!(found, Some(1));
    assert_eq!(history, vec![0, 1, 2, 3, 1]);
    assert_eq!(cycle_reconstruct(1, &mut history), vec![1, 2, 3]);
    assert_eq!(history, vec![0]);

    let dag = vec![vec![1, 2], vec![2], vec![], vec![3]];
    let mut seen = vec![false; 4];
    let mut finished = vec![false; 4];
    let mut history = vec![];
    assert_eq!(cycle_detection(&dag, 0, &mut seen, &mut finished, &mut history), None);
    assert_eq!(history, Vec::<usize>::new());
    assert_eq!(seen, vec![true, true, true, false]);
    assert_eq!(finished, vec![true, true, true, false]);
    assert_eq!(cycle_detection(&dag, 3, &mut seen, &mut finished, &mut history), None);
}

#[test]
fn cycle_cut() {
    let mut history = vec![5, 7, 5, 8, 9];
    assert_eq!(cycle_reconstruct(5, &mut history), vec![5, 8]);
    assert_eq!(history, vec![5, 7]);
    let mut history = vec![1, 2, 3];
    assert_eq!(cycle_reconstruct(9, &mut history), vec![1, 2]);
    assert_eq!(history, Vec::<usize>::new());
    let mut history: Vec<usize> = vec![];
    assert_eq!(cycle_reconstruct(0, &mut history), Vec::<usize>::new());
}

#[test]
fn knapsacks() {
    let items = [(4isize, 3usize), (5, 4), (1, 1)];
    assert_eq!(knapsack(&items, 7), 9);
    assert_eq!(kubaru(&items, 7), 9);
    assert_eq!(knapsack(&items, 0), 0);
    assert_eq!(kubaru(&items, 0), 0);
    assert_eq!(knapsack(&[], 5), 0);
    assert_eq!(kubaru(&[], 5), 0);
    assert_eq!(knapsack(&[(10, 2)], 5), 20);
    assert_eq!(kubaru(&[(10, 2)], 5), 20);
    assert_eq!(knapsack(&[(10, 2)], 1), 0);
    assert_eq!(knapsack(&[(3, 0)], 2), 2);
    assert_eq!(kubaru(&[(3, 0)], 2), 0);
}

#[test]
fn topological_orders() {
    let g = vec![vec![1, 2], vec![3], vec![3], vec![], vec![0]];
    let mut indeg = vec![1, 1, 1, 2, 0];
    assert_eq!(topological_sort(&g, &mut indeg), vec![4, 0, 1, 2, 3]);
    assert_eq!(indeg, vec![0, 0, 0, 0, 0]);
    let cyclic = vec![vec![1], vec![2], vec![1, 3], vec![]];
    let mut indeg = vec![0, 2, 1, 1];
    assert_eq!(topological_sort(&cyclic, &mut indeg), vec![0]);
    assert_eq!(indeg, vec![0, 1, 1, 1]);
    let mut none: Vec<usize> = vec![];
    assert_eq!(topological_sort(&[], &mut none), Vec::<usize>::new());
}

#[test]
fn strongly_connected_groups() {
    let g = vec![vec![1], vec![2], vec![0, 3], vec![4], vec![3], vec![]];
    let mut scc = Scc::new(g.clone());
    assert_eq!(scc.g, g);
    assert_eq!(scc.rg, vec![vec![2], vec![0], vec![1], vec![2, 4], vec![3], vec![]]);
    scc.scc();
    assert_eq!(scc.kaerigake, vec![4, 3, 2, 1, 0, 5]);
    assert_eq!(scc.group_vs, vec![vec![5], vec![0, 1, 2], vec![3, 4]]);
    assert_eq!(scc.dag, vec![vec![], vec![2], vec![]]);
    let mut empty = Scc::new(vec![]);
    empty.scc();
    assert_eq!(empty.group_vs, Vec::<Vec<usize>>::new());
}

#[test]
fn cheapest_ways() {
    let far = 1usize << 60;
    let g = vec![vec![(7, 1), (2, 2)], vec![(1, 3)], vec![(3, 1), (10, 3)], vec![], vec![(1, 0)]];
    assert_eq!(dijkstra(0, &g), vec![0, 5, 2, 6, far]);
    assert_eq!(dijkstra(4, &g), vec![1, 6, 3, 7, 0]);
    assert_eq!(dijkstra(3, &g), vec![far, far, far, 0, far]);
    assert_eq!(dijkstra(0, &[vec![(0, 0), (5, 0)]]), vec![0]);
}

#[test]
fn spanning_forest() {
    let edges = vec![(5, 0, 1), (1, 1, 2), (3, 0, 2), (-2, 3, 4), (4, 2, 0), (1, 2, 1)];
    let (chosen, cost) = kruskal(edges, 6);
    assert_eq!(chosen, vec![(-2, 3, 4), (1, 1, 2), (3, 0, 2)]);
    assert_eq!(cost, 2);
    let (none, zero) = kruskal(vec![], 3);
    assert_eq!(none, vec![]);
    assert_eq!(zero, 0);
    let (loops, nothing) = kruskal(vec![(9, 1, 1)], 2);
    assert_eq!(loops, vec![]);
    assert_eq!(nothing, 0);
}

#[test]
fn bellman_ford_without_negative_cycle() {
    let g: Vec<Vec<(isize, usize)>> = vec![
        vec![(4, 1), (1, 2)],
        vec![(-2, 3)],
        vec![(2, 1)],
        vec![],
        vec![(1, 0)],
    ];
    assert_eq!(bellman_ford(0, &g), vec![0, 3, 1, 1, isize::MAX]);
    assert_eq!(bellman_ford(4, &g), vec![1, 4, 2, 2, 0]);
    assert_eq!(
        bellman_ford(3, &g),
        vec![isize::MAX, isize::MAX, isize::MAX, 0, isize::MAX]
    );
}

#[test]
fn bellman_ford_marks_what_lies_behind_a_negative_cycle() {
    let g: Vec<Vec<(isize, usize)>> = vec![
        vec![(1, 1), (7, 4)],
        vec![(-1, 2)],
        vec![(-1, 1), (5, 3)],
        vec![],
        vec![],
        vec![(3, 0)],
    ];
    assert_eq!(
        bellman_ford(0, &g),
        vec![0, isize::MIN, isize::MIN, isize::MIN, 7, isize::MAX]
    );
    assert_eq!(
        bellman_ford(5, &g),
        vec![3, isize::MIN, isize::MIN, isize::MIN, 10, 0]
    );
}

#[test]
fn bellman_ford_on_one_vertex() {
    let alone: Vec<Vec<(isize, usize)>> = vec![vec![]];
    assert_eq!(bellman_ford(0, &alone), vec![0]);
    let falling: Vec<Vec<(isize, usize)>> = vec![vec![(-1, 0)]];
    assert_eq!(bellman_ford(0, &falling), vec![isize::MIN]);
    let turning: Vec<Vec<(isize, usize)>> = vec![vec![(2, 0)]];
    assert_eq!(bellman_ford(0, &turning), vec![0]);
}

#[test]
fn bellman_ford_long_chain_needs_every_round() {
    let n = 6usize;
    let mut g: Vec<Vec<(isize, usize)>> = vec![vec![]; n];
    for v in 1..n {
        g[v].push((-2, v - 1));
    }
    let dist = bellman_ford(n - 1, &g);
    assert_eq!(dist, vec![-10, -8, -6, -4, -2, 0]);
}

#[test]
fn warshall_froyd_runs_on_graphs_with_and_without_edges() {
    let empty: Vec<Vec<(isize, usize)>> = vec![];
    warshall_froyd(&empty);
    let g: Vec<Vec<(isize, usize)>> = vec![vec![(1, 1)], vec![(-3, 2)], vec![(2, 0), (4, 2)]];
    warshall_froyd(&g);
}

#[test]
fn cheapest_ways_keep_off_cycles_without_a_way() {
    let far = 1usize << 60;
    let g = vec![vec![], vec![(0, 2)], vec![(0, 1)], vec![(4, 0)]];
    assert_eq!(dijkstra(0, &g), vec![0, far, far, far]);
    assert_eq!(dijkstra(1, &g), vec![far, 0, 0, far]);
    assert_eq!(dijkstra(3, &g), vec![4, far, far, 0]);
}

#[test]
fn euler_tour_enters_a_vertex_again_that_waits_twice() {
    let g = vec![vec![1, 2], vec![2], vec![], vec![0]];
    let (v_in, v_out) = euler_tour(0, &g);
    assert_eq!(v_in, vec![0, 1, 5, 0]);
    assert_eq!(v_out, vec![7, 4, 6, 0]);
}

#[test]
fn strongly_connected_groups_follow_the_edges() {
    let g = vec![
        vec![1],
        vec![2, 4],
        vec![0],
        vec![5],
        vec![3],
        vec![4, 6],
        vec![6],
        vec![0, 6],
    ];
    let mut scc = Scc::new(g.clone());
    scc.scc();
    assert_eq!(scc.group_vs, vec![vec![7], vec![0, 1, 2], vec![3, 4, 5], vec![6]]);
    let mut group = vec![0usize; g.len()];
    for (c, members) in scc.group_vs.iter().enumerate() {
        for &v in members {
            group[v] = c;
        }
    }
    for v in 0..g.len() {
        for &nv in &g[v] {
            assert!(group[v] <= group[nv]);
        }
    }
    assert_eq!(scc.dag, vec![vec![1, 3], vec![2], vec![3], vec![]]);
}

#[test]
fn euler_tour_times_are_nested_as_the_tree_is() {
    let g = vec![vec![1, 5], vec![0, 2, 4], vec![1, 3], vec![2], vec![1], vec![0, 6], vec![5]];
    let parent = [0usize, 0, 1, 2, 1, 0, 5];
    let n = g.len();
    let (v_in, v_out) = euler_tour(0, &g);
    assert_eq!(v_out[0], 2 * n - 1);
    for w in 0..n {
        for u in 0..n {
            let mut at = u;
            let mut below = at == w;
            while at != 0 && !below {
                at = parent[at];
                below = at == w;
            }
            assert_eq!(below, v_in[w] <= v_in[u] && v_out[u] <= v_out[w]);
        }
    }
    let mut stamps: Vec<usize> = v_in.iter().chain(v_out.iter()).copied().collect();
    stamps.sort();
    assert_eq!(stamps, (0..2 * n).collect::<Vec<usize>>());
}
