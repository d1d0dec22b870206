use fsdb_clustering::bethe::{dir, Graph};
use fsdb_clustering::micro::{covering_bag, path_edges, two_tree_edges, N};
use fsdb_clustering::model::complete_pairs;

#[test]
fn graph_new_builds_adjacency_in_edge_order() {
    let g = Graph::new(4, vec![(0, 1), (1, 2), (0, 2), (2, 3)]);
    assert_eq!(g.n, 4);
    assert_eq!(g.edges, vec![(0, 1), (1, 2), (0, 2), (2, 3)]);
    assert_eq!(g.adj[0], vec![(1, 0), (2, 2)]);
    assert_eq!(g.adj[1], vec![(0, 0), (2, 1)]);
    assert_eq!(g.adj[2], vec![(1, 1), (0, 2), (3, 3)]);
    assert_eq!(g.adj[3], vec![(2, 3)]);
}

#[test]
fn graph_new_degree_sum_is_twice_edge_count() {
    let edges = two_tree_edges();
    let g = Graph::new(N, edges.clone());
    let total: usize = g.adj.iter().map(|a| a.len()).sum();
    assert_eq!(total, 2 * edges.len());
}

#[test]
fn graph_new_self_loop_listed_twice() {
    let g = Graph::new(2, vec![(1, 1)]);
    assert_eq!(g.adj[0], vec![]);
    assert_eq!(g.adj[1], vec![(1, 0), (1, 0)]);
}

#[test]
fn graph_new_isolated_nodes() {
    let g = Graph::new(3, vec![]);
    assert_eq!(g.adj.len(), 3);
    assert!(g.adj.iter().all(|a| a.is_empty()));
}

#[test]
fn dir_indices() {
    assert_eq!(dir(0, true), 0);
    assert_eq!(dir(0, false), 1);
    assert_eq!(dir(7, true), 14);
    assert_eq!(dir(7, false), 15);
}

#[test]
fn path_edges_values() {
    let e = path_edges();
    assert_eq!(e, vec![(0, 1), (1, 2), (2, 3), (3, 4), (4, 5), (5, 6), (6, 7), (7, 8), (8, 9)]);
}

#[test]
fn two_tree_edges_values() {
    let e = two_tree_edges();
    assert_eq!(
        e,
        vec![
            (0, 1), (0, 2), (1, 2),
            (2, 3), (1, 3),
            (3, 4), (2, 4),
            (4, 5), (3, 5),
            (5, 6), (4, 6),
            (6, 7), (5, 7),
            (7, 8), (6, 8),
            (8, 9), (7, 9),
        ]
    );
}

#[test]
fn covering_bag_first_bag() {
    assert_eq!(covering_bag(0, 1), Some(0));
    assert_eq!(covering_bag(1, 2), Some(0));
    assert_eq!(covering_bag(2, 3), Some(1));
    assert_eq!(covering_bag(7, 9), Some(7));
    assert_eq!(covering_bag(8, 9), Some(7));
    assert_eq!(covering_bag(9, 8), Some(7));
    assert_eq!(covering_bag(0, 3), None);
    assert_eq!(covering_bag(4, 9), None);
    assert_eq!(covering_bag(10, 10), None);
}

#[test]
fn every_benchmark_edge_is_covered() {
    for (i, j) in path_edges().into_iter().chain(two_tree_edges()) {
        let t = covering_bag(i, j).unwrap();
        assert!(t <= i && i < t + 3 && t <= j && j < t + 3);
    }
}

#[test]
fn complete_pairs_values() {
    assert_eq!(complete_pairs(4), vec![(0, 1), (0, 2), (0, 3), (1, 2), (1, 3), (2, 3)]);
    assert_eq!(complete_pairs(0), vec![]);
    assert_eq!(complete_pairs(1), vec![]);
    assert_eq!(complete_pairs(2), vec![(0, 1)]);
    assert_eq!(complete_pairs(8).len(), 28);
}
