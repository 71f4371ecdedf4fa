use std::collections::HashSet;

use player_graph::graph::Graph;
use player_graph::player::Player;

/// A graph of `count` nodes, node `i` with the market value `i`, and the
/// given edges in the given order.
fn graph_of(count: usize, edges: &[(usize, usize)]) -> Graph {
    let mut graph = Graph::new();
    for index in 0..count {
        graph.add_node(Player { overall: 50, value_eur: index as u32 });
    }
    for (a, b) in edges {
        graph.add_edge(*a, *b).unwrap();
    }
    graph
}

fn values(entities: &[&Player]) -> Vec<u32> {
    entities.iter().map(|entity| entity.value_eur).collect()
}

#[test]
fn dfs_follows_adjacency_list_order() {
    let graph = graph_of(5, &[(0, 1), (0, 2), (1, 3), (2, 4)]);
    let mut visited = HashSet::new();
    let reached = graph.dfs(&mut visited, 0).unwrap();
    assert_eq!(values(&reached), vec![0, 1, 3, 2, 4]);

    let graph = graph_of(5, &[(0, 2), (0, 1), (1, 3), (2, 4)]);
    let mut visited = HashSet::new();
    let reached = graph.dfs(&mut visited, 0).unwrap();
    assert_eq!(values(&reached), vec![0, 2, 4, 1, 3]);
}

#[test]
fn dfs_goes_deep_before_it_goes_on() {
    // 0 - 1 - 2 - 0 is a triangle; 2 has the tail 2 - 3.
    let graph = graph_of(4, &[(0, 1), (1, 2), (2, 0), (2, 3)]);
    let mut visited = HashSet::new();
    let reached = graph.dfs(&mut visited, 0).unwrap();
    assert_eq!(values(&reached), vec![0, 1, 2, 3]);
    assert_eq!(visited, [0, 1, 2, 3].into_iter().collect());
}

#[test]
fn dfs_marks_what_it_reaches() {
    let graph = graph_of(6, &[(0, 1), (1, 2), (3, 4)]);
    let mut visited = HashSet::new();
    let reached = graph.dfs(&mut visited, 1).unwrap();
    assert_eq!(values(&reached), vec![1, 0, 2]);
    assert_eq!(visited, [0, 1, 2].into_iter().collect());

    let reached = graph.dfs(&mut visited, 4).unwrap();
    assert_eq!(values(&reached), vec![4, 3]);
    assert_eq!(visited, [0, 1, 2, 3, 4].into_iter().collect());
}

#[test]
fn dfs_stays_out_of_visited_nodes() {
    // A path 0 - 1 - 2 - 3 - 4 with 2 taken as visited.
    let graph = graph_of(5, &[(0, 1), (1, 2), (2, 3), (3, 4)]);
    let mut visited = HashSet::new();
    visited.insert(2);
    let reached = graph.dfs(&mut visited, 0).unwrap();
    assert_eq!(values(&reached), vec![0, 1]);
    assert_eq!(visited, [0, 1, 2].into_iter().collect());
}

#[test]
fn dfs_from_a_visited_root_still_starts_there() {
    let graph = graph_of(3, &[(0, 1), (1, 2)]);
    let mut visited = HashSet::new();
    visited.insert(1);
    let reached = graph.dfs(&mut visited, 1).unwrap();
    assert_eq!(values(&reached), vec![1, 0, 2]);
    assert_eq!(visited, [0, 1, 2].into_iter().collect());
}

#[test]
fn dfs_keeps_indices_outside_the_graph() {
    let graph = graph_of(2, &[(0, 1)]);
    let mut visited = HashSet::new();
    visited.insert(17);
    let reached = graph.dfs(&mut visited, 0).unwrap();
    assert_eq!(values(&reached), vec![0, 1]);
    assert_eq!(visited, [0, 1, 17].into_iter().collect());
}

#[test]
fn dfs_of_an_isolated_node_is_that_node() {
    let graph = graph_of(3, &[(0, 2)]);
    let mut visited = HashSet::new();
    let reached = graph.dfs(&mut visited, 1).unwrap();
    assert_eq!(values(&reached), vec![1]);
    assert_eq!(visited, [1].into_iter().collect());
}

#[test]
fn dfs_passes_self_loops_and_repeated_edges() {
    let graph = graph_of(3, &[(0, 0), (0, 1), (0, 1), (1, 2), (2, 2)]);
    let mut visited = HashSet::new();
    let reached = graph.dfs(&mut visited, 0).unwrap();
    assert_eq!(values(&reached), vec![0, 1, 2]);
}

#[test]
fn components_are_ordered_by_their_smallest_node() {
    let graph = graph_of(7, &[(5, 1), (6, 0), (3, 2), (1, 4)]);
    let components = graph.connected_components();
    let listed: Vec<Vec<u32>> = components.iter().map(|component| values(component)).collect();
    assert_eq!(listed, vec![vec![0, 6], vec![1, 5, 4], vec![2, 3]]);
}

#[test]
fn components_of_isolated_nodes_are_singletons() {
    let graph = graph_of(3, &[]);
    let components = graph.connected_components();
    let listed: Vec<Vec<u32>> = components.iter().map(|component| values(component)).collect();
    assert_eq!(listed, vec![vec![0], vec![1], vec![2]]);
}

#[test]
fn components_hold_what_is_connected() {
    // Two triangles joined by one edge, and a pair apart from them.
    let graph = graph_of(8, &[(0, 1), (1, 2), (2, 0), (3, 4), (4, 5), (5, 3), (2, 3), (6, 7)]);
    let components = graph.connected_components();
    let listed: Vec<Vec<u32>> = components.iter().map(|component| values(component)).collect();
    assert_eq!(listed, vec![vec![0, 1, 2, 3, 4, 5], vec![6, 7]]);
}

#[test]
fn long_chain_is_one_component() {
    let count = 200_000;
    let mut graph = Graph::new();
    for index in 0..count {
        graph.add_node(Player { overall: 50, value_eur: index as u32 });
    }
    for index in 1..count {
        graph.add_edge(index - 1, index).unwrap();
    }
    let components = graph.connected_components();
    assert_eq!(components.len(), 1);
    assert_eq!(components[0].len(), count);
    for (index, entity) in components[0].iter().enumerate() {
        assert_eq!(entity.value_eur, index as u32);
    }
}
