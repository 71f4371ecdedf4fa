use std::collections::{HashMap, HashSet};

use player_graph::graph::{Graph, GraphError};
use player_graph::player::Player;

fn player(overall: u8, value_eur: u32) -> Player {
    Player { overall, value_eur }
}

/// Nodes with the given ratings, and an edge for every pair of equal ratings.
fn rated_graph(ratings: &[u8]) -> Graph {
    let mut graph = Graph::new();
    for (index, rating) in ratings.iter().enumerate() {
        graph.add_node(player(*rating, 1000 * (index as u32 + 1)));
    }
    for i in 0..ratings.len() {
        for j in (i + 1)..ratings.len() {
            if ratings[i] == ratings[j] {
                graph.add_edge(i, j).unwrap();
            }
        }
    }
    graph
}

#[test]
fn empty_graph_has_nothing() {
    let graph = Graph::new();
    assert_eq!(graph.node_count(), 0);
    assert_eq!(graph.degree_distribution(), HashMap::new());
    assert!(graph.connected_components().is_empty());
    assert!(graph.degrees().is_empty());
}

#[test]
fn add_node_returns_positions_in_insertion_order() {
    let mut graph = Graph::new();
    assert_eq!(graph.add_node(player(90, 1)), 0);
    assert_eq!(graph.add_node(player(80, 2)), 1);
    assert_eq!(graph.add_node(player(90, 1)), 2);
    assert_eq!(graph.node_count(), 3);
    assert_eq!(graph.node(0), Ok(&player(90, 1)));
    assert_eq!(graph.node(1), Ok(&player(80, 2)));
    assert_eq!(graph.node(2), Ok(&player(90, 1)));
    assert_eq!(graph.adjacency(2), Ok(&Vec::new()));
    assert_eq!(graph.degree(2), Ok(0));
}

#[test]
fn four_ratings_scenario() {
    let graph = rated_graph(&[90, 89, 89, 87]);

    assert_eq!(graph.degree(0), Ok(0));
    assert_eq!(graph.degree(1), Ok(1));
    assert_eq!(graph.degree(2), Ok(1));
    assert_eq!(graph.degree(3), Ok(0));
    assert_eq!(graph.adjacency(1), Ok(&vec![2]));
    assert_eq!(graph.adjacency(2), Ok(&vec![1]));

    let mut expected = HashMap::new();
    expected.insert(0, 2);
    expected.insert(1, 2);
    assert_eq!(graph.degree_distribution(), expected);

    let components = graph.connected_components();
    assert_eq!(components.len(), 3);
    assert_eq!(components[0], vec![&player(90, 1000)]);
    assert_eq!(components[1], vec![&player(89, 2000), &player(89, 3000)]);
    assert_eq!(components[2], vec![&player(87, 4000)]);
}

#[test]
fn single_node_scenario() {
    let mut graph = Graph::new();
    graph.add_node(player(75, 500));

    let components = graph.connected_components();
    assert_eq!(components.len(), 1);
    assert_eq!(components[0], vec![&player(75, 500)]);

    let mut expected = HashMap::new();
    expected.insert(0, 1);
    assert_eq!(graph.degree_distribution(), expected);
}

#[test]
fn distribution_counts_add_up_to_node_count() {
    let graph = rated_graph(&[70, 71, 70, 72, 70, 71, 73, 70, 74, 74]);
    let distribution = graph.degree_distribution();
    let total: usize = distribution.values().sum();
    assert_eq!(total, graph.node_count());

    let mut expected = HashMap::new();
    expected.insert(0, 2);
    expected.insert(1, 4);
    expected.insert(3, 4);
    assert_eq!(distribution, expected);
}

#[test]
fn degrees_add_up_to_twice_the_edges() {
    let mut graph = Graph::new();
    for index in 0..6 {
        graph.add_node(player(60, index));
    }
    let edges = [(0, 1), (1, 2), (2, 0), (3, 4), (0, 1), (5, 5), (4, 1)];
    for (added, (a, b)) in edges.iter().enumerate() {
        graph.add_edge(*a, *b).unwrap();
        let total: usize = (0..graph.node_count()).map(|i| graph.degree(i).unwrap()).sum();
        assert_eq!(total, 2 * (added + 1));
    }
    assert_eq!(graph.degrees(), vec![3, 4, 2, 1, 2, 2]);
}

#[test]
fn add_edge_is_symmetric() {
    let mut graph = Graph::new();
    for index in 0..4 {
        graph.add_node(player(60, index));
    }
    graph.add_edge(3, 1).unwrap();
    graph.add_edge(1, 0).unwrap();
    assert!(graph.adjacency(3).unwrap().contains(&1));
    assert!(graph.adjacency(1).unwrap().contains(&3));
    assert!(graph.adjacency(1).unwrap().contains(&0));
    assert!(graph.adjacency(0).unwrap().contains(&1));
    for a in 0..4 {
        for b in 0..4 {
            assert_eq!(
                graph.adjacency(a).unwrap().contains(&b),
                graph.adjacency(b).unwrap().contains(&a)
            );
        }
    }
}

#[test]
fn adjacency_keeps_insertion_order_and_duplicates() {
    let mut graph = Graph::new();
    for index in 0..4 {
        graph.add_node(player(60, index));
    }
    graph.add_edge(0, 3).unwrap();
    graph.add_edge(0, 1).unwrap();
    graph.add_edge(2, 0).unwrap();
    graph.add_edge(0, 3).unwrap();
    assert_eq!(graph.adjacency(0), Ok(&vec![3, 1, 2, 3]));
    assert_eq!(graph.adjacency(3), Ok(&vec![0, 0]));
    assert_eq!(graph.degree(0), Ok(4));
    assert_eq!(graph.degree(3), Ok(2));
}

#[test]
fn self_loop_counts_twice() {
    let mut graph = Graph::new();
    graph.add_node(player(60, 1));
    graph.add_node(player(60, 2));
    graph.add_edge(1, 1).unwrap();
    assert_eq!(graph.adjacency(1), Ok(&vec![1, 1]));
    assert_eq!(graph.degree(1), Ok(2));
    assert_eq!(graph.degree(0), Ok(0));
    assert_eq!(graph.connected_components().len(), 2);
}

#[test]
fn invalid_index_is_refused_and_changes_nothing() {
    let mut graph = rated_graph(&[90, 89, 89, 87]);

    assert_eq!(graph.add_edge(0, 4), Err(GraphError::InvalidIndex));
    assert_eq!(graph.add_edge(4, 0), Err(GraphError::InvalidIndex));
    assert_eq!(graph.add_edge(usize::MAX, usize::MAX), Err(GraphError::InvalidIndex));
    assert_eq!(graph.degree(4), Err(GraphError::InvalidIndex));
    assert_eq!(graph.node(4), Err(GraphError::InvalidIndex));
    assert_eq!(graph.adjacency(4), Err(GraphError::InvalidIndex));

    let mut visited = HashSet::new();
    visited.insert(2);
    assert_eq!(graph.dfs(&mut visited, 4), Err(GraphError::InvalidIndex));
    assert_eq!(visited.len(), 1);
    assert!(visited.contains(&2));

    assert_eq!(graph.node_count(), 4);
    assert_eq!(graph.degrees(), vec![0, 1, 1, 0]);
    assert_eq!(graph.adjacency(0), Ok(&Vec::new()));
    assert_eq!(graph.adjacency(1), Ok(&vec![2]));
    assert_eq!(graph.adjacency(2), Ok(&vec![1]));
    assert_eq!(graph.adjacency(3), Ok(&Vec::new()));
}

#[test]
fn invalid_index_on_an_empty_graph() {
    let mut graph = Graph::new();
    assert_eq!(graph.add_edge(0, 0), Err(GraphError::InvalidIndex));
    assert_eq!(graph.degree(0), Err(GraphError::InvalidIndex));
    assert_eq!(graph.node_count(), 0);
}

#[test]
fn components_partition_the_nodes() {
    let ratings = [70, 71, 70, 72, 70, 71, 73, 70, 74, 74];
    let graph = rated_graph(&ratings);
    let components = graph.connected_components();

    // Every node has its own market value here, so a value names a node.
    let mut seen: Vec<u32> = Vec::new();
    for component in &components {
        for entity in component {
            assert!(!seen.contains(&entity.value_eur));
            seen.push(entity.value_eur);
        }
    }
    assert_eq!(seen.len(), graph.node_count());
    for index in 0..graph.node_count() {
        assert!(seen.contains(&graph.node(index).unwrap().value_eur));
    }

    // One rating for each component, and every component starts at its
    // smallest index; the components stand in ascending order of that index.
    let sizes: Vec<usize> = components.iter().map(|component| component.len()).collect();
    assert_eq!(sizes, vec![4, 2, 1, 1, 2]);
    let roots: Vec<u32> = components.iter().map(|component| component[0].value_eur).collect();
    assert_eq!(roots, vec![1000, 2000, 4000, 7000, 9000]);
    for component in &components {
        for entity in component {
            assert_eq!(entity.overall, component[0].overall);
            assert!(entity.value_eur >= component[0].value_eur);
        }
    }
}
