use std::collections::HashMap;

use player_graph::analysis::{similarity_graph, total_value};
use player_graph::player::Player;

fn players_rated(ratings: &[u8]) -> Vec<Player> {
    ratings
        .iter()
        .enumerate()
        .map(|(index, rating)| Player { overall: *rating, value_eur: 10 * (index as u32 + 1) })
        .collect()
}

#[test]
fn similarity_graph_keeps_the_players_in_order() {
    let players = players_rated(&[90, 89, 89, 87]);
    let graph = similarity_graph(&players);
    assert_eq!(graph.node_count(), 4);
    for (index, player) in players.iter().enumerate() {
        assert_eq!(graph.node(index), Ok(player));
    }
}

#[test]
fn similarity_graph_joins_equal_ratings_only() {
    let players = players_rated(&[90, 89, 89, 87]);
    let graph = similarity_graph(&players);
    assert_eq!(graph.degrees(), vec![0, 1, 1, 0]);
    assert_eq!(graph.adjacency(0), Ok(&Vec::new()));
    assert_eq!(graph.adjacency(1), Ok(&vec![2]));
    assert_eq!(graph.adjacency(2), Ok(&vec![1]));
    assert_eq!(graph.adjacency(3), Ok(&Vec::new()));
}

#[test]
fn similarity_graph_joins_each_pair_once_in_scan_order() {
    let players = players_rated(&[80, 81, 80, 80, 81]);
    let graph = similarity_graph(&players);
    assert_eq!(graph.adjacency(0), Ok(&vec![2, 3]));
    assert_eq!(graph.adjacency(1), Ok(&vec![4]));
    assert_eq!(graph.adjacency(2), Ok(&vec![0, 3]));
    assert_eq!(graph.adjacency(3), Ok(&vec![0, 2]));
    assert_eq!(graph.adjacency(4), Ok(&vec![1]));

    let mut expected = HashMap::new();
    expected.insert(2, 3);
    expected.insert(1, 2);
    assert_eq!(graph.degree_distribution(), expected);

    let components = graph.connected_components();
    assert_eq!(components.len(), 2);
    assert_eq!(components[0], vec![&players[0], &players[2], &players[3]]);
    assert_eq!(components[1], vec![&players[1], &players[4]]);
}

#[test]
fn similarity_graph_of_no_players_is_empty() {
    let graph = similarity_graph(&Vec::new());
    assert_eq!(graph.node_count(), 0);
    assert!(graph.connected_components().is_empty());
}

#[test]
fn similarity_graph_of_one_rating_is_complete() {
    let players = players_rated(&[77; 6]);
    let graph = similarity_graph(&players);
    assert_eq!(graph.degrees(), vec![5; 6]);
    assert_eq!(graph.connected_components().len(), 1);
}

#[test]
fn total_value_adds_the_market_values() {
    let a = Player { overall: 90, value_eur: 100_000 };
    let b = Player { overall: 89, value_eur: 90_000 };
    let c = Player { overall: 89, value_eur: 80_000 };
    assert_eq!(total_value(&vec![&a, &b, &c]), 270_000);
    assert_eq!(total_value(&vec![&b]), 90_000);
    assert_eq!(total_value(&Vec::new()), 0);
}

#[test]
fn total_value_does_not_wrap() {
    let rich = Player { overall: 99, value_eur: u32::MAX };
    let component: Vec<&Player> = vec![&rich; 5];
    assert_eq!(total_value(&component), 5 * (u32::MAX as u128));
}

#[test]
fn total_value_of_each_component() {
    let players = players_rated(&[80, 81, 80, 80, 81]);
    let graph = similarity_graph(&players);
    let components = graph.connected_components();
    let totals: Vec<u128> = components.iter().map(total_value).collect();
    assert_eq!(totals, vec![10 + 30 + 40, 20 + 50]);
}

#[test]
fn similarity_graph_components_are_the_ratings() {
    let ratings = [83, 79, 83, 90, 79, 79, 61, 90, 83, 83, 55];
    let players = players_rated(&ratings);
    let graph = similarity_graph(&players);
    let components = graph.connected_components();

    let listed: Vec<Vec<u8>> = components
        .iter()
        .map(|component| component.iter().map(|player| player.overall).collect())
        .collect();
    assert_eq!(
        listed,
        vec![vec![83, 83, 83, 83], vec![79, 79, 79], vec![90, 90], vec![61], vec![55]]
    );

    for a in 0..ratings.len() {
        for b in 0..ratings.len() {
            let neighbours = graph.adjacency(a).unwrap().contains(&b);
            assert_eq!(neighbours, a != b && ratings[a] == ratings[b]);
        }
    }
}
