use player_graph::graph::Graph;
use player_graph::player::Player;

#[test]
fn test_add_node() {
    let mut graph = Graph::new();
    let player = Player { overall: 90, value_eur: 100_000 };
    let node = graph.add_node(player.clone());

    assert_eq!(*graph.node(node).unwrap(), player);
}

#[test]
fn test_add_edge() {
    let mut graph = Graph::new();
    let player1 = Player { overall: 90, value_eur: 100_000 };
    let player2 = Player { overall: 89, value_eur: 90_000 };

    let node1 = graph.add_node(player1.clone());
    let node2 = graph.add_node(player2.clone());

    graph.add_edge(node1, node2).unwrap();

    assert!(graph.adjacency(node1).unwrap().contains(&node2));
    assert!(graph.adjacency(node2).unwrap().contains(&node1));
}

#[test]
fn test_same_overall_edge() {
    let mut graph = Graph::new();
    let player1 = Player { overall: 90, value_eur: 100_000 };
    let player2 = Player { overall: 89, value_eur: 90_000 };
    let player3 = Player { overall: 89, value_eur: 90_000 };
    let player4 = Player { overall: 87, value_eur: 80_000 };

    let node1 = graph.add_node(player1.clone());
    let node2 = graph.add_node(player2.clone());
    let node3 = graph.add_node(player3.clone());
    let node4 = graph.add_node(player4.clone());

    // Connect nodes with the same overall rating
    for i in 0..graph.node_count() {
        for j in (i + 1)..graph.node_count() {
            if graph.node(i).unwrap().overall == graph.node(j).unwrap().overall {
                graph.add_edge(i, j).unwrap();
            }
        }
    }

    assert_eq!(graph.degree(node1), Ok(0));
    assert_eq!(graph.degree(node2), Ok(1));
    assert_eq!(graph.degree(node3), Ok(1));
    assert_eq!(graph.degree(node4), Ok(0));
}
