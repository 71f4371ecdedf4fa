//! The similarity graph of a list of players, and the market value of a
//! component.

use vstd::prelude::*;
use crate::graph::Graph;
use crate::laws::lemma_neighbor_iff_edge;
use crate::model::{players, GraphView};
use crate::player::Player;
use crate::reach::{
    connected, is_walk, lemma_reaches_self, lemma_reaches_step, same_part, walks,
};

verus! {

/// `first` comes before `second` when pairs are ordered by their first index
/// and then by their second.
pub open spec fn pair_before(first: (usize, usize), second: (usize, usize)) -> bool {
    first.0 < second.0 || (first.0 == second.0 && first.1 < second.1)
}

/// `edges` joins the equally rated pairs of players that come before the
/// pair `(i, j)`: each such pair once, the earlier player first, in ascending
/// order, and nothing else.
pub open spec fn links_equal_ratings_before(
    entities: Seq<Player>,
    edges: Seq<(usize, usize)>,
    i: int,
    j: int,
) -> bool {
    &&& forall|e: int|
        0 <= e < edges.len() ==> {
            let (a, b) = #[trigger] edges[e];
            &&& a < b < entities.len()
            &&& entities[a as int].overall == entities[b as int].overall
            &&& a < i || (a == i && b < j)
        }
    &&& forall|a: usize, b: usize|
        #![trigger entities[a as int], entities[b as int]]
        a < b < entities.len() && entities[a as int].overall == entities[b as int].overall && (a
            < i || (a == i && b < j)) ==> edges.contains((a, b))
    &&& forall|e: int, f: int|
        0 <= e < f < edges.len() ==> pair_before(#[trigger] edges[e], #[trigger] edges[f])
}

/// `edges` joins the equally rated pairs of players: each such pair once, the
/// earlier player first, in ascending order, and nothing else.
pub open spec fn links_equal_ratings(entities: Seq<Player>, edges: Seq<(usize, usize)>) -> bool {
    links_equal_ratings_before(entities, edges, entities.len() as int, 0)
}

/// The sum of the market values of `entities`.
pub open spec fn value_sum(entities: Seq<Player>) -> nat
    decreases entities.len(),
{
    if entities.len() == 0 {
        0
    } else {
        value_sum(entities.drop_last()) + entities.last().value_eur as nat
    }
}

/// The graph of the players in which two players are neighbours exactly if
/// they have the same rating. The players are its nodes, in the given order.
pub fn similarity_graph(entities: &Vec<Player>) -> (graph: Graph)
    ensures
        graph@.nodes == entities@,
        links_equal_ratings(entities@, graph@.edges),
        graph@.wf(),
{
    let count: usize = entities.len();
    let mut graph = Graph::new();
    let mut next: usize = 0;
    while next < count
        invariant
            count == entities@.len(),
            next <= count,
            graph@.nodes == entities@.take(next as int),
            graph@.edges == Seq::<(usize, usize)>::empty(),
        decreases count - next,
    {
        graph.add_node(entities[next]);
        next += 1;
    }
    let mut i: usize = 0;
    while i < count
        invariant
            count == entities@.len(),
            i <= count,
            graph@.nodes == entities@,
            links_equal_ratings_before(entities@, graph@.edges, i as int, 0),
            graph@.wf(),
        decreases count - i,
    {
        let mut j: usize = i + 1;
        while j < count
            invariant
                count == entities@.len(),
                i < j <= count,
                graph@.nodes == entities@,
                links_equal_ratings_before(entities@, graph@.edges, i as int, j as int),
                graph@.wf(),
            decreases count - j,
        {
            if entities[i].overall == entities[j].overall {
                let ghost before = graph@.edges;
                // Both are nodes of the graph, so the edge is added.
                let _ = graph.add_edge(i, j);
                proof {
                    lemma_link_added(entities@, before, i, j);
                }
            }
            j += 1;
        }
        i += 1;
    }
    graph
}

/// Adding the pair `(i, j)` of equally rated players to the edges before it
/// gives the edges before the pair that follows it.
proof fn lemma_link_added(entities: Seq<Player>, edges: Seq<(usize, usize)>, i: usize, j: usize)
    requires
        i < j < entities.len(),
        entities[i as int].overall == entities[j as int].overall,
        links_equal_ratings_before(entities, edges, i as int, j as int),
    ensures
        links_equal_ratings_before(entities, edges.push((i, j)), i as int, j + 1),
{
    let longer = edges.push((i, j));
    assert forall|a: usize, b: usize|
        #![trigger entities[a as int], entities[b as int]]
        a < b < entities.len() && entities[a as int].overall == entities[b as int].overall && (a
            < i || (a == i && b < j + 1)) implies longer.contains((a, b)) by {
        if a == i && b == j {
            assert(longer[edges.len() as int] == (i, j));
        } else {
            let e = choose|e: int| 0 <= e < edges.len() && edges[e] == (a, b);
            assert(longer[e] == (a, b));
        }
    }
}

/// The sum of the market values of the players of a component.
pub fn total_value(component: &Vec<&Player>) -> (sum: u128)
    ensures
        sum == value_sum(players(component@)),
{
    let ghost entities = players(component@);
    let mut sum: u128 = 0;
    let mut i: usize = 0;
    while i < component.len()
        invariant
            entities == players(component@),
            i <= component@.len(),
            sum == value_sum(entities.take(i as int)),
            sum <= i * u32::MAX,
        decreases component@.len() - i,
    {
        proof {
            assert(entities.take(i as int + 1).drop_last() =~= entities.take(i as int));
        }
        sum = sum + component[i].value_eur as u128;
        i += 1;
    }
    proof {
        assert(entities.take(i as int) =~= entities);
    }
    sum
}

/// In a graph whose edges join the equally rated pairs, two nodes are
/// neighbours exactly if they are different nodes with the same rating.
pub proof fn lemma_similarity_neighbors(g: GraphView, a: usize, b: usize)
    requires
        links_equal_ratings(g.nodes, g.edges),
        a < g.nodes.len(),
        b < g.nodes.len(),
    ensures
        g.adjacency(a).contains(b) <==> a != b && g.nodes[a as int].overall
            == g.nodes[b as int].overall,
{
    lemma_neighbor_iff_edge(g.edges, a, b);
}

/// Along a walk in a graph whose edges join the equally rated pairs, the
/// rating stays the same.
proof fn lemma_walk_keeps_rating(g: GraphView, path: Seq<usize>, upto: int)
    requires
        links_equal_ratings(g.nodes, g.edges),
        is_walk(g.adjacency_lists(), path),
        0 <= upto < path.len(),
    ensures
        g.nodes[path[upto] as int].overall == g.nodes[path[0] as int].overall,
    decreases upto,
{
    if upto > 0 {
        lemma_walk_keeps_rating(g, path, upto - 1);
        let before = path[upto - 1];
        lemma_similarity_neighbors(g, before, path[upto]);
    }
}

/// In a graph whose edges join the equally rated pairs, the connected
/// components are the ratings: two nodes are in one component exactly if
/// they have the same rating.
pub proof fn lemma_similarity_components(g: GraphView, a: usize, b: usize)
    requires
        g.wf(),
        links_equal_ratings(g.nodes, g.edges),
        a < g.nodes.len(),
        b < g.nodes.len(),
    ensures
        same_part(g.components(), a, b) <==> g.nodes[a as int].overall
            == g.nodes[b as int].overall,
{
    let adj = g.adjacency_lists();
    g.lemma_components_connected(a, b);
    if connected(adj, a, b) {
        let path = choose|path: Seq<usize>| #[trigger] walks(adj, Set::empty(), a, b, path);
        lemma_walk_keeps_rating(g, path, path.len() - 1);
    }
    if g.nodes[a as int].overall == g.nodes[b as int].overall {
        if a == b {
            lemma_reaches_self(adj, Set::empty(), a);
        } else {
            lemma_similarity_neighbors(g, a, b);
            lemma_reaches_self(adj, Set::empty(), b);
            lemma_reaches_step(adj, Set::empty(), a, b, b);
        }
    }
}

} // verus!
