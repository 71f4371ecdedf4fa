//! What a graph is, as mathematics: its nodes and the edges that were added,
//! and what follows from them.

use vstd::multiset::Multiset;
use vstd::prelude::*;
use crate::distribution::tally;
use crate::player::Player;
use crate::traversal::{components, valid_adjacency};

verus! {

/// What the adjacency list `list` of `node` becomes when the edge `(a, b)` is
/// added: `b` goes to the end of the list of `a`, then `a` to the end of the
/// list of `b`. A self-loop therefore puts the node there twice.
pub open spec fn with_edge(list: Seq<usize>, node: usize, a: usize, b: usize) -> Seq<usize> {
    let forward = if a == node { list.push(b) } else { list };
    if b == node { forward.push(a) } else { forward }
}

/// The neighbours that the edge list `edges` gives `node`, oldest first.
pub open spec fn neighbors(edges: Seq<(usize, usize)>, node: usize) -> Seq<usize>
    decreases edges.len(),
{
    if edges.len() == 0 {
        Seq::empty()
    } else {
        with_edge(neighbors(edges.drop_last(), node), node, edges.last().0, edges.last().1)
    }
}

/// The sum of the degrees that `edges` gives the nodes below `upto`.
pub open spec fn degree_sum(edges: Seq<(usize, usize)>, upto: nat) -> nat
    decreases upto,
{
    if upto == 0 {
        0
    } else {
        degree_sum(edges, (upto - 1) as nat) + neighbors(edges, (upto - 1) as usize).len()
    }
}

/// What a graph is: its entities by node index, and its edges in the order in
/// which they were added.
pub struct GraphView {
    pub nodes: Seq<Player>,
    pub edges: Seq<(usize, usize)>,
}

impl GraphView {
    /// Every edge joins two nodes of the graph, and the number of nodes and
    /// every degree is a `usize`.
    pub open spec fn wf(self) -> bool {
        &&& self.nodes.len() <= usize::MAX
        &&& forall|e: int|
            0 <= e < self.edges.len() ==> {
                &&& (#[trigger] self.edges[e]).0 < self.nodes.len()
                &&& self.edges[e].1 < self.nodes.len()
            }
        &&& forall|node: usize|
            node < self.nodes.len() ==> #[trigger] self.degree(node) <= usize::MAX
    }

    /// The adjacency list of `node`: its neighbours, oldest first.
    pub open spec fn adjacency(self, node: usize) -> Seq<usize> {
        neighbors(self.edges, node)
    }

    /// All adjacency lists, by node index.
    pub open spec fn adjacency_lists(self) -> Seq<Seq<usize>> {
        Seq::new(self.nodes.len(), |i: int| self.adjacency(i as usize))
    }

    /// The number of entries in the adjacency list of `node`.
    pub open spec fn degree(self, node: usize) -> nat {
        self.adjacency(node).len()
    }

    /// The degree of each node, by node index.
    pub open spec fn degrees(self) -> Seq<usize> {
        Seq::new(self.nodes.len(), |i: int| self.degree(i as usize) as usize)
    }

    /// The sum of the degrees of all nodes.
    pub open spec fn total_degree(self) -> nat {
        degree_sum(self.edges, self.nodes.len())
    }

    /// For each degree that some node has, the number of nodes that have it.
    pub open spec fn degree_distribution(self) -> Map<usize, usize> {
        tally(self.degrees())
    }

    /// The connected components as lists of node indices.
    pub open spec fn components(self) -> Seq<Seq<usize>> {
        components(self.adjacency_lists())
    }

    /// The entities at the indices `order`, in that order.
    pub open spec fn entities(self, order: Seq<usize>) -> Seq<Player> {
        Seq::new(order.len(), |j: int| self.nodes[order[j] as int])
    }

    /// The entities of each group of indices, group by group.
    pub open spec fn grouped_entities(self, groups: Seq<Seq<usize>>) -> Seq<Seq<Player>> {
        Seq::new(groups.len(), |c: int| self.entities(groups[c]))
    }
}

/// The players that a sequence of references points at.
pub open spec fn players(refs: Seq<&Player>) -> Seq<Player> {
    Seq::new(refs.len(), |j: int| *refs[j])
}

/// The players in each group of references, group by group.
pub open spec fn grouped_players(groups: Seq<Vec<&Player>>) -> Seq<Seq<Player>> {
    Seq::new(groups.len(), |c: int| players(groups[c]@))
}

/// The players of all groups together, as a bag.
pub open spec fn bag(groups: Seq<Seq<Player>>) -> Multiset<Player>
    decreases groups.len(),
{
    if groups.len() == 0 {
        Multiset::empty()
    } else {
        groups.first().to_multiset().add(bag(groups.drop_first()))
    }
}

/// One more edge `(a, b)` changes the neighbours of `node` as `with_edge`
/// says.
pub proof fn lemma_neighbors_push(edges: Seq<(usize, usize)>, a: usize, b: usize, node: usize)
    ensures
        neighbors(edges.push((a, b)), node) == with_edge(neighbors(edges, node), node, a, b),
{
    assert(edges.push((a, b)).drop_last() =~= edges);
}

/// A node that no edge touches has no neighbours.
pub proof fn lemma_neighbors_untouched(edges: Seq<(usize, usize)>, node: usize)
    requires
        forall|e: int|
            0 <= e < edges.len() ==> (#[trigger] edges[e]).0 != node && edges[e].1 != node,
    ensures
        neighbors(edges, node) == Seq::<usize>::empty(),
    decreases edges.len(),
{
    if edges.len() > 0 {
        lemma_neighbors_untouched(edges.drop_last(), node);
    }
}

/// Edges between indices below `n` give every node neighbours below `n`.
proof fn lemma_neighbors_in_range(edges: Seq<(usize, usize)>, n: nat, node: usize)
    requires
        forall|e: int| 0 <= e < edges.len() ==> (#[trigger] edges[e]).0 < n && edges[e].1 < n,
    ensures
        forall|k: int|
            0 <= k < neighbors(edges, node).len() ==> (#[trigger] neighbors(edges, node)[k]) < n,
    decreases edges.len(),
{
    if edges.len() > 0 {
        lemma_neighbors_in_range(edges.drop_last(), n, node);
        let earlier = neighbors(edges.drop_last(), node);
        let (a, b) = edges.last();
        assert(a < n && b < n);
        assert(neighbors(edges, node) == with_edge(earlier, node, a, b));
    }
}

/// The adjacency lists of a well-formed graph name only its own nodes.
pub proof fn lemma_adjacency_valid(g: GraphView)
    requires
        g.wf(),
    ensures
        valid_adjacency(g.adjacency_lists()),
{
    let adj = g.adjacency_lists();
    assert forall|i: int, k: int| 0 <= i < adj.len() && 0 <= k < adj[i].len() implies (
    #[trigger] adj[i][k]) < adj.len() by {
        lemma_neighbors_in_range(g.edges, g.nodes.len(), i as usize);
    }
}

/// One more reference to the entity at `next` extends the entities of `order`
/// by that entity.
pub proof fn lemma_entities_push(
    g: GraphView,
    order: Seq<usize>,
    refs: Seq<&Player>,
    next: usize,
    entity: &Player,
)
    requires
        players(refs) == g.entities(order),
        *entity == g.nodes[next as int],
    ensures
        players(refs.push(entity)) == g.entities(order.push(next)),
{
    let longer = players(refs.push(entity));
    let wanted = g.entities(order.push(next));
    assert(refs.len() == players(refs).len());
    assert forall|j: int| 0 <= j < longer.len() implies longer[j] == wanted[j] by {
        if j < refs.len() {
            assert(players(refs)[j] == *refs[j]);
        }
    }
}

} // verus!
