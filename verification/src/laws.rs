//! What holds of every graph.

use vstd::multiset::Multiset;
use vstd::prelude::*;
use crate::distribution::{lemma_tally_total, total};
use crate::model::{
    bag, degree_sum, lemma_adjacency_valid, lemma_neighbors_push, neighbors, GraphView,
};
use crate::player::Player;
use crate::reach::{
    connected, lemma_components_are_classes, lemma_preorder_reaches, reaches, same_part, symmetric,
};
use crate::traversal::{
    components_from, covers, disjoint_parts, fresh, lemma_components_partition,
    lemma_preorder_fresh, ordered_by_root, preorder, total_len,
};

verus! {

impl GraphView {
    /// The degrees add up to twice the number of edges that were added.
    pub proof fn lemma_handshake(self)
        requires
            self.wf(),
        ensures
            self.total_degree() == 2 * self.edges.len(),
    {
        lemma_degree_sum_edges(self.edges, self.nodes.len());
    }

    /// The counts of the degree distribution add up to the number of nodes.
    pub proof fn lemma_degree_distribution_total(self)
        requires
            self.wf(),
        ensures
            self.degree_distribution().dom().finite(),
            total(self.degree_distribution()) == self.nodes.len(),
    {
        lemma_tally_total(self.degrees());
    }

    /// A traversal from `root` starts at `root`, reaches no node twice, and
    /// reaches exactly the nodes to which a walk leads from `root` that, after
    /// `root`, stays out of the nodes in `seen`.
    pub proof fn lemma_traversal_reaches(self, seen: Set<usize>, root: usize)
        requires
            self.wf(),
            root < self.nodes.len(),
        ensures
            preorder(self.adjacency_lists(), seen, root)[0] == root,
            preorder(self.adjacency_lists(), seen, root).no_duplicates(),
            forall|w: usize| #[trigger]
                preorder(self.adjacency_lists(), seen, root).contains(w) <==> reaches(
                    self.adjacency_lists(),
                    seen,
                    root,
                    w,
                ),
    {
        lemma_adjacency_valid(self);
        lemma_preorder_fresh(self.adjacency_lists(), seen, root);
        lemma_preorder_reaches(self.adjacency_lists(), seen, root);
    }

    /// The connected components are a partition of the nodes: every node is
    /// in exactly one component, once, so that the components together have
    /// as many nodes as the graph. Each component begins with its smallest
    /// node, and the components stand in ascending order of that node.
    pub proof fn lemma_components_partition(self)
        requires
            self.wf(),
        ensures
            disjoint_parts(self.components()),
            ordered_by_root(self.components()),
            forall|i: usize| #[trigger] covers(self.components(), i) <==> i < self.nodes.len(),
            total_len(self.components()) == self.nodes.len(),
    {
        lemma_adjacency_valid(self);
        lemma_components_partition(self.adjacency_lists());
    }

    /// The entities of all connected components together are the entities of
    /// the graph: each as often as it is a node.
    pub proof fn lemma_components_entities(self)
        requires
            self.wf(),
        ensures
            bag(self.grouped_entities(self.components())) == self.nodes.to_multiset(),
    {
        lemma_components_from_bag(self, Set::empty(), 0);
        lemma_unseen_entities_all(self.nodes, self.nodes.len());
        assert(self.nodes.take(self.nodes.len() as int) =~= self.nodes);
    }

    /// Two nodes are in one connected component exactly if a walk along
    /// edges leads from one to the other.
    pub proof fn lemma_components_connected(self, a: usize, b: usize)
        requires
            self.wf(),
            a < self.nodes.len(),
            b < self.nodes.len(),
        ensures
            same_part(self.components(), a, b) <==> connected(self.adjacency_lists(), a, b),
    {
        lemma_adjacency_valid(self);
        lemma_adjacency_lists_symmetric(self);
        lemma_components_are_classes(self.adjacency_lists(), a, b);
    }

    /// A graph without nodes has an empty degree distribution and no
    /// connected component.
    pub proof fn lemma_empty(self)
        requires
            self.nodes.len() == 0,
        ensures
            self.degree_distribution() == Map::<usize, usize>::empty(),
            self.components() == Seq::<Seq<usize>>::empty(),
    {
    }
}

/// `b` is a neighbour of `a` exactly if an edge between the two was added, in
/// either direction.
pub proof fn lemma_neighbor_iff_edge(edges: Seq<(usize, usize)>, a: usize, b: usize)
    ensures
        neighbors(edges, a).contains(b) <==> edges.contains((a, b)) || edges.contains((b, a)),
    decreases edges.len(),
{
    if edges.len() > 0 {
        let earlier = edges.drop_last();
        let (x, y) = edges.last();
        lemma_neighbor_iff_edge(earlier, a, b);
        assert(edges =~= earlier.push((x, y)));
        let before = neighbors(earlier, a);
        let forward = if x == a { before.push(y) } else { before };
        lemma_push_contains(before, y, b);
        lemma_push_contains(forward, x, b);
    }
}

/// Adjacency is symmetric: `b` is a neighbour of `a` exactly if `a` is a
/// neighbour of `b`.
pub proof fn lemma_adjacency_symmetric(g: GraphView, a: usize, b: usize)
    ensures
        g.adjacency(a).contains(b) <==> g.adjacency(b).contains(a),
{
    lemma_neighbor_iff_edge(g.edges, a, b);
    lemma_neighbor_iff_edge(g.edges, b, a);
}

/// The adjacency lists of a well-formed graph are symmetric.
pub proof fn lemma_adjacency_lists_symmetric(g: GraphView)
    requires
        g.wf(),
    ensures
        symmetric(g.adjacency_lists()),
{
    let adj = g.adjacency_lists();
    lemma_adjacency_valid(g);
    assert forall|a: int, k: int| 0 <= a < adj.len() && 0 <= k < adj[a].len() implies adj[(
    #[trigger] adj[a][k]) as int].contains(a as usize) by {
        lemma_adjacency_symmetric(g, a as usize, adj[a][k]);
    }
}

/// A sequence with one more item holds what it held before, and that item.
proof fn lemma_push_contains<T>(items: Seq<T>, last: T, wanted: T)
    ensures
        items.push(last).contains(wanted) <==> items.contains(wanted) || last == wanted,
{
    let longer = items.push(last);
    if items.contains(wanted) {
        let i = choose|i: int| 0 <= i < items.len() && items[i] == wanted;
        assert(longer[i] == wanted);
    }
    if last == wanted {
        assert(longer[items.len() as int] == wanted);
    }
}

/// Without edges every degree sum is zero.
proof fn lemma_degree_sum_none(upto: nat)
    ensures
        degree_sum(Seq::empty(), upto) == 0,
    decreases upto,
{
    if upto > 0 {
        lemma_degree_sum_none((upto - 1) as nat);
    }
}

/// One more edge adds one to the degree sum for each of its ends below
/// `upto`.
proof fn lemma_degree_sum_push(edges: Seq<(usize, usize)>, a: usize, b: usize, upto: nat)
    requires
        upto <= usize::MAX + 1,
    ensures
        degree_sum(edges.push((a, b)), upto) == degree_sum(edges, upto) + (if a < upto {
            1nat
        } else {
            0nat
        }) + (if b < upto {
            1nat
        } else {
            0nat
        }),
    decreases upto,
{
    if upto > 0 {
        lemma_degree_sum_push(edges, a, b, (upto - 1) as nat);
        lemma_neighbors_push(edges, a, b, (upto - 1) as usize);
    }
}

/// Edges between nodes below `n` give the nodes below `n` degrees that add
/// up to twice the number of edges.
proof fn lemma_degree_sum_edges(edges: Seq<(usize, usize)>, n: nat)
    requires
        n <= usize::MAX,
        forall|e: int| 0 <= e < edges.len() ==> (#[trigger] edges[e]).0 < n && edges[e].1 < n,
    ensures
        degree_sum(edges, n) == 2 * edges.len(),
    decreases edges.len(),
{
    if edges.len() == 0 {
        assert(edges =~= Seq::<(usize, usize)>::empty());
        lemma_degree_sum_none(n);
    } else {
        let earlier = edges.drop_last();
        let (a, b) = edges.last();
        lemma_degree_sum_edges(earlier, n);
        assert(edges =~= earlier.push((a, b)));
        lemma_degree_sum_push(earlier, a, b, n);
    }
}

/// The entities at the indices below `n` that are not in `seen`, as a bag.
spec fn unseen_entities(nodes: Seq<Player>, n: nat, seen: Set<usize>) -> Multiset<Player>
    decreases n,
{
    if n == 0 {
        Multiset::empty()
    } else {
        let rest = unseen_entities(nodes, (n - 1) as nat, seen);
        if seen.contains((n - 1) as usize) {
            rest
        } else {
            rest.insert(nodes[n - 1])
        }
    }
}

/// When nothing is visited, the entities below `n` are all unseen.
proof fn lemma_unseen_entities_all(nodes: Seq<Player>, n: nat)
    requires
        n <= nodes.len(),
    ensures
        unseen_entities(nodes, n, Set::empty()) == nodes.take(n as int).to_multiset(),
    decreases n,
{
    broadcast use vstd::seq_lib::group_to_multiset_ensures;

    if n == 0 {
        assert(nodes.take(0) =~= Seq::<Player>::empty());
    } else {
        lemma_unseen_entities_all(nodes, (n - 1) as nat);
        assert(nodes.take(n as int) =~= nodes.take(n - 1).push(nodes[n - 1]));
    }
}

/// When every index below `n` is visited, no entity is unseen.
proof fn lemma_unseen_entities_none(nodes: Seq<Player>, n: nat, seen: Set<usize>)
    requires
        n <= usize::MAX + 1,
        forall|i: usize| i < n ==> seen.contains(i),
    ensures
        unseen_entities(nodes, n, seen) == Multiset::<Player>::empty(),
    decreases n,
{
    if n > 0 {
        lemma_unseen_entities_none(nodes, (n - 1) as nat, seen);
    }
}

/// Marking an index that is not below `n` changes nothing below `n`.
proof fn lemma_unseen_entities_above(nodes: Seq<Player>, n: nat, seen: Set<usize>, node: usize)
    requires
        n <= node,
    ensures
        unseen_entities(nodes, n, seen.insert(node)) == unseen_entities(nodes, n, seen),
    decreases n,
{
    if n > 0 {
        lemma_unseen_entities_above(nodes, (n - 1) as nat, seen, node);
    }
}

/// Marking an unseen index below `n` takes its entity out of the unseen.
proof fn lemma_unseen_entities_insert(nodes: Seq<Player>, n: nat, seen: Set<usize>, node: usize)
    requires
        n <= usize::MAX + 1,
        node < n,
        !seen.contains(node),
    ensures
        unseen_entities(nodes, n, seen.insert(node)).insert(nodes[node as int]) == unseen_entities(
            nodes,
            n,
            seen,
        ),
    decreases n,
{
    if n - 1 == node {
        lemma_unseen_entities_above(nodes, (n - 1) as nat, seen, node);
    } else {
        lemma_unseen_entities_insert(nodes, (n - 1) as nat, seen, node);
        let rest = unseen_entities(nodes, (n - 1) as nat, seen.insert(node));
        assert(rest.insert(nodes[n - 1]).insert(nodes[node as int]) =~= rest.insert(
            nodes[node as int],
        ).insert(nodes[n - 1]));
    }
}

/// Marking new nodes takes their entities out of the unseen.
proof fn lemma_unseen_entities_union(g: GraphView, seen: Set<usize>, order: Seq<usize>)
    requires
        g.wf(),
        fresh(order, seen, g.nodes.len()),
    ensures
        unseen_entities(g.nodes, g.nodes.len(), seen.union(order.to_set())).add(
            g.entities(order).to_multiset(),
        ) == unseen_entities(g.nodes, g.nodes.len(), seen),
    decreases order.len(),
{
    broadcast use vstd::seq_lib::group_to_multiset_ensures;

    let n = g.nodes.len();
    if order.len() == 0 {
        assert(seen.union(order.to_set()) =~= seen);
        assert(g.entities(order) =~= Seq::<Player>::empty());
        assert(unseen_entities(g.nodes, n, seen).add(Seq::<Player>::empty().to_multiset())
            =~= unseen_entities(g.nodes, n, seen));
    } else {
        let earlier = order.drop_last();
        let last = order.last();
        let marked = seen.union(earlier.to_set());
        lemma_unseen_entities_union(g, seen, earlier);
        lemma_unseen_entities_insert(g.nodes, n, marked, last);
        assert(order =~= earlier.push(last));
        assert(marked.insert(last) =~= seen.union(order.to_set()));
        assert(g.entities(order) =~= g.entities(earlier).push(g.nodes[last as int]));
        let after = unseen_entities(g.nodes, n, marked.insert(last));
        assert(after.add(g.entities(earlier).to_multiset().insert(g.nodes[last as int]))
            =~= after.insert(g.nodes[last as int]).add(g.entities(earlier).to_multiset()));
    }
}

/// The components found from `start` on hold the entities that were not
/// visited before, when every index below `start` was visited before.
proof fn lemma_components_from_bag(g: GraphView, seen: Set<usize>, start: nat)
    requires
        g.wf(),
        forall|i: usize| i < start ==> seen.contains(i),
    ensures
        bag(g.grouped_entities(components_from(g.adjacency_lists(), seen, start)))
            == unseen_entities(g.nodes, g.nodes.len(), seen),
    decreases g.nodes.len() - start,
{
    let adj = g.adjacency_lists();
    let n = g.nodes.len();
    lemma_adjacency_valid(g);
    if start >= n {
        lemma_unseen_entities_none(g.nodes, n, seen);
        assert(g.grouped_entities(components_from(adj, seen, start)) =~= Seq::<
            Seq<Player>,
        >::empty());
    } else if seen.contains(start as usize) {
        lemma_components_from_bag(g, seen, start + 1);
    } else {
        let root = start as usize;
        let found = preorder(adj, seen, root);
        let marked = seen.union(found.to_set());
        let later = components_from(adj, marked, start + 1);
        lemma_preorder_fresh(adj, seen, root);
        lemma_unseen_entities_union(g, seen, found);
        lemma_components_from_bag(g, marked, start + 1);
        let groups = g.grouped_entities(seq![found] + later);
        assert(groups.first() == g.entities(found));
        assert(groups.drop_first() =~= g.grouped_entities(later));
        assert(g.entities(found).to_multiset().add(unseen_entities(g.nodes, n, marked))
            =~= unseen_entities(g.nodes, n, marked).add(g.entities(found).to_multiset()));
    }
}

} // verus!
