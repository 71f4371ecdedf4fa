//! The graph itself: nodes, edges, degrees, traversal and components.

use std::collections::{HashMap, HashSet};
use vstd::prelude::*;
use vstd::seq_lib::seq_to_set_distributes_over_add;
use crate::distribution::{lemma_tally_push, lemma_tally_total, tally, total};
use crate::model::{
    bag, grouped_players, lemma_adjacency_valid, lemma_entities_push, lemma_neighbors_push,
    lemma_neighbors_untouched, neighbors, players, with_edge, GraphView,
};
use crate::player::Player;
use crate::traversal::{
    components_from, covers, disjoint_parts, lemma_components_partition, lemma_unseen_insert,
    ordered_by_root, preorder, scan, total_len, unseen, valid_adjacency,
};

verus! {

/// Why an operation on a graph was refused.
#[derive(Debug, Clone, Copy, PartialEq, Eq, Structural)]
pub enum GraphError {
    /// A node index that is not in the graph.
    InvalidIndex,
}

/// An undirected multigraph over players.
///
/// A node is known by its index, which is its position in insertion order and
/// never changes. Each node has an adjacency list: its neighbours in the order
/// in which the edges to them were added. Nothing is ever removed.
pub struct Graph {
    /// The entities, by node index.
    nodes: Vec<Player>,
    /// The adjacency list of each node, by node index.
    adjacency: Vec<Vec<usize>>,
    /// The edges, in the order in which they were added.
    edges: Ghost<Seq<(usize, usize)>>,
}

impl View for Graph {
    type V = GraphView;

    closed spec fn view(&self) -> GraphView {
        GraphView { nodes: self.nodes@, edges: self.edges@ }
    }
}

impl Graph {
    /// Every node has its adjacency list, and the lists are what the edges
    /// that were added make them.
    #[verifier::type_invariant]
    closed spec fn inv(self) -> bool {
        &&& self@.wf()
        &&& self.adjacency@.len() == self.nodes@.len()
        &&& forall|i: int|
            0 <= i < self.adjacency@.len() ==> (#[trigger] self.adjacency@[i])@
                == self@.adjacency(i as usize)
    }

    /// A graph without nodes.
    pub fn new() -> (graph: Self)
        ensures
            graph@.nodes == Seq::<Player>::empty(),
            graph@.edges == Seq::<(usize, usize)>::empty(),
            graph@.wf(),
    {
        Graph { nodes: Vec::new(), adjacency: Vec::new(), edges: Ghost(Seq::empty()) }
    }

    /// Appends `player` as a node without neighbours and returns its index.
    pub fn add_node(&mut self, player: Player) -> (index: usize)
        ensures
            index == old(self)@.nodes.len(),
            final(self)@.nodes == old(self)@.nodes.push(player),
            final(self)@.edges == old(self)@.edges,
            final(self)@.adjacency(index) == Seq::<usize>::empty(),
            final(self)@.wf(),
    {
        proof {
            use_type_invariant(&*self);
        }
        // The parts are changed while they belong to no graph, and then make
        // up the graph again.
        let mut taken = Graph::new();
        std::mem::swap(self, &mut taken);
        let ghost before = taken@;
        let Graph { mut nodes, mut adjacency, edges } = taken;
        let index: usize = nodes.len();
        nodes.push(player);
        adjacency.push(Vec::new());
        proof {
            let after = GraphView { nodes: nodes@, edges: edges@ };
            assert(nodes@.len() == nodes.len());
            assert forall|e: int| 0 <= e < edges@.len() implies (#[trigger] edges@[e]).0 < index
                && edges@[e].1 < index by {
                assert(before.edges[e].0 < before.nodes.len());
            }
            lemma_neighbors_untouched(edges@, index);
            assert forall|i: usize| i < after.nodes.len() implies #[trigger] after.degree(i)
                <= usize::MAX by {
                assert(adjacency@[i as int]@.len() == adjacency@[i as int].len());
            }
        }
        *self = Graph { nodes, adjacency, edges };
        index
    }

    /// The number of nodes.
    pub fn node_count(&self) -> (count: usize)
        ensures
            count == self@.nodes.len(),
            self@.wf(),
    {
        proof {
            use_type_invariant(self);
        }
        self.nodes.len()
    }

    /// Adds an edge between `src` and `dest`: `dest` goes to the end of the
    /// adjacency list of `src`, then `src` to the end of that of `dest`.
    ///
    /// Both must be nodes of the graph. Otherwise the graph stays as it is.
    pub fn add_edge(&mut self, src: usize, dest: usize) -> (result: Result<(), GraphError>)
        ensures
            src < old(self)@.nodes.len() && dest < old(self)@.nodes.len() ==> {
                &&& result is Ok
                &&& final(self)@.nodes == old(self)@.nodes
                &&& final(self)@.edges == old(self)@.edges.push((src, dest))
                &&& final(self)@.adjacency(src).contains(dest)
                &&& final(self)@.adjacency(dest).contains(src)
                &&& forall|node: usize| #[trigger]
                    final(self)@.adjacency(node) == with_edge(
                        old(self)@.adjacency(node),
                        node,
                        src,
                        dest,
                    )
            },
            src >= old(self)@.nodes.len() || dest >= old(self)@.nodes.len() ==> {
                &&& result == Err::<(), GraphError>(GraphError::InvalidIndex)
                &&& final(self)@ == old(self)@
            },
            final(self)@.wf(),
    {
        proof {
            use_type_invariant(&*self);
        }
        if src >= self.nodes.len() || dest >= self.nodes.len() {
            return Err(GraphError::InvalidIndex);
        }
        // The parts are changed while they belong to no graph, and then make
        // up the graph again.
        let mut taken = Graph::new();
        std::mem::swap(self, &mut taken);
        let Graph { nodes, mut adjacency, edges } = taken;
        adjacency[src].push(dest);
        adjacency[dest].push(src);
        proof {
            let after = GraphView { nodes: nodes@, edges: edges@.push((src, dest)) };
            assert forall|i: int| 0 <= i < adjacency@.len() implies (#[trigger] adjacency@[i])@
                == after.adjacency(i as usize) by {
                lemma_neighbors_push(edges@, src, dest, i as usize);
            }
            assert forall|i: usize| i < after.nodes.len() implies #[trigger] after.degree(i)
                <= usize::MAX by {
                assert(adjacency@[i as int]@.len() == adjacency@[i as int].len());
            }
            assert forall|node: usize| #[trigger]
                after.adjacency(node) == with_edge(neighbors(edges@, node), node, src, dest) by {
                lemma_neighbors_push(edges@, src, dest, node);
            }
            let at_src = adjacency@[src as int]@;
            let at_dest = adjacency@[dest as int]@;
            assert(at_dest[at_dest.len() - 1] == src);
            if src != dest {
                assert(at_src[at_src.len() - 1] == dest);
            }
        }
        *self = Graph { nodes, adjacency, edges: Ghost(edges@.push((src, dest))) };
        Ok(())
    }

    /// The number of entries in the adjacency list of `node`.
    pub fn degree(&self, node: usize) -> (result: Result<usize, GraphError>)
        ensures
            node < self@.nodes.len() ==> (result matches Ok(degree) && degree == self@.degree(
                node,
            )),
            node >= self@.nodes.len() ==> result == Err::<usize, GraphError>(
                GraphError::InvalidIndex,
            ),
            self@.wf(),
    {
        proof {
            use_type_invariant(self);
        }
        if node < self.adjacency.len() {
            Ok(self.adjacency[node].len())
        } else {
            Err(GraphError::InvalidIndex)
        }
    }

    /// The entity at `index`.
    pub fn node(&self, index: usize) -> (result: Result<&Player, GraphError>)
        ensures
            index < self@.nodes.len() ==> result == Ok::<&Player, GraphError>(
                &self@.nodes[index as int],
            ),
            index >= self@.nodes.len() ==> result == Err::<&Player, GraphError>(
                GraphError::InvalidIndex,
            ),
            self@.wf(),
    {
        proof {
            use_type_invariant(self);
        }
        if index < self.nodes.len() {
            Ok(&self.nodes[index])
        } else {
            Err(GraphError::InvalidIndex)
        }
    }

    /// The adjacency list of `node`: its neighbours, oldest first.
    pub fn adjacency(&self, node: usize) -> (result: Result<&Vec<usize>, GraphError>)
        ensures
            node < self@.nodes.len() ==> (result matches Ok(list) && list@ == self@.adjacency(
                node,
            )),
            node >= self@.nodes.len() ==> result == Err::<&Vec<usize>, GraphError>(
                GraphError::InvalidIndex,
            ),
            self@.wf(),
    {
        proof {
            use_type_invariant(self);
        }
        if node < self.adjacency.len() {
            Ok(&self.adjacency[node])
        } else {
            Err(GraphError::InvalidIndex)
        }
    }

    /// The degree of each node, by node index.
    pub fn degrees(&self) -> (degrees: Vec<usize>)
        ensures
            degrees@ == self@.degrees(),
            self@.wf(),
    {
        proof {
            use_type_invariant(self);
        }
        let mut degrees: Vec<usize> = Vec::new();
        let mut node: usize = 0;
        while node < self.adjacency.len()
            invariant
                self.adjacency@.len() == self@.nodes.len(),
                forall|i: int|
                    0 <= i < self.adjacency@.len() ==> (#[trigger] self.adjacency@[i])@
                        == self@.adjacency(i as usize),
                node <= self.adjacency@.len(),
                degrees@ == self@.degrees().take(node as int),
            decreases self.adjacency@.len() - node,
        {
            degrees.push(self.adjacency[node].len());
            node += 1;
        }
        degrees
    }

    /// For each degree that some node has, the number of nodes that have it.
    /// The counts add up to the number of nodes.
    pub fn degree_distribution(&self) -> (distribution: HashMap<usize, usize>)
        ensures
            distribution@ == self@.degree_distribution(),
            distribution@.dom().finite(),
            total(distribution@) == self@.nodes.len(),
            self@.wf(),
    {
        broadcast use vstd::std_specs::hash::group_hash_axioms;

        proof {
            use_type_invariant(self);
        }
        let ghost degrees = self@.degrees();
        let mut distribution: HashMap<usize, usize> = HashMap::new();
        let mut node: usize = 0;
        while node < self.adjacency.len()
            invariant
                degrees == self@.degrees(),
                self.adjacency@.len() == self@.nodes.len(),
                forall|i: int|
                    0 <= i < self.adjacency@.len() ==> (#[trigger] self.adjacency@[i])@
                        == self@.adjacency(i as usize),
                node <= self.adjacency@.len(),
                distribution@ == tally(degrees.take(node as int)),
            decreases self.adjacency@.len() - node,
        {
            let degree: usize = self.adjacency[node].len();
            proof {
                assert(degrees.take(node as int + 1) =~= degrees.take(node as int).push(degree));
                lemma_tally_push(degrees.take(node as int), degree);
            }
            let count = distribution.entry(degree).or_insert(0);
            *count += 1;
            node += 1;
        }
        proof {
            assert(degrees.take(node as int) =~= degrees);
            lemma_tally_total(degrees);
        }
        distribution
    }

    /// Traverses the graph depth-first from `node`, with the nodes in
    /// `visited` taken as already visited, and returns the entities reached in
    /// the order in which they are reached: `node` first, then what is reached
    /// through each of its neighbours in adjacency-list order. Every node
    /// reached is added to `visited`.
    ///
    /// `node` must be a node of the graph. Otherwise `visited` stays as it is.
    pub fn dfs(&self, visited: &mut HashSet<usize>, node: usize) -> (result: Result<
        Vec<&Player>,
        GraphError,
    >)
        ensures
            node < self@.nodes.len() ==> {
                let order = preorder(self@.adjacency_lists(), old(visited)@, node);
                &&& result matches Ok(reached) && players(reached@) == self@.entities(order)
                &&& final(visited)@ == old(visited)@.union(order.to_set())
            },
            node >= self@.nodes.len() ==> {
                &&& result == Err::<Vec<&Player>, GraphError>(GraphError::InvalidIndex)
                &&& final(visited)@ == old(visited)@
            },
            self@.wf(),
    {
        broadcast use vstd::std_specs::hash::group_hash_axioms;

        proof {
            use_type_invariant(self);
            lemma_adjacency_valid(self@);
        }
        if node >= self.nodes.len() {
            return Err(GraphError::InvalidIndex);
        }
        let ghost adj = self@.adjacency_lists();
        let ghost seen = visited@;
        let mut reached: Vec<&Player> = Vec::new();
        // A frame `(at, from)` says that the neighbours of `at` from position
        // `from` on are still to be looked at. The innermost frame is last.
        let mut stack: Vec<(usize, usize)> = Vec::new();
        let ghost mut order: Seq<usize> = seq![node];
        reached.push(&self.nodes[node]);
        visited.insert(node);
        stack.push((node, 0));
        proof {
            lemma_set_of_one(node);
            lemma_pending_one(adj, visited@, node, 0);
        }
        while stack.len() > 0
            invariant
                adj == self@.adjacency_lists(),
                valid_adjacency(adj),
                adj.len() == self.nodes@.len(),
                self.adjacency@.len() == adj.len(),
                forall|i: int| 0 <= i < adj.len() ==> (#[trigger] self.adjacency@[i])@ == adj[i],
                valid_frames(adj, stack@),
                order + pending(adj, visited@, stack@) == preorder(adj, seen, node),
                visited@ == seen.union(order.to_set()),
                players(reached@) == self@.entities(order),
            decreases unseen(adj.len(), visited@), stack_weight(adj, stack@),
        {
            let top: usize = stack.len() - 1;
            let (at, from) = stack[top];
            let ghost below = stack@.drop_last();
            let ghost marked = visited@;
            proof {
                assert(stack@ =~= below.push((at, from)));
                lemma_stack_weight_nonnegative(adj, below);
            }
            if from >= self.adjacency[at].len() {
                stack.pop();
                proof {
                    lemma_pending_exhausted(adj, marked, below, at, from);
                }
            } else {
                let next: usize = self.adjacency[at][from];
                stack[top] = (at, from + 1);
                proof {
                    assert(stack@ =~= below.push((at, (from + 1) as usize)));
                    assert(stack@.drop_last() =~= below);
                }
                if !visited.contains(&next) {
                    let ghost refs = reached@;
                    visited.insert(next);
                    reached.push(&self.nodes[next]);
                    stack.push((next, 0));
                    proof {
                        lemma_pending_descend(adj, marked, below, at, from);
                        lemma_entities_push(self@, order, refs, next, &self.nodes[next as int]);
                        lemma_unseen_insert(adj.len(), marked, next);
                        lemma_set_of_one(next);
                        seq_to_set_distributes_over_add(order, seq![next]);
                        assert(order.push(next) =~= order + seq![next]);
                        order = order.push(next);
                    }
                }
            }
        }
        Ok(reached)
    }

    /// The connected components, each as its entities in the order in which
    /// the traversal from its smallest node reaches them; the components
    /// stand in ascending order of that node.
    ///
    /// Every node is in exactly one component, once, so that the components
    /// together hold the entities of the graph, each as often as it is a node.
    pub fn connected_components(&self) -> (components: Vec<Vec<&Player>>)
        ensures
            grouped_players(components@) == self@.grouped_entities(self@.components()),
            disjoint_parts(self@.components()),
            ordered_by_root(self@.components()),
            forall|i: usize| #[trigger] covers(self@.components(), i) <==> i < self@.nodes.len(),
            total_len(self@.components()) == self@.nodes.len(),
            bag(grouped_players(components@)) == self@.nodes.to_multiset(),
            self@.wf(),
    {
        broadcast use vstd::std_specs::hash::group_hash_axioms;

        let ghost adj = self@.adjacency_lists();
        let mut visited: HashSet<usize> = HashSet::new();
        let mut components: Vec<Vec<&Player>> = Vec::new();
        let ghost mut found: Seq<Seq<usize>> = Seq::empty();
        let mut root: usize = 0;
        proof {
            use_type_invariant(self);
            lemma_adjacency_valid(self@);
            lemma_components_partition(adj);
            self@.lemma_components_entities();
        }
        while root < self.nodes.len()
            invariant
                adj == self@.adjacency_lists(),
                valid_adjacency(adj),
                adj.len() == self.nodes@.len(),
                root <= self.nodes@.len(),
                components@.len() == found.len(),
                found + components_from(adj, visited@, root as nat) == self@.components(),
                grouped_players(components@) == self@.grouped_entities(found),
            decreases self.nodes@.len() - root,
        {
            if !visited.contains(&root) {
                let ghost marked = visited@;
                let ghost groups = components@;
                match self.dfs(&mut visited, root) {
                    Ok(component) => {
                        components.push(component);
                        proof {
                            let order = preorder(adj, marked, root);
                            assert(components_from(adj, marked, root as nat) == seq![order]
                                + components_from(adj, visited@, (root + 1) as nat));
                            assert forall|c: int| 0 <= c <= found.len() implies grouped_players(
                                components@,
                            )[c] == self@.grouped_entities(found.push(order))[c] by {
                                if c < found.len() {
                                    assert(grouped_players(groups)[c] == self@.grouped_entities(
                                        found,
                                    )[c]);
                                }
                            }
                            found = found.push(order);
                        }
                    },
                    Err(_) => {},
                }
            }
            root += 1;
        }
        components
    }
}

/// What a traversal still owes for a stack of frames, the innermost last.
/// A frame `(node, from)` stands for the neighbours of `node` from position
/// `from` on.
spec fn pending(adj: Seq<Seq<usize>>, seen: Set<usize>, stack: Seq<(usize, usize)>) -> Seq<usize>
    decreases stack.len(),
{
    if stack.len() == 0 {
        Seq::empty()
    } else {
        let (node, from) = stack.last();
        let inner = scan(adj, seen, node, from as nat);
        inner + pending(adj, seen.union(inner.to_set()), stack.drop_last())
    }
}

/// Each frame names a node and a position in its adjacency list, or its end.
spec fn valid_frames(adj: Seq<Seq<usize>>, stack: Seq<(usize, usize)>) -> bool {
    forall|f: int|
        0 <= f < stack.len() ==> (#[trigger] stack[f]).0 < adj.len() && stack[f].1
            <= adj[stack[f].0 as int].len()
}

/// One for each frame, and one for each neighbour that a frame has not
/// looked at yet.
spec fn stack_weight(adj: Seq<Seq<usize>>, stack: Seq<(usize, usize)>) -> int
    decreases stack.len(),
{
    if stack.len() == 0 {
        0
    } else {
        let (node, from) = stack.last();
        stack_weight(adj, stack.drop_last()) + (adj[node as int].len() - from) + 1
    }
}

proof fn lemma_stack_weight_nonnegative(adj: Seq<Seq<usize>>, stack: Seq<(usize, usize)>)
    requires
        valid_frames(adj, stack),
    ensures
        stack_weight(adj, stack) >= 0,
    decreases stack.len(),
{
    if stack.len() > 0 {
        lemma_stack_weight_nonnegative(adj, stack.drop_last());
    }
}

proof fn lemma_set_of_one(node: usize)
    ensures
        seq![node].to_set() == set![node],
{
    assert(seq![node][0] == node);
}

/// A single frame owes what the scan that it stands for reaches.
proof fn lemma_pending_one(adj: Seq<Seq<usize>>, seen: Set<usize>, node: usize, from: usize)
    ensures
        pending(adj, seen, seq![(node, from)]) == scan(adj, seen, node, from as nat),
{
    let stack = seq![(node, from)];
    let inner = scan(adj, seen, node, from as nat);
    assert(inner + pending(adj, seen.union(inner.to_set()), stack.drop_last()) =~= inner);
}

/// A frame at the end of its adjacency list owes nothing.
proof fn lemma_pending_exhausted(
    adj: Seq<Seq<usize>>,
    seen: Set<usize>,
    below: Seq<(usize, usize)>,
    at: usize,
    from: usize,
)
    requires
        valid_adjacency(adj),
        at < adj.len(),
        from >= adj[at as int].len(),
    ensures
        pending(adj, seen, below.push((at, from))) == pending(adj, seen, below),
{
    let stack = below.push((at, from));
    let inner = scan(adj, seen, at, from as nat);
    assert(stack.drop_last() =~= below);
    assert(seen.union(inner.to_set()) =~= seen);
}

/// A frame at an unvisited neighbour owes that neighbour, then what a new
/// frame for it owes, then what it owes itself from the next one on.
proof fn lemma_pending_descend(
    adj: Seq<Seq<usize>>,
    seen: Set<usize>,
    below: Seq<(usize, usize)>,
    at: usize,
    from: usize,
)
    requires
        valid_adjacency(adj),
        at < adj.len(),
        from < adj[at as int].len(),
        from < usize::MAX,
        !seen.contains(adj[at as int][from as int]),
    ensures
        pending(adj, seen, below.push((at, from))) == seq![adj[at as int][from as int]] + pending(
            adj,
            seen.insert(adj[at as int][from as int]),
            below.push((at, (from + 1) as usize)).push((adj[at as int][from as int], 0)),
        ),
{
    let next = adj[at as int][from as int];
    let upper = below.push((at, (from + 1) as usize));
    let deeper = scan(adj, seen.insert(next), next, 0);
    let first = seq![next] + deeper;
    let after = seen.union(first.to_set());
    let rest = scan(adj, after, at, (from + 1) as nat);
    let tail = pending(adj, after.union(rest.to_set()), below);
    assert(preorder(adj, seen, next) == first);
    lemma_set_of_one(next);
    seq_to_set_distributes_over_add(seq![next], deeper);
    seq_to_set_distributes_over_add(first, rest);
    assert(seen.insert(next).union(deeper.to_set()) =~= after);
    assert(after.union(rest.to_set()) =~= seen.union((first + rest).to_set()));
    assert(below.push((at, from)).drop_last() =~= below);
    assert(upper.drop_last() =~= below);
    assert(upper.push((next, 0)).drop_last() =~= upper);
    assert(pending(adj, after, upper) == rest + tail);
}

} // verus!
