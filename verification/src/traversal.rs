//! Depth-first traversal and connected components of adjacency lists, as
//! mathematics.

use vstd::prelude::*;

verus! {

/// Every entry of every adjacency list is the index of a list, and every
/// index of a list is a `usize`.
pub open spec fn valid_adjacency(adj: Seq<Seq<usize>>) -> bool {
    &&& adj.len() <= usize::MAX
    &&& forall|i: int, k: int|
        0 <= i < adj.len() && 0 <= k < adj[i].len() ==> (#[trigger] adj[i][k]) < adj.len()
}

/// How many indices below `n` are not in `seen`.
pub open spec fn unseen(n: nat, seen: Set<usize>) -> nat
    decreases n,
{
    if n == 0 {
        0
    } else {
        let rest = unseen((n - 1) as nat, seen);
        if seen.contains((n - 1) as usize) {
            rest
        } else {
            rest + 1
        }
    }
}

/// A larger set leaves no more indices unseen.
pub proof fn lemma_unseen_monotone(n: nat, seen: Set<usize>, more: Set<usize>)
    requires
        seen.subset_of(more),
    ensures
        unseen(n, more) <= unseen(n, seen),
    decreases n,
{
    if n > 0 {
        lemma_unseen_monotone((n - 1) as nat, seen, more);
    }
}

/// Marking an index that is not below `n` changes nothing below `n`.
proof fn lemma_unseen_above(n: nat, seen: Set<usize>, node: usize)
    requires
        n <= node,
    ensures
        unseen(n, seen.insert(node)) == unseen(n, seen),
    decreases n,
{
    if n > 0 {
        lemma_unseen_above((n - 1) as nat, seen, node);
    }
}

/// Marking an unseen index below `n` leaves one fewer unseen.
pub proof fn lemma_unseen_insert(n: nat, seen: Set<usize>, node: usize)
    requires
        n <= usize::MAX + 1,
        node < n,
        !seen.contains(node),
    ensures
        unseen(n, seen.insert(node)) + 1 == unseen(n, seen),
    decreases n,
{
    if n - 1 == node {
        lemma_unseen_above((n - 1) as nat, seen, node);
    } else {
        lemma_unseen_insert((n - 1) as nat, seen, node);
    }
}

/// Marking new nodes leaves as many fewer unseen as there are new nodes.
proof fn lemma_unseen_union(n: nat, seen: Set<usize>, order: Seq<usize>)
    requires
        n <= usize::MAX + 1,
        fresh(order, seen, n),
    ensures
        unseen(n, seen.union(order.to_set())) + order.len() == unseen(n, seen),
    decreases order.len(),
{
    if order.len() == 0 {
        assert(seen.union(order.to_set()) =~= seen);
    } else {
        let earlier = order.drop_last();
        let last = order.last();
        let marked = seen.union(earlier.to_set());
        lemma_unseen_union(n, seen, earlier);
        lemma_unseen_insert(n, marked, last);
        assert(order =~= earlier.push(last));
        assert(marked.insert(last) =~= seen.union(order.to_set()));
    }
}

/// When nothing is visited, all indices below `n` are unseen.
proof fn lemma_unseen_all(n: nat)
    ensures
        unseen(n, Set::empty()) == n,
    decreases n,
{
    if n > 0 {
        lemma_unseen_all((n - 1) as nat);
    }
}

/// When every index below `n` is visited, none is unseen.
proof fn lemma_unseen_none(n: nat, seen: Set<usize>)
    requires
        n <= usize::MAX + 1,
        forall|i: usize| i < n ==> seen.contains(i),
    ensures
        unseen(n, seen) == 0,
    decreases n,
{
    if n > 0 {
        lemma_unseen_none((n - 1) as nat, seen);
    }
}

/// The order in which a depth-first traversal from `root` reaches nodes, when
/// the nodes in `seen` are taken as already visited.
///
/// The root comes first, whether or not it is in `seen`. Then its neighbours
/// are taken in adjacency-list order; one that is still unvisited at its turn
/// is traversed in the same way, and what that traversal reaches follows.
pub open spec fn preorder(adj: Seq<Seq<usize>>, seen: Set<usize>, root: usize) -> Seq<usize>
    decreases unseen(adj.len(), seen.insert(root)), adj[root as int].len() + 1,
    when valid_adjacency(adj) && root < adj.len()
{
    seq![root] + scan(adj, seen.insert(root), root, 0)
}

/// What the traversal reaches through the neighbours of `node` from position
/// `from` on, when the nodes in `seen` are taken as already visited.
pub open spec fn scan(adj: Seq<Seq<usize>>, seen: Set<usize>, node: usize, from: nat) -> Seq<usize>
    decreases unseen(adj.len(), seen), adj[node as int].len() - from,
    when valid_adjacency(adj) && node < adj.len()
{
    if from >= adj[node as int].len() {
        Seq::empty()
    } else {
        let next = adj[node as int][from as int];
        if seen.contains(next) {
            scan(adj, seen, node, from + 1)
        } else {
            proof {
                lemma_unseen_insert(adj.len(), seen, next);
            }
            let below = preorder(adj, seen, next);
            let seen_below = seen.union(below.to_set());
            proof {
                lemma_unseen_monotone(adj.len(), seen, seen_below);
            }
            below + scan(adj, seen_below, node, from + 1)
        }
    }
}

/// The components that a scan of the roots from `start` on finds, when the
/// nodes in `seen` are taken as already visited.
pub open spec fn components_from(adj: Seq<Seq<usize>>, seen: Set<usize>, start: nat) -> Seq<
    Seq<usize>,
>
    decreases adj.len() - start,
{
    if start >= adj.len() {
        Seq::empty()
    } else if seen.contains(start as usize) {
        components_from(adj, seen, start + 1)
    } else {
        let found = preorder(adj, seen, start as usize);
        seq![found] + components_from(adj, seen.union(found.to_set()), start + 1)
    }
}

/// The connected components: roots are tried in ascending index order, and
/// each root that no earlier component holds gives the component that the
/// traversal from it reaches.
pub open spec fn components(adj: Seq<Seq<usize>>) -> Seq<Seq<usize>> {
    components_from(adj, Set::empty(), 0)
}

/// `order` holds no node twice, only indices below `n`, and none from `seen`.
pub open spec fn fresh(order: Seq<usize>, seen: Set<usize>, n: nat) -> bool {
    &&& order.no_duplicates()
    &&& forall|j: int|
        0 <= j < order.len() ==> (#[trigger] order[j]) < n && !seen.contains(order[j])
}

/// What a scan reaches is new: no node twice, and none that was already
/// visited.
proof fn lemma_scan_fresh(adj: Seq<Seq<usize>>, seen: Set<usize>, node: usize, from: nat)
    requires
        valid_adjacency(adj),
        node < adj.len(),
    ensures
        fresh(scan(adj, seen, node, from), seen, adj.len()),
    decreases unseen(adj.len(), seen), adj[node as int].len() - from,
{
    if from < adj[node as int].len() {
        let next = adj[node as int][from as int];
        if seen.contains(next) {
            lemma_scan_fresh(adj, seen, node, from + 1);
        } else {
            lemma_unseen_insert(adj.len(), seen, next);
            let deeper = scan(adj, seen.insert(next), next, 0);
            lemma_scan_fresh(adj, seen.insert(next), next, 0);
            let below = seq![next] + deeper;
            assert(below == preorder(adj, seen, next));
            let seen_below = seen.union(below.to_set());
            lemma_unseen_monotone(adj.len(), seen, seen_below);
            let rest = scan(adj, seen_below, node, from + 1);
            lemma_scan_fresh(adj, seen_below, node, from + 1);
            assert(scan(adj, seen, node, from) == below + rest);
        }
    }
}

/// A traversal starts at its root and reaches no node twice; what follows
/// the root was not visited before.
pub proof fn lemma_preorder_fresh(adj: Seq<Seq<usize>>, seen: Set<usize>, root: usize)
    requires
        valid_adjacency(adj),
        root < adj.len(),
    ensures
        preorder(adj, seen, root).len() > 0,
        preorder(adj, seen, root)[0] == root,
        preorder(adj, seen, root).no_duplicates(),
        forall|j: int|
            0 <= j < preorder(adj, seen, root).len() ==> (#[trigger] preorder(adj, seen, root)[j])
                < adj.len(),
        forall|j: int|
            1 <= j < preorder(adj, seen, root).len() ==> !seen.contains(
                #[trigger] preorder(adj, seen, root)[j],
            ),
{
    lemma_scan_fresh(adj, seen.insert(root), root, 0);
    assert(preorder(adj, seen, root) == seq![root] + scan(adj, seen.insert(root), root, 0));
}

/// Some part holds `node`.
pub open spec fn covers(parts: Seq<Seq<usize>>, node: usize) -> bool {
    exists|c: int, k: int|
        0 <= c < parts.len() && 0 <= k < parts[c].len() && #[trigger] parts[c][k] == node
}

/// No node stands at two places, be it in one part or in two.
pub open spec fn disjoint_parts(parts: Seq<Seq<usize>>) -> bool {
    forall|c: int, k: int, d: int, l: int|
        0 <= c < parts.len() && 0 <= k < parts[c].len() && 0 <= d < parts.len() && 0 <= l
            < parts[d].len() && #[trigger] parts[c][k] == #[trigger] parts[d][l] ==> c == d && k
            == l
}

/// Each part begins with its smallest node, and the parts stand in ascending
/// order of that node.
pub open spec fn ordered_by_root(parts: Seq<Seq<usize>>) -> bool {
    &&& forall|c: int| 0 <= c < parts.len() ==> (#[trigger] parts[c]).len() > 0
    &&& forall|c: int, k: int|
        0 <= c < parts.len() && 0 < k < parts[c].len() ==> parts[c][0] < #[trigger] parts[c][k]
    &&& forall|c: int, d: int|
        0 <= c < d < parts.len() ==> (#[trigger] parts[c])[0] < (#[trigger] parts[d])[0]
}

/// The components found from `start` on hold exactly the nodes that were not
/// visited before, each once, and are ordered by their roots, when every
/// index below `start` was visited before.
proof fn lemma_components_from_partition(adj: Seq<Seq<usize>>, seen: Set<usize>, start: nat)
    requires
        valid_adjacency(adj),
        start <= adj.len(),
        forall|i: usize| i < start ==> seen.contains(i),
    ensures
        disjoint_parts(components_from(adj, seen, start)),
        ordered_by_root(components_from(adj, seen, start)),
        forall|c: int|
            0 <= c < components_from(adj, seen, start).len() ==> start <= (
            #[trigger] components_from(adj, seen, start)[c])[0],
        forall|i: usize| #[trigger]
            covers(components_from(adj, seen, start), i) <==> i < adj.len() && !seen.contains(i),
    decreases adj.len() - start,
{
    let parts = components_from(adj, seen, start);
    if start >= adj.len() {
        // No part, and every node was visited before.
    } else if seen.contains(start as usize) {
        lemma_components_from_partition(adj, seen, start + 1);
    } else {
        let root = start as usize;
        let found = preorder(adj, seen, root);
        let marked = seen.union(found.to_set());
        let later = components_from(adj, marked, start + 1);
        lemma_preorder_fresh(adj, seen, root);
        lemma_components_from_partition(adj, marked, start + 1);
        assert(parts[0] == found);
        // The nodes of the later parts are not in `marked`, so not in `found`.
        assert forall|d: int, l: int|
            0 <= d < later.len() && 0 <= l < later[d].len() implies !marked.contains(
            #[trigger] later[d][l],
        ) && later[d][l] < adj.len() by {
            assert(covers(later, later[d][l]));
        }
        assert forall|i: usize| covers(parts, i) <==> i < adj.len() && !seen.contains(i) by {
            if i < adj.len() && !seen.contains(i) && !found.contains(i) {
                assert(covers(later, i));
                let (c, k) = choose|c: int, k: int|
                    0 <= c < later.len() && 0 <= k < later[c].len() && #[trigger] later[c][k] == i;
                assert(parts[c + 1][k] == i);
            }
        }
    }
}

/// The number of nodes in all parts together.
pub open spec fn total_len(parts: Seq<Seq<usize>>) -> nat
    decreases parts.len(),
{
    if parts.len() == 0 {
        0
    } else {
        parts.first().len() + total_len(parts.drop_first())
    }
}

/// The components found from `start` on have as many nodes as were not
/// visited before, when every index below `start` was visited before.
proof fn lemma_components_from_size(adj: Seq<Seq<usize>>, seen: Set<usize>, start: nat)
    requires
        valid_adjacency(adj),
        forall|i: usize| i < start ==> seen.contains(i),
    ensures
        total_len(components_from(adj, seen, start)) == unseen(adj.len(), seen),
    decreases adj.len() - start,
{
    if start >= adj.len() {
        lemma_unseen_none(adj.len(), seen);
    } else if seen.contains(start as usize) {
        lemma_components_from_size(adj, seen, start + 1);
    } else {
        let root = start as usize;
        let found = preorder(adj, seen, root);
        let marked = seen.union(found.to_set());
        let later = components_from(adj, marked, start + 1);
        let parts = seq![found] + later;
        lemma_preorder_fresh(adj, seen, root);
        lemma_unseen_union(adj.len(), seen, found);
        lemma_components_from_size(adj, marked, start + 1);
        assert(parts.drop_first() =~= later);
    }
}

/// The connected components are a partition of the nodes: every node is in
/// exactly one component, once, so that the components together have as many
/// nodes as the graph. Each component begins with its smallest node, and the
/// components stand in ascending order of that node.
pub proof fn lemma_components_partition(adj: Seq<Seq<usize>>)
    requires
        valid_adjacency(adj),
    ensures
        disjoint_parts(components(adj)),
        ordered_by_root(components(adj)),
        forall|i: usize| #[trigger] covers(components(adj), i) <==> i < adj.len(),
        total_len(components(adj)) == adj.len(),
{
    lemma_components_from_partition(adj, Set::empty(), 0);
    lemma_components_from_size(adj, Set::empty(), 0);
    lemma_unseen_all(adj.len());
}

} // verus!
