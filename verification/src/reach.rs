//! Walks along edges, and what a traversal has to do with them.

use vstd::prelude::*;
use vstd::seq_lib::seq_to_set_distributes_over_add;
use crate::traversal::{
    components, components_from, covers, lemma_components_partition, lemma_preorder_fresh,
    lemma_unseen_insert, lemma_unseen_monotone, preorder, scan, unseen, valid_adjacency,
};

verus! {

/// `path` is a walk: it has a first node, names only nodes, and each node of
/// it is followed by one of that node's neighbours.
pub open spec fn is_walk(adj: Seq<Seq<usize>>, path: Seq<usize>) -> bool {
    &&& path.len() > 0
    &&& forall|j: int| 0 <= j < path.len() ==> (#[trigger] path[j]) < adj.len()
    &&& forall|j: int|
        0 <= j < path.len() - 1 ==> adj[(#[trigger] path[j]) as int].contains(path[j + 1])
}

/// No node of `path` after the first is in `seen`.
pub open spec fn avoids(path: Seq<usize>, seen: Set<usize>) -> bool {
    forall|j: int| 1 <= j < path.len() ==> !seen.contains(#[trigger] path[j])
}

/// `path` is a walk from `from` to `to` that, after its first node, stays
/// out of `seen`.
pub open spec fn walks(
    adj: Seq<Seq<usize>>,
    seen: Set<usize>,
    from: usize,
    to: usize,
    path: Seq<usize>,
) -> bool {
    &&& is_walk(adj, path)
    &&& path[0] == from
    &&& path.last() == to
    &&& avoids(path, seen)
}

/// Some walk leads from `from` to `to` and, after its first node, stays out
/// of `seen`.
pub open spec fn reaches(adj: Seq<Seq<usize>>, seen: Set<usize>, from: usize, to: usize) -> bool {
    exists|path: Seq<usize>| #[trigger] walks(adj, seen, from, to, path)
}

/// A walk that stays out of a set stays out of each of its subsets.
pub proof fn lemma_reaches_weaken(
    adj: Seq<Seq<usize>>,
    seen: Set<usize>,
    fewer: Set<usize>,
    from: usize,
    to: usize,
)
    requires
        fewer.subset_of(seen),
        reaches(adj, seen, from, to),
    ensures
        reaches(adj, fewer, from, to),
{
    let path = choose|path: Seq<usize>| #[trigger] walks(adj, seen, from, to, path);
    assert(walks(adj, fewer, from, to, path));
}

/// A walk can be entered one edge earlier.
pub proof fn lemma_reaches_step(
    adj: Seq<Seq<usize>>,
    seen: Set<usize>,
    from: usize,
    via: usize,
    to: usize,
)
    requires
        from < adj.len(),
        adj[from as int].contains(via),
        !seen.contains(via),
        reaches(adj, seen, via, to),
    ensures
        reaches(adj, seen, from, to),
{
    let path = choose|path: Seq<usize>| #[trigger] walks(adj, seen, via, to, path);
    let longer = seq![from] + path;
    assert(walks(adj, seen, from, to, longer));
}

/// Every node is reached from itself.
pub proof fn lemma_reaches_self(adj: Seq<Seq<usize>>, seen: Set<usize>, node: usize)
    requires
        node < adj.len(),
    ensures
        reaches(adj, seen, node, node),
{
    assert(walks(adj, seen, node, node, seq![node]));
}

/// Whatever a scan of `node`'s neighbours reaches, a walk from `node` reaches
/// that stays out of `seen`.
proof fn lemma_scan_sound(adj: Seq<Seq<usize>>, seen: Set<usize>, node: usize, from: nat)
    requires
        valid_adjacency(adj),
        node < adj.len(),
    ensures
        forall|w: usize| #[trigger]
            scan(adj, seen, node, from).contains(w) ==> reaches(adj, seen, node, w),
    decreases unseen(adj.len(), seen), adj[node as int].len() - from,
{
    if from < adj[node as int].len() {
        let next = adj[node as int][from as int];
        if seen.contains(next) {
            lemma_scan_sound(adj, seen, node, from + 1);
            assert(scan(adj, seen, node, from) == scan(adj, seen, node, from + 1));
        } else {
            lemma_unseen_insert(adj.len(), seen, next);
            let deeper = scan(adj, seen.insert(next), next, 0);
            lemma_scan_sound(adj, seen.insert(next), next, 0);
            let below = seq![next] + deeper;
            assert(below == preorder(adj, seen, next));
            let seen_below = seen.union(below.to_set());
            lemma_unseen_monotone(adj.len(), seen, seen_below);
            let rest = scan(adj, seen_below, node, from + 1);
            lemma_scan_sound(adj, seen_below, node, from + 1);
            let all = below + rest;
            assert forall|w: usize| #[trigger] all.contains(w) implies reaches(
                adj,
                seen,
                node,
                w,
            ) by {
                let j = choose|j: int| 0 <= j < all.len() && all[j] == w;
                if j == 0 {
                    lemma_reaches_self(adj, seen, next);
                    lemma_reaches_step(adj, seen, node, next, w);
                } else if j < below.len() {
                    assert(deeper.contains(w));
                    lemma_reaches_weaken(adj, seen.insert(next), seen, next, w);
                    lemma_reaches_step(adj, seen, node, next, w);
                } else {
                    assert(rest.contains(w));
                    lemma_reaches_weaken(adj, seen_below, seen, node, w);
                }
            }
        }
    }
}

/// After a scan of `node`'s neighbours from `from` on, those neighbours are
/// visited, and so is every neighbour of every node that the scan reached.
proof fn lemma_scan_closed(adj: Seq<Seq<usize>>, seen: Set<usize>, node: usize, from: nat)
    requires
        valid_adjacency(adj),
        node < adj.len(),
    ensures
        forall|k: int|
            from <= k < adj[node as int].len() ==> seen.union(
                scan(adj, seen, node, from).to_set(),
            ).contains(#[trigger] adj[node as int][k]),
        forall|w: usize, k: int|
            scan(adj, seen, node, from).contains(w) && 0 <= k < adj[w as int].len() ==> seen.union(
                scan(adj, seen, node, from).to_set(),
            ).contains(#[trigger] adj[w as int][k]),
    decreases unseen(adj.len(), seen), adj[node as int].len() - from,
{
    if from < adj[node as int].len() {
        let next = adj[node as int][from as int];
        if seen.contains(next) {
            lemma_scan_closed(adj, seen, node, from + 1);
        } else {
            lemma_unseen_insert(adj.len(), seen, next);
            let deeper = scan(adj, seen.insert(next), next, 0);
            lemma_scan_closed(adj, seen.insert(next), next, 0);
            let below = seq![next] + deeper;
            assert(below == preorder(adj, seen, next));
            let seen_below = seen.union(below.to_set());
            lemma_unseen_monotone(adj.len(), seen, seen_below);
            let rest = scan(adj, seen_below, node, from + 1);
            lemma_scan_closed(adj, seen_below, node, from + 1);
            assert(scan(adj, seen, node, from) == below + rest);
            seq_to_set_distributes_over_add(seq![next], deeper);
            seq_to_set_distributes_over_add(below, rest);
            assert(seq![next].to_set() =~= set![next]) by {
                assert(seq![next][0] == next);
            }
        }
    }
}

/// After a traversal, every neighbour of every node that it reached is
/// visited.
pub proof fn lemma_preorder_closed(adj: Seq<Seq<usize>>, seen: Set<usize>, root: usize)
    requires
        valid_adjacency(adj),
        root < adj.len(),
    ensures
        forall|w: usize, k: int|
            preorder(adj, seen, root).contains(w) && 0 <= k < adj[w as int].len() ==> seen.union(
                preorder(adj, seen, root).to_set(),
            ).contains(#[trigger] adj[w as int][k]),
{
    let deeper = scan(adj, seen.insert(root), root, 0);
    lemma_scan_closed(adj, seen.insert(root), root, 0);
    assert(preorder(adj, seen, root) == seq![root] + deeper);
    seq_to_set_distributes_over_add(seq![root], deeper);
    assert(seq![root].to_set() =~= set![root]) by {
        assert(seq![root][0] == root);
    }
}

/// Every node of a walk from `root` that stays out of `seen` is reached by
/// the traversal from `root`.
proof fn lemma_walk_in_preorder(
    adj: Seq<Seq<usize>>,
    seen: Set<usize>,
    root: usize,
    path: Seq<usize>,
    upto: int,
)
    requires
        valid_adjacency(adj),
        root < adj.len(),
        is_walk(adj, path),
        path[0] == root,
        avoids(path, seen),
        0 <= upto < path.len(),
    ensures
        preorder(adj, seen, root).contains(path[upto]),
    decreases upto,
{
    lemma_preorder_fresh(adj, seen, root);
    if upto > 0 {
        lemma_walk_in_preorder(adj, seen, root, path, upto - 1);
        lemma_preorder_closed(adj, seen, root);
        assert(adj[path[upto - 1] as int].contains(path[upto]));
    }
}

/// A traversal from `root` reaches exactly the nodes to which a walk leads
/// from `root` that, after `root`, stays out of the nodes visited before.
pub proof fn lemma_preorder_reaches(adj: Seq<Seq<usize>>, seen: Set<usize>, root: usize)
    requires
        valid_adjacency(adj),
        root < adj.len(),
    ensures
        forall|w: usize| #[trigger]
            preorder(adj, seen, root).contains(w) <==> reaches(adj, seen, root, w),
{
    let order = preorder(adj, seen, root);
    let deeper = scan(adj, seen.insert(root), root, 0);
    lemma_scan_sound(adj, seen.insert(root), root, 0);
    assert forall|w: usize| #[trigger] order.contains(w) implies reaches(adj, seen, root, w) by {
        let j = choose|j: int| 0 <= j < order.len() && order[j] == w;
        if j == 0 {
            lemma_reaches_self(adj, seen, root);
        } else {
            assert(deeper.contains(w));
            lemma_reaches_weaken(adj, seen.insert(root), seen, root, w);
        }
    }
    assert forall|w: usize| reaches(adj, seen, root, w) implies #[trigger] order.contains(w) by {
        let path = choose|path: Seq<usize>| #[trigger] walks(adj, seen, root, w, path);
        lemma_walk_in_preorder(adj, seen, root, path, path.len() - 1);
    }
}

/// Whenever a node has a neighbour, it is a neighbour of that neighbour.
pub open spec fn symmetric(adj: Seq<Seq<usize>>) -> bool {
    forall|a: int, k: int|
        0 <= a < adj.len() && 0 <= k < adj[a].len() ==> adj[(#[trigger] adj[a][k]) as int].contains(
            a as usize,
        )
}

/// Some walk leads from `a` to `b`.
pub open spec fn connected(adj: Seq<Seq<usize>>, a: usize, b: usize) -> bool {
    reaches(adj, Set::empty(), a, b)
}

/// Every neighbour of a node in `seen` is in `seen`.
spec fn closed_under_edges(adj: Seq<Seq<usize>>, seen: Set<usize>) -> bool {
    forall|u: usize, k: int|
        seen.contains(u) && u < adj.len() && 0 <= k < adj[u as int].len() ==> seen.contains(
            #[trigger] adj[u as int][k],
        )
}

/// `part` begins with a node and holds exactly the nodes that are connected
/// to that node.
spec fn is_class(adj: Seq<Seq<usize>>, part: Seq<usize>) -> bool {
    &&& part.len() > 0
    &&& forall|w: usize| #[trigger] part.contains(w) <==> connected(adj, part[0], w)
}

/// Some part holds both `a` and `b`.
pub open spec fn same_part(parts: Seq<Seq<usize>>, a: usize, b: usize) -> bool {
    exists|c: int| 0 <= c < parts.len() && (#[trigger] parts[c]).contains(a) && parts[c].contains(b)
}

/// In a symmetric graph, a walk that starts outside a set that is closed
/// under edges never enters it.
proof fn lemma_walk_stays_out(
    adj: Seq<Seq<usize>>,
    seen: Set<usize>,
    path: Seq<usize>,
    upto: int,
)
    requires
        symmetric(adj),
        closed_under_edges(adj, seen),
        is_walk(adj, path),
        !seen.contains(path[0]),
        0 <= upto < path.len(),
    ensures
        !seen.contains(path[upto]),
    decreases upto,
{
    if upto > 0 {
        lemma_walk_stays_out(adj, seen, path, upto - 1);
        assert(adj[path[upto - 1] as int].contains(path[upto]));
        assert(adj[path[upto] as int].contains(path[upto - 1]));
    }
}

/// In a symmetric graph, from a node outside a set that is closed under
/// edges, the walks that stay out of the set reach what any walk reaches.
proof fn lemma_reaches_outside_closed(
    adj: Seq<Seq<usize>>,
    seen: Set<usize>,
    from: usize,
    to: usize,
)
    requires
        symmetric(adj),
        closed_under_edges(adj, seen),
        !seen.contains(from),
    ensures
        reaches(adj, seen, from, to) <==> connected(adj, from, to),
{
    if reaches(adj, seen, from, to) {
        lemma_reaches_weaken(adj, seen, Set::empty(), from, to);
    }
    if connected(adj, from, to) {
        let path = choose|path: Seq<usize>| #[trigger] walks(adj, Set::empty(), from, to, path);
        assert forall|j: int| 1 <= j < path.len() implies !seen.contains(#[trigger] path[j]) by {
            lemma_walk_stays_out(adj, seen, path, j);
        }
        assert(walks(adj, seen, from, to, path));
    }
}

/// In a symmetric graph, each component found from `start` on holds exactly
/// the nodes connected to its first node, when the nodes visited before are
/// closed under edges.
proof fn lemma_components_from_classes(adj: Seq<Seq<usize>>, seen: Set<usize>, start: nat)
    requires
        valid_adjacency(adj),
        symmetric(adj),
        closed_under_edges(adj, seen),
    ensures
        forall|c: int|
            0 <= c < components_from(adj, seen, start).len() ==> is_class(
                adj,
                #[trigger] components_from(adj, seen, start)[c],
            ),
    decreases adj.len() - start,
{
    let parts = components_from(adj, seen, start);
    if start >= adj.len() {
        // No part.
    } else if seen.contains(start as usize) {
        lemma_components_from_classes(adj, seen, start + 1);
        assert(parts == components_from(adj, seen, start + 1));
    } else {
        let root = start as usize;
        let found = preorder(adj, seen, root);
        let marked = seen.union(found.to_set());
        let later = components_from(adj, marked, start + 1);
        lemma_preorder_reaches(adj, seen, root);
        lemma_preorder_closed(adj, seen, root);
        lemma_components_from_classes(adj, marked, start + 1);
        assert(is_class(adj, found)) by {
            assert forall|w: usize| #[trigger]
                found.contains(w) <==> connected(adj, found[0], w) by {
                lemma_reaches_outside_closed(adj, seen, root, w);
            }
        }
    }
}

/// Walking a walk backwards is a walk, in a symmetric graph.
pub proof fn lemma_connected_symmetric(adj: Seq<Seq<usize>>, a: usize, b: usize)
    requires
        symmetric(adj),
        connected(adj, a, b),
    ensures
        connected(adj, b, a),
{
    let path = choose|path: Seq<usize>| #[trigger] walks(adj, Set::empty(), a, b, path);
    let back = path.reverse();
    assert(walks(adj, Set::empty(), b, a, back));
}

/// A walk to a node and a walk on from it make a walk.
pub proof fn lemma_connected_transitive(adj: Seq<Seq<usize>>, a: usize, b: usize, c: usize)
    requires
        connected(adj, a, b),
        connected(adj, b, c),
    ensures
        connected(adj, a, c),
{
    let first = choose|path: Seq<usize>| #[trigger] walks(adj, Set::empty(), a, b, path);
    let second = choose|path: Seq<usize>| #[trigger] walks(adj, Set::empty(), b, c, path);
    let whole = first + second.drop_first();
    assert(walks(adj, Set::empty(), a, c, whole));
}

/// In a symmetric graph the connected components are the classes of
/// connectedness: two nodes are in one component exactly if a walk leads
/// from one to the other.
pub proof fn lemma_components_are_classes(adj: Seq<Seq<usize>>, a: usize, b: usize)
    requires
        valid_adjacency(adj),
        symmetric(adj),
        a < adj.len(),
        b < adj.len(),
    ensures
        same_part(components(adj), a, b) <==> connected(adj, a, b),
{
    let parts = components(adj);
    lemma_components_from_classes(adj, Set::empty(), 0);
    lemma_components_partition(adj);
    if same_part(parts, a, b) {
        let c = choose|c: int|
            0 <= c < parts.len() && (#[trigger] parts[c]).contains(a) && parts[c].contains(b);
        lemma_connected_symmetric(adj, parts[c][0], a);
        lemma_connected_transitive(adj, a, parts[c][0], b);
    }
    if connected(adj, a, b) {
        assert(covers(parts, a));
        let (c, k) = choose|c: int, k: int|
            0 <= c < parts.len() && 0 <= k < parts[c].len() && #[trigger] parts[c][k] == a;
        lemma_connected_transitive(adj, parts[c][0], a, b);
    }
}

} // verus!
