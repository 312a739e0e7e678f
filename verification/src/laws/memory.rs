//! What accounting says of the memory of a tree.

use super::{lemma_list_total_add, list_of};
use crate::rep::analysis::{
    addresses, all_read, distinct_total, edge_list, list_total, listed, node_list, node_size, read_from, saturated,
    walk, walk_edges, MemoryNode,
};
use crate::rep::btree::CordRepBtree;
use crate::rep::external::CordRepExternal;
use crate::rep::flat::CordRepFlat;
use crate::rep::share::{held_by, lies_at};
use crate::rep::{CordRep, CordRepSubstring};
use std::sync::Arc;
use vstd::prelude::*;

verus! {

/// A flat block accounts for its capacity and a header of 13 bytes, an external
/// one for its bytes and 40, a window for 32 and a tree node for 64, as far as a
/// machine integer goes.
pub proof fn law_node_sizes(
    flat: CordRepFlat,
    ext: CordRepExternal,
    sub: CordRepSubstring,
    node: CordRepBtree,
)
    ensures
        node_size(CordRep::Flat(flat)) == flat.spec_capacity() + 13,
        ext.bytes().len() + 40 <= usize::MAX ==> node_size(CordRep::External(ext)) == ext.bytes().len() + 40,
        ext.bytes().len() + 40 > usize::MAX ==> node_size(CordRep::External(ext)) == usize::MAX,
        node_size(CordRep::Substring(sub)) == 32,
        node_size(CordRep::Btree(node)) == 64,
{
}

/// The nearest machine integer is the number itself where that is one, never
/// more, and the largest one for all others.
pub proof fn law_saturated(n: int, m: int)
    requires
        n <= m,
    ensures
        n <= usize::MAX ==> saturated(n) == n,
        n > usize::MAX ==> saturated(n) == usize::MAX,
        saturated(n) <= saturated(m),
{
}

/// The node `child` stands directly below `rep`.
pub open spec fn directly_below(child: Arc<CordRep>, rep: Arc<CordRep>) -> bool {
    match *rep {
        CordRep::Substring(sub) => child == sub.child,
        CordRep::Btree(node) => node.edges@.contains(child),
        _ => false,
    }
}

/// One of the first `i` of `reps` has the one at `i` directly below it.
spec fn has_parent(reps: Seq<Arc<CordRep>>, i: int) -> bool {
    exists|j: int| 0 <= j < i && directly_below(reps[i], #[trigger] reps[j])
}

/// Each of `reps` but the first stands directly below an earlier one.
#[verifier::opaque]
spec fn descends(reps: Seq<Arc<CordRep>>) -> bool {
    forall|i: int| 0 < i < reps.len() ==> #[trigger] has_parent(reps, i)
}

/// A walk starts at its root, and every other node on it stands directly below
/// an earlier one.
pub proof fn law_walk_descends(rep: Arc<CordRep>)
    ensures
        walk(rep).len() > 0,
        walk(rep)[0] == rep,
        forall|i: int| #![trigger walk(rep)[i]] 0 < i < walk(rep).len() ==> exists|j: int|
            0 <= j < i && directly_below(walk(rep)[i], #[trigger] walk(rep)[j]),
{
    lemma_walk_descends(rep);
    reveal(descends);
    assert forall|i: int| #![trigger walk(rep)[i]] 0 < i < walk(rep).len() implies exists|j: int|
        0 <= j < i && directly_below(walk(rep)[i], #[trigger] walk(rep)[j]) by {
        assert(has_parent(walk(rep), i));
    }
}

/// A walk starts at its root and goes down.
proof fn lemma_walk_descends(rep: Arc<CordRep>)
    ensures
        walk(rep).len() > 0,
        walk(rep)[0] == rep,
        descends(walk(rep)),
    decreases rep,
{
    assert(descends(seq![rep])) by {
        reveal(descends);
    }
    match *rep {
        CordRep::Substring(sub) => {
            lemma_walk_descends(sub.child);
            lemma_descends_join(seq![rep], walk(sub.child));
        },
        CordRep::Btree(node) => {
            lemma_edges_descend(rep, node.edges@);
        },
        _ => {
            assert(walk(rep) =~= seq![rep]);
        },
    }
}

/// A list that goes down, joined with one that goes down from a node directly
/// below its first node, goes down.
proof fn lemma_descends_join(head: Seq<Arc<CordRep>>, below: Seq<Arc<CordRep>>)
    requires
        head.len() > 0,
        below.len() > 0,
        directly_below(below[0], head[0]),
        descends(head),
        descends(below),
    ensures
        descends(head + below),
{
    reveal(descends);
    let all = head + below;
    assert forall|i: int| 0 < i < all.len() implies #[trigger] has_parent(all, i) by {
        if i < head.len() {
            assert(has_parent(head, i));
            let j = choose|j: int| 0 <= j < i && directly_below(head[i], #[trigger] head[j]);
            assert(all[j] == head[j] && all[i] == head[i]);
        } else if i == head.len() {
            assert(all[i] == below[0] && all[0] == head[0]);
        } else {
            let k = i - head.len();
            assert(has_parent(below, k));
            let j = choose|j: int| 0 <= j < k && directly_below(below[k], #[trigger] below[j]);
            assert(all[i] == below[k] && all[head.len() + j] == below[j]);
        }
    }
}

/// Behind a node come the edges directly below it, and those below them.
proof fn lemma_edges_descend(rep: Arc<CordRep>, edges: Seq<Arc<CordRep>>)
    requires
        forall|k: int| #![trigger edges[k]] 0 <= k < edges.len() ==> directly_below(edges[k], rep),
    ensures
        descends(seq![rep] + walk_edges(edges)),
    decreases edges,
{
    if edges.len() > 0 {
        let init = edges.drop_last();
        assert forall|k: int| #![trigger init[k]] 0 <= k < init.len() implies directly_below(init[k], rep) by {
            assert(init[k] == edges[k]);
        }
        lemma_edges_descend(rep, init);
        let head = seq![rep] + walk_edges(init);
        let below = walk(edges.last());
        assert(decreases_to!(edges => edges[edges.len() - 1]));
        lemma_walk_descends(edges.last());
        assert(directly_below(edges[edges.len() - 1], rep));
        lemma_descends_join(head, below);
        assert(seq![rep] + walk_edges(edges) =~= head + below);
    } else {
        assert(seq![rep] + walk_edges(edges) =~= seq![rep]);
        reveal(descends);
    }
}

/// A walk leaves nothing out: with a window it comes to its block, and with a
/// tree node to each of its edges, and in each case to all that the walk from
/// there comes to.
pub proof fn law_walk_reaches(rep: Arc<CordRep>, child: Arc<CordRep>, node: Arc<CordRep>)
    requires
        directly_below(child, rep),
        walk(child).contains(node),
    ensures
        walk(rep).contains(node),
        walk(rep).contains(child),
        walk(rep).len() > walk(child).len(),
{
    law_walk_descends(child);
    assert(walk(child)[0] == child);
    match *rep {
        CordRep::Substring(sub) => {
            lemma_contains_tail(seq![rep], walk(sub.child), node);
            lemma_contains_tail(seq![rep], walk(sub.child), child);
        },
        CordRep::Btree(btree) => {
            let i = choose|i: int| 0 <= i < btree.edges@.len() && btree.edges@[i] == child;
            lemma_edges_reach(btree.edges@, i, node);
            lemma_edges_reach(btree.edges@, i, child);
            lemma_contains_tail(seq![rep], walk_edges(btree.edges@), node);
            lemma_contains_tail(seq![rep], walk_edges(btree.edges@), child);
        },
        _ => {},
    }
}

/// What the second of two joined lists contains, the joined list contains.
proof fn lemma_contains_tail(a: Seq<Arc<CordRep>>, b: Seq<Arc<CordRep>>, node: Arc<CordRep>)
    requires
        b.contains(node),
    ensures
        (a + b).contains(node),
{
    let i = choose|i: int| 0 <= i < b.len() && b[i] == node;
    assert((a + b)[a.len() + i] == node);
}

/// The walk over edges comes to all that the walk from one of them comes to.
proof fn lemma_edges_reach(edges: Seq<Arc<CordRep>>, i: int, node: Arc<CordRep>)
    requires
        0 <= i < edges.len(),
        walk(edges[i]).contains(node),
    ensures
        walk_edges(edges).contains(node),
        walk_edges(edges).len() >= walk(edges[i]).len(),
    decreases edges.len(),
{
    let init = edges.drop_last();
    if i == edges.len() - 1 {
        lemma_contains_tail(walk_edges(init), walk(edges.last()), node);
    } else {
        assert(init[i] == edges[i]);
        lemma_edges_reach(init, i, node);
        let k = choose|k: int| 0 <= k < walk_edges(init).len() && walk_edges(init)[k] == node;
        assert(walk_edges(edges)[k] == node);
    }
}

/// What accounting says of each node on the walk was read from that very node,
/// the root included: how many handles it has, where it lies, and its size.
pub proof fn law_nodes_are_read(nodes: Seq<MemoryNode>, rep: Arc<CordRep>, i: int)
    requires
        all_read(nodes, walk(rep)),
        0 <= i < nodes.len(),
    ensures
        nodes.len() == walk(rep).len(),
        held_by(walk(rep)[i], nodes[i].refcount),
        lies_at(walk(rep)[i], nodes[i].address),
        nodes[i].size == node_size(*walk(rep)[i]),
        held_by(rep, nodes[0].refcount),
        lies_at(rep, nodes[0].address),
{
    law_walk_descends(rep);
    assert(read_from(nodes[i], walk(rep)[i]));
    assert(read_from(nodes[0], walk(rep)[0]));
}

/// The list of depths and sizes goes along the walk: the root has the depth
/// asked for, and each node the size of the one on the walk.
pub proof fn law_list_follows_walk(rep: Arc<CordRep>, depth: int)
    ensures
        node_list(*rep, depth).len() == walk(rep).len(),
        node_list(*rep, depth)[0].0 == depth,
        forall|i: int|
            0 <= i < walk(rep).len() ==> #[trigger] node_list(*rep, depth)[i].1 == node_size(*walk(rep)[i]),
        forall|i: int| 0 < i < walk(rep).len() ==> #[trigger] node_list(*rep, depth)[i].0 > depth,
    decreases rep,
{
    match *rep {
        CordRep::Substring(sub) => {
            law_list_follows_walk(sub.child, depth + 1);
            let below = list_of(sub.child, depth + 1);
            assert forall|i: int| 0 < i < walk(rep).len() implies #[trigger] node_list(*rep, depth)[i]
                == below[i - 1] && walk(rep)[i] == walk(sub.child)[i - 1] by {
            }
        },
        CordRep::Btree(node) => {
            lemma_list_follows_edges(node.edges@, depth + 1);
            let below = edge_list(node.edges@, depth + 1);
            assert forall|i: int| 0 < i < walk(rep).len() implies #[trigger] node_list(*rep, depth)[i]
                == below[i - 1] && walk(rep)[i] == walk_edges(node.edges@)[i - 1] by {
            }
        },
        _ => {},
    }
}

/// The list of edges goes along the walk over them.
proof fn lemma_list_follows_edges(edges: Seq<Arc<CordRep>>, depth: int)
    ensures
        edge_list(edges, depth).len() == walk_edges(edges).len(),
        forall|i: int|
            0 <= i < walk_edges(edges).len() ==> #[trigger] edge_list(edges, depth)[i].1 == node_size(
                *walk_edges(edges)[i],
            ),
        forall|i: int| 0 <= i < walk_edges(edges).len() ==> #[trigger] edge_list(edges, depth)[i].0 >= depth,
    decreases edges,
{
    if edges.len() > 0 {
        let init = edges.drop_last();
        lemma_list_follows_edges(init, depth);
        assert(decreases_to!(edges => edges[edges.len() - 1]));
        law_list_follows_walk(edges.last(), depth);
        let head = edge_list(init, depth);
        let below = list_of(edges.last(), depth);
        assert forall|i: int| 0 <= i < walk_edges(edges).len() implies {
            let entry = #[trigger] edge_list(edges, depth)[i];
            entry.1 == node_size(*walk_edges(edges)[i]) && entry.0 >= depth
        } by {
            if i < head.len() {
                assert(edge_list(edges, depth)[i] == head[i]);
                assert(walk_edges(edges)[i] == walk_edges(init)[i]);
            } else {
                assert(edge_list(edges, depth)[i] == below[i - head.len()]);
                assert(walk_edges(edges)[i] == walk(edges.last())[i - head.len()]);
            }
        }
    }
}

/// What stands directly below a node is listed one deeper than it, behind it:
/// the block of a window, or all edges of a tree node in order.
pub proof fn law_list_depths(rep: Arc<CordRep>, depth: int, edges: Seq<Arc<CordRep>>, edge: Arc<CordRep>)
    ensures
        node_list(*rep, depth)[0] == (depth, node_size(*rep)),
        *rep is Flat || *rep is External ==> node_list(*rep, depth).len() == 1,
        *rep matches CordRep::Substring(sub) ==> node_list(*rep, depth).skip(1) == node_list(*sub.child, depth + 1),
        *rep matches CordRep::Btree(node) ==> node_list(*rep, depth).skip(1) == edge_list(node.edges@, depth + 1),
        edge_list(Seq::empty(), depth).len() == 0,
        edge_list(edges.push(edge), depth) == edge_list(edges, depth) + node_list(*edge, depth),
{
    match *rep {
        CordRep::Substring(sub) => {
            assert(node_list(*rep, depth).skip(1) =~= node_list(*sub.child, depth + 1));
        },
        CordRep::Btree(node) => {
            assert(node_list(*rep, depth).skip(1) =~= edge_list(node.edges@, depth + 1));
        },
        _ => {},
    }
    assert(edges.push(edge).drop_last() =~= edges);
}

/// The total of a list adds up: a first or a last entry adds its size, and two
/// lists add their totals.
pub proof fn law_total_adds_up(a: Seq<(int, int)>, b: Seq<(int, int)>, entry: (int, int))
    ensures
        list_total(Seq::empty()) == 0,
        list_total(a.push(entry)) == list_total(a) + entry.1,
        list_total(seq![entry] + a) == entry.1 + list_total(a),
        list_total(a + b) == list_total(a) + list_total(b),
{
    lemma_list_total_add(a, b);
    assert(a.push(entry).drop_last() =~= a);
    lemma_list_total_add(seq![entry], a);
    assert(seq![entry].drop_last() =~= Seq::<(int, int)>::empty());
    reveal_with_fuel(list_total, 2);
}

/// Counting nodes once, a node whose address comes for the first time adds its
/// size, and one whose address came before adds nothing.
pub proof fn law_distinct_adds_up(nodes: Seq<MemoryNode>, node: MemoryNode)
    ensures
        distinct_total(Seq::empty()) == 0,
        (exists|i: int| 0 <= i < nodes.len() && #[trigger] nodes[i].address == node.address) ==> distinct_total(
            nodes.push(node),
        ) == distinct_total(nodes),
        !(exists|i: int| 0 <= i < nodes.len() && #[trigger] nodes[i].address == node.address) ==> distinct_total(
            nodes.push(node),
        ) == distinct_total(nodes) + node.size,
{
    assert(nodes.push(node).drop_last() =~= nodes);
    lemma_addresses_are(nodes, node.address);
}

/// The addresses of nodes are those that one of them has.
proof fn lemma_addresses_are(nodes: Seq<MemoryNode>, address: usize)
    ensures
        addresses(nodes).contains(address) <==> exists|i: int|
            0 <= i < nodes.len() && #[trigger] nodes[i].address == address,
    decreases nodes.len(),
{
    if nodes.len() > 0 {
        let init = nodes.drop_last();
        lemma_addresses_are(init, address);
        if exists|i: int| 0 <= i < init.len() && #[trigger] init[i].address == address {
            let i = choose|i: int| 0 <= i < init.len() && #[trigger] init[i].address == address;
            assert(nodes[i].address == address);
        }
        if nodes.last().address == address {
            assert(nodes[nodes.len() - 1].address == address);
        }
        if exists|i: int| 0 <= i < nodes.len() && #[trigger] nodes[i].address == address {
            let i = choose|i: int| 0 <= i < nodes.len() && #[trigger] nodes[i].address == address;
            if i < init.len() {
                assert(init[i].address == address);
            }
        }
    }
}

/// The depths and sizes listed of nodes are theirs.
pub proof fn law_listed(nodes: Seq<MemoryNode>)
    ensures
        listed(nodes).len() == nodes.len(),
        forall|i: int| 0 <= i < nodes.len() ==> #[trigger] listed(nodes)[i] == (nodes[i].depth as int, nodes[i].size as int),
{
}

} // verus!
