//! What trees stand for, and what checking them finds.

use crate::edit::data_edges;
use crate::inline_data::InlineData;
use crate::rep::btree::CordRepBtree;
use crate::rep::external::{buffer_bytes, CordRepExternal, Owner};
use crate::rep::flat::CordRepFlat;
use crate::rep::rebuild::{full_count, packed};
use crate::rep::settle::settled;
use crate::rep::shared::{block_of, cut_back, shares, trimmed};
use crate::rep::stack::grown;
use crate::rep::subtree::{lemma_start_ends, lemma_start_step, start_of, within_one};
use crate::rep::valid::{
    below_fault, edge_fault, edges_fault, outcome, stored_total, tree_fault, Invalid,
};
use crate::rep::{
    compact, edges_bytes, edges_leaves, leaves, lemma_edges_bytes_one, lemma_leaves_bytes, CordRep, CordRepSubstring,
};
use bytes::Bytes as SharedBuffer;
use std::sync::Arc;
use vstd::prelude::*;
use vstd::utf8::encode_utf8;

verus! {

/// The bytes of an external block are those of what it holds: for texts those
/// of their encoding.
pub proof fn law_owner_bytes(
    vector: Vec<u8>,
    string: String,
    boxed: Box<[u8]>,
    slice: Arc<[u8]>,
    shared_vector: Arc<Vec<u8>>,
    shared_str: Arc<str>,
    shared_string: Arc<String>,
    buffer: SharedBuffer,
)
    ensures
        Owner::Vector(vector).bytes() == vector@,
        Owner::Text(string).bytes() == encode_utf8(string@),
        Owner::Boxed(boxed).bytes() == boxed@,
        Owner::SharedSlice(slice).bytes() == slice@,
        Owner::SharedVector(shared_vector).bytes() == shared_vector@,
        Owner::SharedStr(shared_str).bytes() == encode_utf8(shared_str@),
        Owner::SharedText(shared_string).bytes() == encode_utf8(shared_string@),
        Owner::Buffer(buffer).bytes() == buffer_bytes(buffer),
{
}

/// The bytes of static blocks are theirs.
pub proof fn law_static_owner_bytes(slice: &'static [u8], text: &'static str)
    ensures
        Owner::Static(slice).bytes() == slice@,
        Owner::StaticStr(text).bytes() == encode_utf8(text@),
{
}

/// A block stands for the bytes that it holds, a valid window for those of its
/// block from its start on, as many as it is long, and a tree node for those of
/// its edges, in order.
pub proof fn law_node_bytes(
    flat: CordRepFlat,
    owner: Owner,
    sub: CordRepSubstring,
    node: CordRepBtree,
    edge: Arc<CordRep>,
    edges: Seq<Arc<CordRep>>,
)
    ensures
        CordRep::Flat(flat).bytes() == flat.data@,
        CordRep::External(CordRepExternal { owner }).bytes() == owner.bytes(),
        CordRep::Substring(sub).wf() ==> {
            let bytes = CordRep::Substring(sub).bytes();
            &&& bytes.len() == sub.length
            &&& forall|i: int| 0 <= i < sub.length ==> #[trigger] bytes[i] == sub.child.bytes()[sub.start + i]
        },
        CordRep::Btree(node).bytes() == edges_bytes(node.edges@),
        edges_bytes(edges.push(edge)) == edges_bytes(edges) + edge.bytes(),
        edges_bytes(seq![edge]) == edge.bytes(),
        edges_bytes(Seq::empty()) == Seq::<u8>::empty(),
{
    assert(edges.push(edge).drop_last() =~= edges);
    lemma_edges_bytes_one(edge);
}

/// The data edges below a tree node are those below its edges, in order; any
/// other node is its own and only data edge. Their bytes are those of the tree.
pub proof fn law_leaves(rep: Arc<CordRep>, edges: Seq<Arc<CordRep>>, edge: Arc<CordRep>)
    ensures
        *rep matches CordRep::Btree(node) ==> leaves(rep) == edges_leaves(node.edges@),
        !(*rep is Btree) ==> leaves(rep) == seq![rep],
        edges_leaves(edges.push(edge)) == edges_leaves(edges) + leaves(edge),
        edges_leaves(Seq::empty()) == Seq::<Arc<CordRep>>::empty(),
        rep.wf() ==> edges_bytes(leaves(rep)) == rep.bytes(),
{
    assert(edges.push(edge).drop_last() =~= edges);
    if rep.wf() {
        lemma_leaves_bytes(rep);
    }
}

/// The data edges of a cord are those of its tree; bytes in place have none.
pub proof fn law_data_edges(data: InlineData)
    ensures
        data matches InlineData::Tree(tree) ==> data_edges(data) == leaves(tree),
        data is Inline ==> data_edges(data).len() == 0,
{
}

/// A full tree that is one level higher holds six times as many data edges.
pub proof fn law_full_count(height: nat)
    ensures
        full_count(0) == 1,
        full_count(height + 1) == 6 * full_count(height),
{
}

/// The tree of a cord is higher than eleven levels only if it holds more data
/// edges than a tree of eleven levels can, and has no level above a single data edge.
pub proof fn law_settled(rep: Arc<CordRep>)
    requires
        settled(rep),
    ensures
        rep.height() > 0 ==> leaves(rep).len() > 1,
        rep.height() > 11 ==> leaves(rep).len() > full_count(rep.height() as nat),
{
}

/// A tree that grew is higher than it was only within eleven levels, or to hold
/// more data edges than a lower tree can.
pub proof fn law_grown(tree: Arc<CordRep>, before: int)
    requires
        grown(tree, before),
    ensures
        tree.is_tree(tree.height()),
        tree.height() > before && tree.height() > 11 ==> leaves(tree).len() > full_count(tree.height() as nat),
{
}

/// A packed tree holds more data edges than a lower one can, and a compact one
/// more than one if it is above the leaf level.
pub proof fn law_packed(tree: Arc<CordRep>)
    ensures
        packed(tree) && tree.height() > 0 ==> leaves(tree).len() > full_count(tree.height() as nat),
        compact(tree) && tree.height() > 0 ==> leaves(tree).len() >= 2,
        tree.height() <= 0 ==> packed(tree) && compact(tree),
{
}

/// Edges start where those before them end, the first at zero.
pub proof fn law_starts(edges: Seq<Arc<CordRep>>, i: int)
    requires
        0 <= i < edges.len(),
    ensures
        start_of(edges, 0) == 0,
        start_of(edges, i + 1) - start_of(edges, i) == edges[i].bytes().len(),
        start_of(edges, edges.len() as int) == edges_bytes(edges).len(),
{
    lemma_start_ends(edges);
    lemma_start_step(edges, i);
}

/// Bytes lie inside one edge where some edge starts not behind their first and
/// ends not before their last.
pub proof fn law_within_one(edges: Seq<Arc<CordRep>>, offset: int, n: int)
    ensures
        within_one(edges, offset, n) <==> exists|k: int|
            0 <= k < edges.len() && start_of(edges, k) <= offset && offset + n <= start_of(edges, k)
                + (#[trigger] edges[k]).bytes().len(),
{
}

/// What is trimmed is the same block or a window onto it, or a flat block of
/// the same size class with the first of its bytes.
pub proof fn law_trimmed(part: Arc<CordRep>, edge: Arc<CordRep>)
    requires
        trimmed(part, edge),
    ensures
        block_of(part) != block_of(edge) ==> {
            &&& *part is Flat
            &&& *edge is Flat
            &&& (*part)->Flat_0.spec_capacity() == (*edge)->Flat_0.spec_capacity()
            &&& part.bytes().len() <= edge.bytes().len()
            &&& forall|i: int| 0 <= i < part.bytes().len() ==> #[trigger] part.bytes()[i] == edge.bytes()[i]
        },
{
    if block_of(part) != block_of(edge) {
        let a = part.bytes();
        let b = edge.bytes();
        assert forall|i: int| 0 <= i < a.len() implies #[trigger] a[i] == b[i] by {
            assert(b.subrange(0, a.len() as int)[i] == b[i]);
        }
    }
}

/// Cutting off the end leaves the first data edges as they are, but for the last of them.
pub proof fn law_cut_back(parts: Seq<Arc<CordRep>>, edges: Seq<Arc<CordRep>>, i: int)
    requires
        cut_back(parts, edges),
        0 <= i < parts.len(),
    ensures
        parts.len() <= edges.len(),
        i < parts.len() - 1 ==> parts[i] == edges[i],
        i == parts.len() - 1 ==> trimmed(parts[i], edges[i]),
{
    reveal(cut_back);
    if i < parts.len() - 1 {
        assert(parts.drop_last()[i] == edges.take(parts.len() - 1)[i]);
    }
}

/// What shares blocks with a cord has no block that the cord has not.
pub proof fn law_shares(parts: Seq<Arc<CordRep>>, edges: Seq<Arc<CordRep>>, i: int)
    requires
        shares(parts, edges),
        0 <= i < parts.len(),
    ensures
        exists|j: int| 0 <= j < edges.len() && block_of(#[trigger] edges[j]) == block_of(parts[i]),
{
    reveal(shares);
    assert(crate::rep::shared::has_block(edges, block_of(parts[i])));
}

/// The block behind a window is what it is a window onto, and any other data
/// edge is its own block.
pub proof fn law_block_of(edge: Arc<CordRep>)
    ensures
        *edge matches CordRep::Substring(sub) ==> block_of(edge) == sub.child,
        !(*edge is Substring) ==> block_of(edge) == edge,
{
}

/// A check of a single node finds nothing exactly where the node is a tree node
/// of at most eleven levels and six edges, each of the right kind and height,
/// whose stated lengths sum up to its own. Otherwise it finds the first of these
/// that fails.
pub proof fn law_node_checked(rep: Arc<CordRep>, node: CordRepBtree)
    requires
        *rep == CordRep::Btree(node),
    ensures
        node.height > 11 <==> tree_fault(*rep, false) == Some(Invalid::TooHigh),
        node.height <= 11 && node.edges@.len() > 6 <==> tree_fault(*rep, false) == Some(Invalid::TooManyEdges),
        ({
            let sound = node.height <= 11 && node.edges@.len() <= 6;
            let kinds = forall|i: int|
                #![trigger node.edges@[i]]
                0 <= i < node.edges@.len() ==> if node.height == 0 {
                    node.edges@[i].data_edge()
                } else {
                    *node.edges@[i] is Btree && node.edges@[i].height() == node.height - 1
                };
            let lengths = stored_total(node.edges@) == node.length;
            &&& sound && kinds && lengths <==> tree_fault(*rep, false) is None
            &&& sound && kinds && !lengths <==> tree_fault(*rep, false) == Some(Invalid::Length)
            &&& tree_fault(*rep, false) == Some(Invalid::EdgeNotData) ==> node.height == 0 && !kinds
            &&& tree_fault(*rep, false) == Some(Invalid::EdgeNotTree) ==> node.height > 0 && !kinds
            &&& tree_fault(*rep, false) == Some(Invalid::EdgeHeight) ==> node.height > 0 && !kinds
        }),
        tree_fault(*rep, false) != Some(Invalid::NotTree),
{
    lemma_edges_checked(node.edges@, node.height);
}

/// No edge is faulty exactly where all are of the right kind and height.
proof fn lemma_edges_checked(edges: Seq<Arc<CordRep>>, height: usize)
    ensures
        edges_fault(edges, height) is None <==> forall|i: int|
            #![trigger edges[i]]
            0 <= i < edges.len() ==> if height == 0 {
                edges[i].data_edge()
            } else {
                *edges[i] is Btree && edges[i].height() == height - 1
            },
        edges_fault(edges, height) matches Some(fault) ==> if height == 0 {
            fault == Invalid::EdgeNotData
        } else {
            fault == Invalid::EdgeNotTree || fault == Invalid::EdgeHeight
        },
    decreases edges.len(),
{
    if edges.len() > 0 {
        let init = edges.drop_last();
        lemma_edges_checked(init, height);
        assert forall|i: int| #![trigger edges[i]] 0 <= i < init.len() implies init[i] == edges[i] by {
        }
        assert(edges[edges.len() - 1] == edges.last());
        if edges_fault(edges, height) is None {
            assert forall|i: int| #![trigger edges[i]] 0 <= i < edges.len() implies if height == 0 {
                edges[i].data_edge()
            } else {
                *edges[i] is Btree && edges[i].height() == height - 1
            } by {
                if i < init.len() {
                    assert(init[i] == edges[i]);
                }
            }
        } else if edges_fault(init, height) is Some {
            let i = choose|i: int|
                #![trigger init[i]]
                0 <= i < init.len() && !(if height == 0 {
                    init[i].data_edge()
                } else {
                    *init[i] is Btree && init[i].height() == height - 1
                });
            assert(init[i] == edges[i]);
        }
    }
}

/// What is no tree node fails every check as that. A single edge is faulty
/// below a leaf node where it is no data edge, and below another one where it is
/// no tree node or not one level lower.
pub proof fn law_edge_checked(rep: CordRep, deep: bool, height: usize)
    ensures
        !(rep is Btree) ==> tree_fault(rep, deep) == Some(Invalid::NotTree),
        edge_fault(rep, 0) == Some(Invalid::EdgeNotData) <==> !rep.data_edge(),
        edge_fault(rep, 0) is None <==> rep.data_edge(),
        height > 0 ==> (edge_fault(rep, height) == Some(Invalid::EdgeNotTree) <==> !(rep is Btree)),
        height > 0 ==> (edge_fault(rep, height) == Some(Invalid::EdgeHeight) <==> rep is Btree && rep.height()
            != height - 1),
        height > 0 ==> (edge_fault(rep, height) is None <==> rep is Btree && rep.height() == height - 1),
{
    if let CordRep::Btree(node) = rep {
        lemma_edges_checked(node.edges@, node.height);
    }
}

/// A deep check finds nothing exactly where checks of the node and, above the
/// leaf level, deep checks of all its edges find nothing. So it misses no faulty
/// node, however deep.
pub proof fn law_deep_check(rep: Arc<CordRep>, node: CordRepBtree)
    requires
        *rep == CordRep::Btree(node),
    ensures
        tree_fault(*rep, true) is None <==> {
            &&& tree_fault(*rep, false) is None
            &&& node.height > 0 ==> forall|i: int|
                #![trigger node.edges@[i]]
                0 <= i < node.edges@.len() ==> tree_fault(*node.edges@[i], true) is None
        },
        tree_fault(*rep, false) is Some ==> tree_fault(*rep, true) == tree_fault(*rep, false),
{
    lemma_below_checked(node.edges@);
}

/// No node below is faulty exactly where no edge is.
proof fn lemma_below_checked(edges: Seq<Arc<CordRep>>)
    ensures
        below_fault(edges) is None <==> forall|i: int|
            #![trigger edges[i]]
            0 <= i < edges.len() ==> tree_fault(*edges[i], true) is None,
    decreases edges.len(),
{
    if edges.len() > 0 {
        let init = edges.drop_last();
        lemma_below_checked(init);
        assert(edges[edges.len() - 1] == edges.last());
        if below_fault(edges) is None {
            assert forall|i: int| #![trigger edges[i]] 0 <= i < edges.len() implies tree_fault(
                *edges[i],
                true,
            ) is None by {
                if i < init.len() {
                    assert(init[i] == edges[i]);
                }
            }
        } else if below_fault(init) is Some {
            let i = choose|i: int|
                #![trigger init[i]]
                0 <= i < init.len() && tree_fault(*init[i], true) is Some;
            assert(init[i] == edges[i]);
        }
    }
}

/// The lengths that edges state add up, and a valid node states its length.
pub proof fn law_stored_lengths(edges: Seq<Arc<CordRep>>, edge: Arc<CordRep>)
    ensures
        stored_total(Seq::empty()) == 0,
        stored_total(edges.push(edge)) == stored_total(edges) + edge.spec_stored_len(),
        edge.wf() ==> edge.spec_stored_len() == edge.bytes().len(),
{
    assert(edges.push(edge).drop_last() =~= edges);
}

/// A check that found nothing succeeds, and any other fails with what it found.
pub proof fn law_outcome(fault: Invalid)
    ensures
        outcome(None) is Ok,
        outcome(Some(fault)) == Err::<(), Invalid>(fault),
{
}

} // verus!
