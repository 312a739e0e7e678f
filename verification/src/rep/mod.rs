//! Nodes of a cord's tree, and the byte sequence that a node stands for.
//!
//! A node is a flat block, an external block, a window onto one of those, or
//! an interior node of a B-tree. Nodes are shared through [`Arc`]; a node that
//! is held once may be changed in place, and every other node is copied first.

use std::sync::Arc;
use vstd::prelude::*;

pub mod analysis;
pub mod append;
pub mod btree;
pub mod dump;
pub mod edge;
pub mod external;
pub mod extract;
pub mod flat;
pub mod memmove;
pub mod navigator;
pub mod pieces;
pub mod reader;
pub mod rebuild;
pub mod refcount;
pub mod render;
pub mod settle;
pub mod share;
pub mod shared;
pub mod stack;
pub mod subtree;
pub mod valid;

use btree::CordRepBtree;
use external::CordRepExternal;
use flat::CordRepFlat;

verus! {

/// Largest length that is copied rather than shared when cords are joined.
pub const MAX_BYTES_TO_COPY: usize = 511;
/// Largest length stored in the cord value itself.
pub const MAX_INLINE: usize = 15;

/// Tag of a window onto a data block.
pub const SUBSTRING: u8 = 1;
/// Tag of a B-tree node.
pub const BTREE: u8 = 3;
/// Tag of an external block.
pub const EXTERNAL: u8 = 5;

/// Accounted size of a window node.
pub const SUBSTRING_REP_SIZE: usize = 32;

/// A node of a cord's tree.
pub enum CordRep {
    /// An owned block.
    Flat(CordRepFlat),
    /// A block that someone else allocated.
    External(CordRepExternal),
    /// A window onto a flat or external block.
    Substring(CordRepSubstring),
    /// A tree node.
    Btree(CordRepBtree),
}

/// A window of `length` bytes onto `child`, starting at `start`.
pub struct CordRepSubstring {
    /// First byte of the window.
    pub start: usize,
    /// Number of bytes in the window.
    pub length: usize,
    /// The block that holds the bytes.
    pub child: Arc<CordRep>,
}

/// The bytes of `edges`, in order.
pub open spec fn edges_bytes(edges: Seq<Arc<CordRep>>) -> Seq<u8>
    decreases edges,
{
    if edges.len() == 0 {
        Seq::empty()
    } else {
        edges_bytes(edges.drop_last()) + edges.last().bytes()
    }
}

/// The data edges below `edges`, in order.
pub open spec fn edges_leaves(edges: Seq<Arc<CordRep>>) -> Seq<Arc<CordRep>>
    decreases edges,
{
    if edges.len() == 0 {
        Seq::empty()
    } else {
        edges_leaves(edges.drop_last()) + leaves(edges.last())
    }
}

/// The data edges below `rep`, in order: `rep` itself where it is no tree node.
pub open spec fn leaves(rep: Arc<CordRep>) -> Seq<Arc<CordRep>>
    decreases rep,
{
    match *rep {
        CordRep::Btree(node) => edges_leaves(node.edges@),
        _ => seq![rep],
    }
}

impl CordRep {
    /// The byte sequence that this node stands for.
    pub open spec fn bytes(&self) -> Seq<u8>
        decreases self,
    {
        match *self {
            CordRep::Flat(flat) => flat.data@,
            CordRep::External(ext) => ext.bytes(),
            CordRep::Substring(sub) => {
                let data = sub.child.bytes();
                if sub.start + sub.length <= data.len() {
                    data.subrange(sub.start as int, sub.start + sub.length)
                } else {
                    Seq::empty()
                }
            },
            CordRep::Btree(node) => edges_bytes(node.edges@),
        }
    }

    /// The height of a tree node (0 for a leaf).
    pub open spec fn height(&self) -> int {
        match *self {
            CordRep::Btree(node) => node.height as int,
            _ => -1,
        }
    }

    /// The tree node that this node is.
    pub open spec fn node(&self) -> CordRepBtree {
        (*self)->Btree_0
    }

    /// This node is a flat or external block.
    pub open spec fn is_block(&self) -> bool {
        *self is Flat || *self is External
    }

    /// This node is a block or a window onto one.
    pub open spec fn data_edge(&self) -> bool {
        self.is_block() || (*self matches CordRep::Substring(sub) && sub.child.is_block())
    }

    /// The parts of this node fit together.
    pub open spec fn wf(&self) -> bool
        decreases self,
    {
        match *self {
            CordRep::Flat(flat) => flat.wf(),
            CordRep::External(ext) => ext.bytes().len() <= usize::MAX,
            CordRep::Substring(sub) => {
                &&& sub.child.is_block()
                &&& sub.child.wf()
                &&& sub.length > 0
                &&& sub.start + sub.length <= sub.child.bytes().len()
            },
            CordRep::Btree(node) => {
                &&& node.edges@.len() > 0
                &&& node.shape()
                &&& forall|i: int|
                    #![trigger node.edges@[i]]
                    0 <= i < node.edges@.len() ==> node.edges@[i].wf()
            },
        }
    }

    /// A valid, non-empty data edge: what a leaf node may hold.
    pub open spec fn is_leaf_edge(&self) -> bool {
        self.data_edge() && self.wf() && self.bytes().len() > 0
    }

    /// A valid tree node of height `height`.
    pub open spec fn is_tree(&self, height: int) -> bool {
        *self is Btree && self.wf() && self.height() == height
    }

    /// What the tree of a cord may be: a non-empty data edge or a tree node.
    pub open spec fn is_edge(&self) -> bool {
        self.wf() && (self.data_edge() || *self is Btree) && self.bytes().len() > 0
    }
}

/// A node above the leaf level stands above more than one data edge.
pub open spec fn compact(rep: Arc<CordRep>) -> bool {
    rep.height() > 0 ==> leaves(rep).len() > 1
}

/// `edge` may stand below a node of height `height`.
pub open spec fn fits_below(edge: CordRep, height: int) -> bool {
    if height == 0 {
        edge.data_edge() && edge.bytes().len() > 0
    } else {
        edge is Btree && edge.height() == height - 1
    }
}

impl CordRepBtree {
    /// The node's length, height and edge kinds are right, whether or not it has edges.
    pub open spec fn shape(self) -> bool {
        &&& self.edges@.len() <= btree::MAX_CAPACITY
        &&& self.height <= btree::HEIGHT_LIMIT
        &&& self.length == edges_bytes(self.edges@).len()
        &&& forall|i: int|
            #![trigger self.edges@[i]]
            0 <= i < self.edges@.len() ==> fits_below(*self.edges@[i], self.height as int)
    }

    /// Like `wf` of the node, but the node may have no edges.
    pub open spec fn partial(self) -> bool {
        &&& self.shape()
        &&& forall|i: int|
            #![trigger self.edges@[i]]
            0 <= i < self.edges@.len() ==> self.edges@[i].wf()
    }
}

/// The length of a valid node is a machine integer.
pub proof fn lemma_len_fits(rep: Arc<CordRep>)
    requires
        rep.wf(),
    ensures
        rep.bytes().len() <= usize::MAX,
{
}

/// The bytes of a list of edges distribute over joining lists.
pub proof fn lemma_edges_bytes_add(a: Seq<Arc<CordRep>>, b: Seq<Arc<CordRep>>)
    ensures
        edges_bytes(a + b) == edges_bytes(a) + edges_bytes(b),
    decreases b.len(),
{
    if b.len() == 0 {
        assert(a + b =~= a);
        assert(edges_bytes(a) + edges_bytes(b) =~= edges_bytes(a));
    } else {
        lemma_edges_bytes_add(a, b.drop_last());
        assert((a + b).drop_last() =~= a + b.drop_last());
        assert(edges_bytes(a + b) =~= edges_bytes(a) + edges_bytes(b));
    }
}

/// The bytes of a single edge.
pub proof fn lemma_edges_bytes_one(edge: Arc<CordRep>)
    ensures
        edges_bytes(seq![edge]) == edge.bytes(),
{
    assert(seq![edge].drop_last() =~= Seq::<Arc<CordRep>>::empty());
    reveal_with_fuel(edges_bytes, 2);
    assert(edges_bytes(seq![edge]) =~= edge.bytes());
}

/// The data edges of a list of edges distribute over joining lists.
pub proof fn lemma_edges_leaves_add(a: Seq<Arc<CordRep>>, b: Seq<Arc<CordRep>>)
    ensures
        edges_leaves(a + b) == edges_leaves(a) + edges_leaves(b),
    decreases b.len(),
{
    if b.len() == 0 {
        assert(a + b =~= a);
        assert(edges_leaves(a) + edges_leaves(b) =~= edges_leaves(a));
    } else {
        lemma_edges_leaves_add(a, b.drop_last());
        assert((a + b).drop_last() =~= a + b.drop_last());
        assert(edges_leaves(a + b) =~= edges_leaves(a) + edges_leaves(b));
    }
}

/// The data edges of a single edge.
pub proof fn lemma_edges_leaves_one(edge: Arc<CordRep>)
    ensures
        edges_leaves(seq![edge]) == leaves(edge),
{
    assert(seq![edge].drop_last() =~= Seq::<Arc<CordRep>>::empty());
    reveal_with_fuel(edges_leaves, 2);
    assert(edges_leaves(seq![edge]) =~= leaves(edge));
}

/// A node stands for the bytes of the data edges below it.
pub proof fn lemma_leaves_bytes(rep: Arc<CordRep>)
    ensures
        edges_bytes(leaves(rep)) == rep.bytes(),
    decreases rep,
{
    match *rep {
        CordRep::Btree(node) => {
            lemma_edges_leaves_bytes(node.edges@);
        },
        _ => {
            lemma_edges_bytes_one(rep);
        },
    }
}

/// A list of edges stands for the bytes of the data edges below it.
pub proof fn lemma_edges_leaves_bytes(edges: Seq<Arc<CordRep>>)
    ensures
        edges_bytes(edges_leaves(edges)) == edges_bytes(edges),
    decreases edges,
{
    if edges.len() > 0 {
        lemma_edges_leaves_bytes(edges.drop_last());
        lemma_leaves_bytes(edges.last());
        lemma_edges_bytes_add(edges_leaves(edges.drop_last()), leaves(edges.last()));
    }
}

/// Every data edge below a valid node is a valid, non-empty data edge.
pub proof fn lemma_leaves_valid(rep: Arc<CordRep>)
    requires
        rep.is_edge(),
    ensures
        forall|i: int| #![trigger leaves(rep)[i]] 0 <= i < leaves(rep).len() ==> leaves(rep)[i].is_leaf_edge(),
        leaves(rep).len() > 0,
    decreases rep,
{
    match *rep {
        CordRep::Btree(node) => {
            assert forall|i: int| #![trigger node.edges@[i]] 0 <= i < node.edges@.len() implies node.edges@[i].is_edge() by {
                lemma_edge_nonempty(node, i);
            }
            lemma_edges_leaves_valid(node.edges@);
        },
        _ => {},
    }
}

/// A list of edges stands above at least as many data edges.
pub proof fn lemma_leaf_count(edges: Seq<Arc<CordRep>>)
    requires
        forall|i: int| #![trigger edges[i]] 0 <= i < edges.len() ==> edges[i].is_edge(),
    ensures
        edges_leaves(edges).len() >= edges.len(),
    decreases edges.len(),
{
    if edges.len() > 0 {
        let init = edges.drop_last();
        assert forall|i: int| #![trigger init[i]] 0 <= i < init.len() implies init[i].is_edge() by {
            assert(init[i] == edges[i]);
        }
        lemma_leaf_count(init);
        assert(edges[edges.len() - 1].is_edge());
        lemma_leaves_valid(edges.last());
    }
}

/// A node with more than one edge stands above more than one data edge.
pub proof fn lemma_compact_node(rep: Arc<CordRep>)
    requires
        rep.wf(),
        *rep is Btree,
        rep.node().edges@.len() > 1,
    ensures
        leaves(rep).len() > 1,
        compact(rep),
{
    let node = rep.node();
    assert forall|i: int| #![trigger node.edges@[i]] 0 <= i < node.edges@.len() implies node.edges@[i].is_edge() by {
        lemma_edge_nonempty(node, i);
    }
    lemma_leaf_count(node.edges@);
}

/// Every edge of a valid node is non-empty.
pub proof fn lemma_edge_nonempty(node: CordRepBtree, i: int)
    requires
        node.partial(),
        0 <= i < node.edges@.len(),
    ensures
        node.edges@[i].is_edge(),
    decreases node,
{
    let edge = node.edges@[i];
    assert(fits_below(*edge, node.height as int));
    match *edge {
        CordRep::Btree(child) => {
            lemma_edge_nonempty(child, 0);
            lemma_edges_bytes_split(child.edges@, 0);
        },
        _ => {},
    }
}

/// Every data edge below valid edges is a valid, non-empty data edge.
pub proof fn lemma_edges_leaves_valid(edges: Seq<Arc<CordRep>>)
    requires
        forall|i: int| #![trigger edges[i]] 0 <= i < edges.len() ==> edges[i].is_edge(),
    ensures
        forall|i: int|
            #![trigger edges_leaves(edges)[i]]
            0 <= i < edges_leaves(edges).len() ==> edges_leaves(edges)[i].is_leaf_edge(),
        edges.len() > 0 ==> edges_leaves(edges).len() > 0,
    decreases edges,
{
    if edges.len() > 0 {
        let init = edges.drop_last();
        assert forall|i: int| #![trigger init[i]] 0 <= i < init.len() implies init[i].is_edge() by {
            assert(init[i] == edges[i]);
        }
        lemma_edges_leaves_valid(init);
        assert(edges[edges.len() - 1].is_edge());
        lemma_leaves_valid(edges.last());
        assert forall|i: int| #![trigger edges_leaves(edges)[i]] 0 <= i < edges_leaves(edges).len() implies edges_leaves(edges)[i].is_leaf_edge() by {
            let k = edges_leaves(init).len();
            if i < k {
                assert(edges_leaves(edges)[i] == edges_leaves(init)[i]);
            } else {
                assert(edges_leaves(edges)[i] == leaves(edges.last())[i - k]);
            }
        }
    }
}

/// The bytes of a list of edges, split around the edge at `i`.
pub proof fn lemma_edges_bytes_split(edges: Seq<Arc<CordRep>>, i: int)
    requires
        0 <= i < edges.len(),
    ensures
        edges_bytes(edges) == edges_bytes(edges.take(i)) + edges[i].bytes() + edges_bytes(edges.skip(i + 1)),
        edges_bytes(edges.take(i + 1)) == edges_bytes(edges.take(i)) + edges[i].bytes(),
        edges_bytes(edges.skip(i)) == edges[i].bytes() + edges_bytes(edges.skip(i + 1)),
{
    let front = edges.take(i);
    let mid = seq![edges[i]];
    let back = edges.skip(i + 1);
    lemma_edges_bytes_one(edges[i]);
    lemma_edges_bytes_add(front, mid);
    lemma_edges_bytes_add(front + mid, back);
    lemma_edges_bytes_add(mid, back);
    assert(edges =~= front + mid + back);
    assert(edges.take(i + 1) =~= front + mid);
    assert(edges.skip(i) =~= mid + back);
}

/// The data edges of a list of edges, split around the edge at `i`.
pub proof fn lemma_edges_leaves_split(edges: Seq<Arc<CordRep>>, i: int)
    requires
        0 <= i < edges.len(),
    ensures
        edges_leaves(edges) == edges_leaves(edges.take(i)) + leaves(edges[i]) + edges_leaves(edges.skip(i + 1)),
        edges_leaves(edges.take(i + 1)) == edges_leaves(edges.take(i)) + leaves(edges[i]),
        edges_leaves(edges.skip(i)) == leaves(edges[i]) + edges_leaves(edges.skip(i + 1)),
{
    let front = edges.take(i);
    let mid = seq![edges[i]];
    let back = edges.skip(i + 1);
    lemma_edges_leaves_one(edges[i]);
    lemma_edges_leaves_add(front, mid);
    lemma_edges_leaves_add(front + mid, back);
    lemma_edges_leaves_add(mid, back);
    assert(edges =~= front + mid + back);
    assert(edges.take(i + 1) =~= front + mid);
    assert(edges.skip(i) =~= mid + back);
}

} // verus!
