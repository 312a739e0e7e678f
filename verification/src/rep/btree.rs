//! B-tree nodes: the tree structure of a non-trivial cord.
//!
//! Data is stored at the leaf level only. Data can be added at either end of
//! the tree, so all nodes but the outer "legs" of a tree that was built by
//! appending or prepending are full. All operations are O(log n) or better,
//! and a tree needs no balancing until it has grown beyond `MAX_HEIGHT`.

use super::edge::is_data_edge;
use super::{
    edges_bytes, edges_leaves, fits_below, leaves, lemma_edges_bytes_add, lemma_edges_bytes_one,
    lemma_edges_leaves_add, lemma_edges_leaves_one, lemma_len_fits, CordRep,
};
use crate::seqs::join;
use std::sync::Arc;
use vstd::prelude::*;

verus! {

/// Maximum number of edges per node.
pub const MAX_CAPACITY: usize = 6;
/// Reasonable maximum depth of a tree.
pub const MAX_DEPTH: usize = 12;
/// Height beyond which a tree is rebuilt (leaf nodes have height 0).
pub const MAX_HEIGHT: usize = 11;
/// No tree is higher than this: a rebuilt tree of this height would hold more
/// data edges than there are machine integers.
pub const HEIGHT_LIMIT: usize = 25;
/// Accounted size of a tree node.
pub const BTREE_REP_SIZE: usize = 64;

/// A tree node.
pub struct CordRepBtree {
    /// Distance from the leaf level.
    pub height: usize,
    /// Number of bytes below this node.
    pub length: usize,
    /// The children: data edges in a leaf, nodes of height `height - 1` elsewhere.
    pub edges: Vec<Arc<CordRep>>,
}

/// The bytes and data edges of joined lists of edges.
pub proof fn lemma_join_edges(back: bool, a: Seq<Arc<CordRep>>, b: Seq<Arc<CordRep>>)
    ensures
        edges_bytes(join(back, a, b)) == join(back, edges_bytes(a), edges_bytes(b)),
        edges_leaves(join(back, a, b)) == join(back, edges_leaves(a), edges_leaves(b)),
{
    lemma_edges_bytes_add(a, b);
    lemma_edges_bytes_add(b, a);
    lemma_edges_leaves_add(a, b);
    lemma_edges_leaves_add(b, a);
}

/// The bytes and data edges of a list of edges with one more edge.
pub proof fn lemma_join_edge(back: bool, a: Seq<Arc<CordRep>>, edge: Arc<CordRep>)
    ensures
        edges_bytes(join(back, a, seq![edge])) == join(back, edges_bytes(a), edge.bytes()),
        edges_leaves(join(back, a, seq![edge])) == join(back, edges_leaves(a), leaves(edge)),
{
    lemma_join_edges(back, a, seq![edge]);
    lemma_edges_bytes_one(edge);
    lemma_edges_leaves_one(edge);
}

impl CordRepBtree {
    /// A new empty node at `height`.
    pub fn new_node(height: usize) -> (node: CordRepBtree)
        requires
            height <= HEIGHT_LIMIT,
        ensures
            node.partial(),
            node.height == height,
            node.length == 0,
            node.edges@ == Seq::<Arc<CordRep>>::empty(),
    {
        CordRepBtree { height, length: 0, edges: Vec::new() }
    }

    /// The number of edges.
    pub fn size(&self) -> (size: usize)
        ensures
            size == self.edges@.len(),
    {
        self.edges.len()
    }

    /// Adds `edge` at the back or front.
    pub fn add_one(&mut self, back: bool, edge: Arc<CordRep>)
        requires
            old(self).partial(),
            old(self).edges@.len() < MAX_CAPACITY,
            edge.wf(),
            fits_below(*edge, old(self).height as int),
            old(self).length + edge.bytes().len() <= usize::MAX,
        ensures
            final(self).partial(),
            final(self).height == old(self).height,
            final(self).length == old(self).length + edge.bytes().len(),
            final(self).edges@ == join(back, old(self).edges@, seq![edge]),
    {
        let ghost before = self.edges@;
        proof {
            lemma_join_edge(back, before, edge);
        }
        self.length = self.length + edge.len();
        if back {
            self.edges.push(edge);
            assert(self.edges@ =~= join(back, before, seq![edge]));
        } else {
            self.edges.insert(0, edge);
            assert(self.edges@ =~= join(back, before, seq![edge]));
        }
    }

    /// Takes the back or front edge out of the node.
    pub fn take_edge(&mut self, back: bool) -> (edge: Arc<CordRep>)
        requires
            old(self).partial(),
            old(self).edges@.len() > 0,
        ensures
            final(self).partial(),
            final(self).height == old(self).height,
            old(self).length == final(self).length + edge.bytes().len(),
            old(self).edges@ == join(back, final(self).edges@, seq![edge]),
            edge.wf(),
            fits_below(*edge, old(self).height as int),
    {
        let ghost before = self.edges@;
        let index: usize = if back {
            self.edges.len() - 1
        } else {
            0
        };
        let edge = self.edges.remove(index);
        assert(edge == before[index as int]);
        proof {
            assert(before =~= join(back, self.edges@, seq![edge]));
            lemma_join_edge(back, self.edges@, edge);
        }
        self.length = self.length - edge.len();
        edge
    }

    /// A copy of the node that shares its edges.
    pub fn copy(&self) -> (node: CordRepBtree)
        ensures
            node.height == self.height,
            node.length == self.length,
            node.edges@ == self.edges@,
    {
        let edges = copy_edges(&self.edges, 0, self.edges.len());
        assert(edges@ =~= self.edges@);
        CordRepBtree { height: self.height, length: self.length, edges }
    }

    /// A node that holds `rep`, one level above it (at height 0 for a data edge).
    pub fn new_with(rep: Arc<CordRep>) -> (tree: Arc<CordRep>)
        requires
            rep.is_edge(),
            rep.height() < HEIGHT_LIMIT,
        ensures
            tree.is_tree(rep.height() + 1),
            tree.node().edges@ == seq![rep],
            leaves(tree) == leaves(rep),
            tree.bytes() == rep.bytes(),
    {
        let height: usize = match &*rep {
            CordRep::Btree(node) => node.height + 1,
            _ => 0,
        };
        proof {
            lemma_len_fits(rep);
            lemma_edges_bytes_one(rep);
            lemma_edges_leaves_one(rep);
        }
        let length: usize = rep.len();
        let mut edges: Vec<Arc<CordRep>> = Vec::with_capacity(MAX_CAPACITY);
        edges.push(rep);
        assert(edges@ =~= seq![rep]);
        Arc::new(CordRep::Btree(CordRepBtree { height, length, edges }))
    }

    /// A node that holds `front` and `back`, which are of equal height.
    pub fn new_pair(front: Arc<CordRep>, back: Arc<CordRep>) -> (tree: Arc<CordRep>)
        requires
            front.is_tree(front.height()),
            back.is_tree(front.height()),
            front.height() < HEIGHT_LIMIT,
            front.bytes().len() + back.bytes().len() <= usize::MAX,
        ensures
            tree.is_tree(front.height() + 1),
            tree.node().edges@ == seq![front, back],
            leaves(tree) == leaves(front) + leaves(back),
            tree.bytes() == front.bytes() + back.bytes(),
    {
        let height: usize = node_of(&front).height + 1;
        let length: usize = front.len() + back.len();
        proof {
            lemma_join_edge(true, seq![front], back);
            lemma_edges_bytes_one(front);
            lemma_edges_leaves_one(front);
            assert(seq![front] + seq![back] =~= seq![front, back]);
        }
        let mut edges: Vec<Arc<CordRep>> = Vec::with_capacity(MAX_CAPACITY);
        edges.push(front);
        edges.push(back);
        assert(edges@ =~= seq![front, back]);
        Arc::new(CordRep::Btree(CordRepBtree { height, length, edges }))
    }

    /// A tree of `rep`: `rep` itself where it is a tree, and a leaf node
    /// that holds `rep` where it is a data edge.
    pub fn create(rep: Arc<CordRep>) -> (tree: Arc<CordRep>)
        requires
            rep.is_edge(),
        ensures
            tree.is_tree(tree.height()),
            leaves(tree) == leaves(rep),
            tree.bytes() == rep.bytes(),
            *rep is Btree ==> tree == rep,
            *rep !is Btree ==> tree.height() == 0 && tree.node().edges@ == seq![rep],
    {
        if is_data_edge(&rep) {
            return Self::new_with(rep);
        }
        rep
    }
}

/// The tree node that `rep` is.
pub fn node_of(rep: &CordRep) -> (node: &CordRepBtree)
    requires
        *rep is Btree,
    ensures
        *node == rep.node(),
{
    match rep {
        CordRep::Btree(node) => node,
        _ => {
            proof {
                assert(false);
            }
            unreached()
        },
    }
}

/// The edges `[begin, end)` of `edges`, shared.
pub fn copy_edges(edges: &Vec<Arc<CordRep>>, begin: usize, end: usize) -> (copy: Vec<Arc<CordRep>>)
    requires
        begin <= end <= edges@.len(),
    ensures
        copy@ == edges@.subrange(begin as int, end as int),
{
    let mut copy: Vec<Arc<CordRep>> = Vec::with_capacity(MAX_CAPACITY);
    let mut i: usize = begin;
    while i < end
        invariant
            begin <= i <= end <= edges@.len(),
            copy@ =~= edges@.subrange(begin as int, i as int),
        decreases end - i,
    {
        copy.push(edges[i].clone());
        i += 1;
    }
    copy
}

} // verus!
