//! Adding to either end of a tree.

use super::btree::{copy_edges, lemma_join_edge, lemma_join_edges, node_of, CordRepBtree, MAX_CAPACITY};
use super::edge::is_data_edge;
use super::flat::{capacity_for, lemma_capacity_for, CordRepFlat, MAX_FLAT_SIZE};
use super::pieces::{blocks, cut, lemma_blocks_join, lemma_cut_first};
use super::rebuild::lemma_full_count_order;
use super::share::get_mut;
use super::stack::{add_edge, grown, OpResult, StackOperations};
use super::{
    edges_bytes, edges_leaves, fits_below, leaves, lemma_edges_bytes_add, lemma_leaves_bytes, CordRep,
};
use crate::seqs::{join, lemma_join_assoc, lemma_join_empty};
use core::mem::swap;
use std::sync::Arc;
use vstd::prelude::*;
use vstd::slice::slice_subrange;

verus! {

/// The bytes of a tree with joined data edges.
pub proof fn lemma_join_bytes(back: bool, tree: Arc<CordRep>, base: Arc<CordRep>, ext: Seq<Arc<CordRep>>)
    requires
        leaves(tree) == join(back, leaves(base), ext),
    ensures
        tree.bytes() == join(back, base.bytes(), edges_bytes(ext)),
{
    lemma_leaves_bytes(tree);
    lemma_leaves_bytes(base);
    lemma_edges_bytes_add(leaves(base), ext);
    lemma_edges_bytes_add(ext, leaves(base));
}

/// Growing twice is growing.
pub proof fn lemma_grown_trans(before: int, first: Arc<CordRep>, second: Arc<CordRep>)
    requires
        grown(first, before),
        grown(second, first.height()),
        leaves(first).len() <= leaves(second).len(),
    ensures
        grown(second, before),
{
    if 0 < second.height() <= first.height() {
        lemma_full_count_order(second.height() as nat, first.height() as nat);
    }
}

/// The edges of the node `src`, taken out of it where it is held by no one else.
fn into_edges(src: Arc<CordRep>) -> (edges: Vec<Arc<CordRep>>)
    requires
        *src is Btree,
    ensures
        edges@ == src.node().edges@,
{
    let mut src = src;
    if let Some(CordRep::Btree(node)) = get_mut(&mut src) {
        let mut edges: Vec<Arc<CordRep>> = Vec::new();
        swap(&mut node.edges, &mut edges);
        return edges;
    }
    let node = node_of(&src);
    let edges = copy_edges(&node.edges, 0, node.edges.len());
    assert(edges@ =~= src.node().edges@);
    edges
}

impl CordRepBtree {
    /// Adds `edges` at the back or front, keeping their order.
    pub fn add_edges(&mut self, back: bool, edges: Vec<Arc<CordRep>>)
        requires
            old(self).partial(),
            old(self).edges@.len() + edges@.len() <= MAX_CAPACITY,
            forall|i: int|
                #![trigger edges@[i]]
                0 <= i < edges@.len() ==> edges@[i].wf() && fits_below(*edges@[i], old(self).height as int),
            old(self).length + edges_bytes(edges@).len() <= usize::MAX,
        ensures
            final(self).partial(),
            final(self).height == old(self).height,
            final(self).edges@ == join(back, old(self).edges@, edges@),
    {
        let ghost before = self.edges@;
        let ghost added = edges@;
        proof {
            lemma_join_edges(back, before, added);
        }
        let mut edges = edges;
        let mut sum: usize = 0;
        let mut i: usize = 0;
        proof {
            assert(added.take(0) =~= Seq::<Arc<CordRep>>::empty());
        }
        while i < edges.len()
            invariant
                i <= edges@.len(),
                edges@ == added,
                forall|i: int| #![trigger edges@[i]] 0 <= i < edges@.len() ==> edges@[i].wf(),
                sum == edges_bytes(added.take(i as int)).len(),
                edges_bytes(added).len() <= usize::MAX,
            decreases edges@.len() - i,
        {
            proof {
                super::lemma_edges_bytes_split(added, i as int);
            }
            sum = sum + edges[i].len();
            i += 1;
        }
        assert(added.take(i as int) =~= added);
        self.length = self.length + sum;
        if back {
            self.edges.append(&mut edges);
        } else {
            edges.append(&mut self.edges);
            swap(&mut self.edges, &mut edges);
        }
        assert(self.edges@ =~= join(back, before, added));
    }

    /// Adds the data edge `rep` at the back or front of `tree`.
    fn add_cord_rep(tree: Arc<CordRep>, back: bool, rep: Arc<CordRep>) -> (r: Arc<CordRep>)
        requires
            tree.is_tree(tree.height()),
            rep.is_leaf_edge(),
            tree.bytes().len() + rep.bytes().len() <= usize::MAX,
        ensures
            grown(r, tree.height()),
            leaves(r) == join(back, leaves(tree), leaves(rep)),
            r.bytes() == join(back, tree.bytes(), rep.bytes()),
    {
        let depth: usize = node_of(&tree).height;
        let (ops, leaf) = StackOperations::build_stack(tree, back, depth);
        let ghost inner = leaves(leaf);
        let ghost all = leaves(tree);
        proof {
            lemma_leaves_bytes(tree);
            lemma_leaves_bytes(rep);
            lemma_leaves_bytes(leaf);
            super::stack::lemma_whole_len(back, ops.stack@, inner);
            lemma_edges_bytes_add(all, leaves(rep));
            lemma_edges_bytes_add(leaves(rep), all);
        }
        let result = add_edge(leaf, back, rep);
        let r = ops.unwind(result, Ghost(inner), Ghost(leaves(rep)), Ghost(0));
        proof {
            lemma_join_bytes(back, r, tree, leaves(rep));
        }
        r
    }

    /// Merges the tree `src` into `dst`, after or before its contents. `dst` is not the lower tree.
    fn merge(dst: Arc<CordRep>, back: bool, src: Arc<CordRep>) -> (r: Arc<CordRep>)
        requires
            dst.is_tree(dst.height()),
            src.is_tree(src.height()),
            src.height() <= dst.height(),
            dst.bytes().len() + src.bytes().len() <= usize::MAX,
        ensures
            grown(r, dst.height()),
            leaves(r) == join(back, leaves(dst), leaves(src)),
            r.bytes() == join(back, dst.bytes(), src.bytes()),
    {
        let height: usize = node_of(&src).height;
        let depth: usize = node_of(&dst).height - height;
        let (ops, merge_node) = StackOperations::build_stack(dst, back, depth);
        let ghost inner = leaves(merge_node);
        let ghost ext = leaves(src);
        proof {
            lemma_leaves_bytes(dst);
            lemma_leaves_bytes(src);
            lemma_leaves_bytes(merge_node);
            super::stack::lemma_whole_len(back, ops.stack@, inner);
            lemma_edges_bytes_add(leaves(dst), ext);
            lemma_edges_bytes_add(ext, leaves(dst));
        }
        let result = if node_of(&merge_node).size() + node_of(&src).size() <= MAX_CAPACITY {
            proof {
                lemma_join_edges(back, merge_node.node().edges@, src.node().edges@);
            }
            OpResult::Updated(add_edges_from(merge_node, back, src))
        } else {
            OpResult::Popped(merge_node, src)
        };
        let r = ops.unwind(result, Ghost(inner), Ghost(ext), Ghost(height as int));
        proof {
            lemma_join_bytes(back, r, dst, ext);
        }
        r
    }

    /// A tree of `left` followed by `right`.
    pub fn merge_trees(left: Arc<CordRep>, right: Arc<CordRep>) -> (r: Arc<CordRep>)
        requires
            left.is_tree(left.height()),
            right.is_tree(right.height()),
            left.bytes().len() + right.bytes().len() <= usize::MAX,
        ensures
            grown(r, if left.height() >= right.height() { left.height() } else { right.height() }),
            leaves(r) == leaves(left) + leaves(right),
            r.bytes() == left.bytes() + right.bytes(),
    {
        if node_of(&left).height >= node_of(&right).height {
            Self::merge(left, true, right)
        } else {
            Self::merge(right, false, left)
        }
    }

    /// Appends `rep`, a data edge or a tree, to `tree`.
    pub fn append(tree: Arc<CordRep>, rep: Arc<CordRep>) -> (r: Arc<CordRep>)
        requires
            tree.is_tree(tree.height()),
            rep.is_edge(),
            tree.bytes().len() + rep.bytes().len() <= usize::MAX,
        ensures
            grown(r, if tree.height() >= rep.height() { tree.height() } else { rep.height() }),
            leaves(r) == leaves(tree) + leaves(rep),
            r.bytes() == tree.bytes() + rep.bytes(),
    {
        if is_data_edge(&rep) {
            return Self::add_cord_rep(tree, true, rep);
        }
        Self::merge_trees(tree, rep)
    }

    /// Prepends `rep`, a data edge or a tree, to `tree`.
    pub fn prepend(tree: Arc<CordRep>, rep: Arc<CordRep>) -> (r: Arc<CordRep>)
        requires
            tree.is_tree(tree.height()),
            rep.is_edge(),
            tree.bytes().len() + rep.bytes().len() <= usize::MAX,
        ensures
            grown(r, if tree.height() >= rep.height() { tree.height() } else { rep.height() }),
            leaves(r) == leaves(rep) + leaves(tree),
            r.bytes() == rep.bytes() + tree.bytes(),
    {
        if is_data_edge(&rep) {
            return Self::add_cord_rep(tree, false, rep);
        }
        Self::merge_trees(rep, tree)
    }
}

/// Adds the edges of the node `src` to the node `this` of equal height: in
/// place where `this` is held by no one else, and on a copy otherwise.
fn add_edges_from(this: Arc<CordRep>, back: bool, src: Arc<CordRep>) -> (tree: Arc<CordRep>)
    requires
        this.is_tree(this.height()),
        src.is_tree(this.height()),
        this.node().edges@.len() + src.node().edges@.len() <= MAX_CAPACITY,
        this.bytes().len() + src.bytes().len() <= usize::MAX,
    ensures
        tree.is_tree(this.height()),
        tree.node().edges@ == join(back, this.node().edges@, src.node().edges@),
{
    let edges = into_edges(src);
    let mut this = this;
    if let Some(CordRep::Btree(node)) = get_mut(&mut this) {
        node.add_edges(back, edges);
        return this;
    }
    let mut copy = node_of(&this).copy();
    copy.add_edges(back, edges);
    Arc::new(CordRep::Btree(copy))
}

/// The part of `data` that is left when `n` bytes were used up: from the front
/// where data goes to the back of a tree, and from the back otherwise.
fn consume(data: &[u8], back: bool, n: usize) -> (rest: &[u8])
    requires
        n <= data@.len(),
    ensures
        rest@ == if back {
            data@.skip(n as int)
        } else {
            data@.take(data@.len() - n)
        },
{
    let len: usize = data.len();
    if back {
        assert(data@.skip(n as int) =~= data@.subrange(n as int, len as int));
        slice_subrange(data, n, len)
    } else {
        assert(data@.take(len - n) =~= data@.subrange(0, len - n));
        slice_subrange(data, 0, len - n)
    }
}

/// `edge` is a flat block of the size class for its bytes and `extra` more.
pub open spec fn sized(edge: CordRep, extra: int) -> bool {
    match edge {
        CordRep::Flat(flat) => flat.spec_capacity() == capacity_for(flat.data@.len() + extra, MAX_FLAT_SIZE as int),
        _ => false,
    }
}

/// All of `edges` are flat blocks of the size class for their bytes and `extra` more.
pub open spec fn all_sized(edges: Seq<Arc<CordRep>>, extra: int) -> bool {
    forall|i: int| 0 <= i < edges.len() ==> sized(*#[trigger] edges[i], extra)
}

/// Joined lists of blocks of their size class.
pub proof fn lemma_sized_join(back: bool, a: Seq<Arc<CordRep>>, b: Seq<Arc<CordRep>>, extra: int)
    requires
        all_sized(a, extra),
        all_sized(b, extra),
    ensures
        all_sized(join(back, a, b), extra),
{
    let all = join(back, a, b);
    assert forall|i: int| 0 <= i < all.len() implies sized(*#[trigger] all[i], extra) by {
        if back {
            assert(all[i] == if i < a.len() { a[i] } else { b[i - a.len()] });
        } else {
            assert(all[i] == if i < b.len() { b[i] } else { a[i - b.len()] });
        }
    }
}

/// A new flat block with the next part of `data`, as much as fits into a block
/// with room for `extra` more bytes, and what is left of `data`.
fn consume_flat(data: &[u8], back: bool, extra: usize) -> (r: (Arc<CordRep>, &[u8]))
    requires
        data@.len() > 0,
    ensures
        r.0.is_leaf_edge(),
        *r.0 is Flat,
        data@ == join(back, r.0.bytes(), r.1@),
        r.1@.len() < data@.len(),
        cut(back, data@) == join(back, seq![r.0.bytes()], cut(back, r.1@)),
        sized(*r.0, extra as int),
{
    let mut flat = CordRepFlat::new(data.len().saturating_add(extra));
    let capacity: usize = flat.capacity();
    let len: usize = data.len();
    let n: usize = if len <= capacity {
        len
    } else {
        capacity
    };
    proof {
        lemma_capacity_for(data@.len() as int, MAX_FLAT_SIZE as int);
        lemma_capacity_for(
            if data@.len() + extra <= usize::MAX {
                data@.len() + extra
            } else {
                usize::MAX as int
            },
            MAX_FLAT_SIZE as int,
        );
        lemma_capacity_for(data@.len() + extra, MAX_FLAT_SIZE as int);
        lemma_capacity_for(n + extra, MAX_FLAT_SIZE as int);
    }
    let begin: usize = if back {
        0
    } else {
        len - n
    };
    let part = slice_subrange(data, begin, begin + n);
    flat.data.extend_from_slice(part);
    assert(flat.data@ =~= part@);
    let rest = consume(data, back, n);
    proof {
        assert(data@ =~= join(back, part@, rest@));
        lemma_cut_first(back, part@, rest@);
    }
    (CordRep::flat(flat), rest)
}

impl CordRepBtree {
    /// Adds `data` to this leaf node, in new flat blocks, until all data is
    /// used up or the node is full. Returns what is left.
    pub fn add_data_to_leaf<'a>(&mut self, back: bool, data: &'a [u8], extra: usize) -> (rest: &'a [u8])
        requires
            old(self).partial(),
            old(self).height == 0,
            old(self).edges@.len() < MAX_CAPACITY,
            data@.len() > 0,
            old(self).length + data@.len() <= usize::MAX,
        ensures
            final(self).partial(),
            final(self).height == 0,
            final(self).edges@.len() > old(self).edges@.len(),
            exists|added: Seq<Arc<CordRep>>|
                {
                    &&& final(self).edges@ == join(back, old(self).edges@, added)
                    &&& data@ == join(back, #[trigger] edges_bytes(added), rest@)
                    &&& edges_leaves(added) == added
                    &&& cut(back, data@) == join(back, blocks(added), cut(back, rest@))
                    &&& all_sized(added, extra as int)
                },
            rest@.len() < data@.len(),
            rest@.len() == 0 || final(self).edges@.len() == MAX_CAPACITY,
    {
        let ghost before = self.edges@;
        let ghost whole_data = data@;
        let mut data: &'a [u8] = data;
        let ghost mut added: Seq<Arc<CordRep>> = Seq::empty();
        proof {
            lemma_join_empty(back, before);
            lemma_join_empty(back, data@);
            lemma_join_empty(back, cut(back, data@));
            assert(blocks(added) =~= Seq::<Seq<u8>>::empty());
        }
        while data.len() > 0 && self.edges.len() < MAX_CAPACITY
            invariant
                self.partial(),
                self.height == 0,
                self.edges@ == join(back, before, added),
                whole_data == join(back, edges_bytes(added), data@),
                edges_leaves(added) == added,
                cut(back, whole_data) == join(back, blocks(added), cut(back, data@)),
                all_sized(added, extra as int),
                self.length + data@.len() <= usize::MAX,
                before.len() < MAX_CAPACITY,
                whole_data.len() > 0,
                added.len() > 0 ==> data@.len() < whole_data.len(),
            decreases data@.len(),
        {
            let (flat, rest) = consume_flat(data, back, extra);
            proof {
                lemma_join_edge(back, added, flat);
                lemma_join_assoc(back, edges_bytes(added), flat.bytes(), rest@);
                lemma_join_assoc(back, before, added, seq![flat]);
                lemma_blocks_join(back, added, seq![flat]);
                lemma_join_assoc(back, blocks(added), seq![flat.bytes()], cut(back, rest@));
                assert(blocks(seq![flat]) =~= seq![flat.bytes()]);
                lemma_sized_join(back, added, seq![flat], extra as int);
                added = join(back, added, seq![flat]);
            }
            self.add_one(back, flat);
            data = rest;
        }
        data
    }

    /// A new leaf node with as much of `data` as fits, and what is left of it.
    pub fn new_leaf<'a>(back: bool, data: &'a [u8], extra: usize) -> (r: (Arc<CordRep>, &'a [u8]))
        requires
            data@.len() > 0,
        ensures
            r.0.is_tree(0),
            data@ == join(back, r.0.bytes(), r.1@),
            r.1@.len() < data@.len(),
            cut(back, data@) == join(back, blocks(leaves(r.0)), cut(back, r.1@)),
            all_sized(leaves(r.0), extra as int),
    {
        let mut leaf = CordRepBtree::new_node(0);
        let _len: usize = data.len();
        let rest = leaf.add_data_to_leaf(back, data, extra);
        proof {
            let added = choose|added: Seq<Arc<CordRep>>|
                {
                    &&& leaf.edges@ == join(back, Seq::<Arc<CordRep>>::empty(), added)
                    &&& data@ == join(back, #[trigger] edges_bytes(added), rest@)
                    &&& edges_leaves(added) == added
                    &&& cut(back, data@) == join(back, blocks(added), cut(back, rest@))
                    &&& all_sized(added, extra as int)
                };
            lemma_join_empty(back, added);
        }
        (Arc::new(CordRep::Btree(leaf)), rest)
    }

    /// Adds `data` to `tree` in new flat blocks, with room for `extra` more
    /// bytes in the last one: first into the outer leaf node, then in new leaf nodes.
    fn add_data(tree: Arc<CordRep>, back: bool, data: &[u8], extra: usize) -> (r: Arc<CordRep>)
        requires
            tree.is_tree(tree.height()),
            tree.bytes().len() + data@.len() <= usize::MAX,
        ensures
            grown(r, tree.height()),
            r.bytes() == join(back, tree.bytes(), data@),
            exists|ext: Seq<Arc<CordRep>>|
                leaves(r) == #[trigger] join(back, leaves(tree), ext) && blocks(ext) == cut(back, data@) && all_sized(
                    ext,
                    extra as int,
                ),
    {
        let ghost start = tree;
        let ghost target = join(back, tree.bytes(), data@);
        let ghost pieces = cut(back, data@);
        let ghost mut added: Seq<Arc<CordRep>> = Seq::empty();
        let mut tree = tree;
        let mut data: &[u8] = data;
        proof {
            lemma_join_empty(back, leaves(start));
            lemma_join_empty(back, pieces);
            assert(blocks(added) =~= Seq::<Seq<u8>>::empty());
        }
        while data.len() > 0
            invariant
                grown(tree, start.height()),
                leaves(tree) == join(back, leaves(start), added),
                target == join(back, tree.bytes(), data@),
                pieces == join(back, blocks(added), cut(back, data@)),
                all_sized(added, extra as int),
                tree.bytes().len() + data@.len() <= usize::MAX,
            decreases data@.len(),
        {
            let ghost prior = tree;
            let ghost todo = data@;
            let depth: usize = node_of(&tree).height;
            let (ops, leaf) = StackOperations::build_stack(tree, back, depth);
            let ghost inner = leaves(leaf);
            let ghost mut ext: Seq<Arc<CordRep>> = Seq::empty();
            proof {
                lemma_leaves_bytes(prior);
                lemma_leaves_bytes(leaf);
                super::stack::lemma_whole_len(back, ops.stack@, inner);
            }
            let result = if node_of(&leaf).size() < MAX_CAPACITY {
                let (updated, rest) = add_data_to(leaf, back, data, extra);
                proof {
                    ext = choose|ext: Seq<Arc<CordRep>>|
                        {
                            &&& leaves(updated) == join(back, leaves(leaf), ext)
                            &&& todo == join(back, #[trigger] edges_bytes(ext), rest@)
                            &&& cut(back, todo) == join(back, blocks(ext), cut(back, rest@))
                            &&& all_sized(ext, extra as int)
                        };
                }
                data = rest;
                OpResult::Updated(updated)
            } else {
                let (fresh, rest) = Self::new_leaf(back, data, extra);
                proof {
                    ext = leaves(fresh);
                    lemma_leaves_bytes(fresh);
                }
                data = rest;
                OpResult::Popped(leaf, fresh)
            };
            proof {
                lemma_edges_bytes_add(leaves(prior), ext);
                lemma_edges_bytes_add(ext, leaves(prior));
            }
            tree = ops.unwind(result, Ghost(inner), Ghost(ext), Ghost(0));
            proof {
                lemma_join_bytes(back, tree, prior, ext);
                lemma_join_assoc(back, prior.bytes(), edges_bytes(ext), data@);
                lemma_join_assoc(back, leaves(start), added, ext);
                lemma_blocks_join(back, added, ext);
                lemma_join_assoc(back, blocks(added), blocks(ext), cut(back, data@));
                lemma_sized_join(back, added, ext, extra as int);
                added = join(back, added, ext);
                lemma_grown_trans(start.height(), prior, tree);
            }
        }
        proof {
            lemma_join_empty(back, tree.bytes());
            lemma_join_empty(back, blocks(added));
            assert(data@ =~= Seq::<u8>::empty());
        }
        tree
    }

    /// Appends `data` to `tree`, with room for `extra` more bytes in the last new block.
    pub fn append_data(tree: Arc<CordRep>, data: &[u8], extra: usize) -> (r: Arc<CordRep>)
        requires
            tree.is_tree(tree.height()),
            tree.bytes().len() + data@.len() <= usize::MAX,
        ensures
            grown(r, tree.height()),
            r.bytes() == tree.bytes() + data@,
            leaves(tree).is_prefix_of(leaves(r)),
            blocks(leaves(r)) == blocks(leaves(tree)) + cut(true, data@),
            all_sized(leaves(r).skip(leaves(tree).len() as int), extra as int),
    {
        let r = Self::add_data(tree, true, data, extra);
        proof {
            let ext = choose|ext: Seq<Arc<CordRep>>|
                leaves(r) == #[trigger] join(true, leaves(tree), ext) && blocks(ext) == cut(true, data@) && all_sized(
                    ext,
                    extra as int,
                );
            lemma_blocks_join(true, leaves(tree), ext);
            assert(leaves(r).skip(leaves(tree).len() as int) =~= ext);
            assert(leaves(tree) =~= leaves(r).subrange(0, leaves(tree).len() as int));
        }
        r
    }

    /// Prepends `data` to `tree`, with room for `extra` more bytes in the last new block.
    pub fn prepend_data(tree: Arc<CordRep>, data: &[u8], extra: usize) -> (r: Arc<CordRep>)
        requires
            tree.is_tree(tree.height()),
            tree.bytes().len() + data@.len() <= usize::MAX,
        ensures
            grown(r, tree.height()),
            r.bytes() == data@ + tree.bytes(),
            leaves(tree).is_suffix_of(leaves(r)),
            blocks(leaves(r)) == cut(false, data@) + blocks(leaves(tree)),
            all_sized(leaves(r).take(leaves(r).len() - leaves(tree).len()), extra as int),
    {
        let r = Self::add_data(tree, false, data, extra);
        proof {
            let ext = choose|ext: Seq<Arc<CordRep>>|
                leaves(r) == #[trigger] join(false, leaves(tree), ext) && blocks(ext) == cut(false, data@) && all_sized(
                    ext,
                    extra as int,
                );
            lemma_blocks_join(false, leaves(tree), ext);
            assert(leaves(r).take(leaves(r).len() - leaves(tree).len()) =~= ext);
            assert(leaves(tree) =~= leaves(r).subrange(
                leaves(r).len() - leaves(tree).len(),
                leaves(r).len() as int,
            ));
        }
        r
    }
}

/// Adds `data` to the leaf node `this`, in place where it is held by no one
/// else and on a copy otherwise, and returns what is left of `data`.
fn add_data_to(this: Arc<CordRep>, back: bool, data: &[u8], extra: usize) -> (r: (Arc<CordRep>, &[u8]))
    requires
        this.is_tree(0),
        this.node().edges@.len() < MAX_CAPACITY,
        data@.len() > 0,
        this.bytes().len() + data@.len() <= usize::MAX,
    ensures
        r.0.is_tree(0),
        exists|ext: Seq<Arc<CordRep>>|
            {
                &&& leaves(r.0) == join(back, leaves(this), ext)
                &&& data@ == join(back, #[trigger] edges_bytes(ext), r.1@)
                &&& cut(back, data@) == join(back, blocks(ext), cut(back, r.1@))
                &&& all_sized(ext, extra as int)
            },
        r.1@.len() < data@.len(),
{
    let ghost before = this.node().edges@;
    let mut this = this;
    if let Some(CordRep::Btree(node)) = get_mut(&mut this) {
        let rest = node.add_data_to_leaf(back, data, extra);
        proof {
            let added = choose|added: Seq<Arc<CordRep>>|
                {
                    &&& node.edges@ == join(back, before, added)
                    &&& data@ == join(back, #[trigger] edges_bytes(added), rest@)
                    &&& edges_leaves(added) == added
                    &&& cut(back, data@) == join(back, blocks(added), cut(back, rest@))
                    &&& all_sized(added, extra as int)
                };
            lemma_join_edges(back, before, added);
        }
        return (this, rest);
    }
    let mut copy = node_of(&this).copy();
    let rest = copy.add_data_to_leaf(back, data, extra);
    proof {
        let added = choose|added: Seq<Arc<CordRep>>|
            {
                &&& copy.edges@ == join(back, before, added)
                &&& data@ == join(back, #[trigger] edges_bytes(added), rest@)
                &&& edges_leaves(added) == added
                &&& cut(back, data@) == join(back, blocks(added), cut(back, rest@))
                &&& all_sized(added, extra as int)
            };
        lemma_join_edges(back, before, added);
    }
    (Arc::new(CordRep::Btree(copy)), rest)
}

} // verus!
