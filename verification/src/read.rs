//! Reading a cord as a whole.

use crate::cord::{is_flat_of, Cord};
use crate::inline_data::{InlineData, Repr};
use crate::iter::chunks_of;
use crate::rep::btree::{node_of, CordRepBtree};
use crate::rep::edge::edge_data;
use crate::rep::external::Owner;
use crate::rep::flat::{lemma_capacity_for, CordRepFlat, MAX_FLAT_LENGTH, MAX_FLAT_SIZE};
use crate::rep::{leaves, lemma_edges_bytes_split, CordRep};
use std::sync::Arc;
use vstd::prelude::*;
use vstd::slice::slice_subrange;

verus! {

/// The bytes of `rep` where one block holds them all.
fn get_flat_aux(rep: &Arc<CordRep>) -> (r: Option<&[u8]>)
    requires
        rep.is_edge(),
    ensures
        r is Some <==> is_contiguous(**rep),
        r matches Some(data) ==> data@ == rep.bytes(),
{
    if rep.is_btree() {
        CordRepBtree::as_flat(rep)
    } else {
        Some(edge_data(rep))
    }
}

/// One block holds all bytes of `rep`: it is a data edge, or a leaf node with a single one.
pub open spec fn is_contiguous(rep: CordRep) -> bool {
    rep is Btree ==> rep.height() == 0 && rep.node().edges@.len() == 1
}

/// `after` holds the bytes of `before` in one new block: a flat one of their
/// size class, or a vector where they are too many for that.
pub open spec fn is_one_block(before: Cord, after: Cord) -> bool {
    if before@.len() <= MAX_FLAT_LENGTH {
        is_flat_of(after.contents(), before@.len() as int)
    } else {
        match after.contents() {
            InlineData::Tree(tree) => match *tree {
                CordRep::External(ext) => ext.owner is Vector,
                _ => false,
            },
            InlineData::Inline(_) => false,
        }
    }
}

/// One slice holds all bytes of a cord if and only if the cord has at most one chunk.
pub proof fn law_contiguous(data: InlineData)
    requires
        data.wf(),
    ensures
        chunks_of(data).len() <= 1 <==> !(data is Tree && !is_contiguous(*data->Tree_0)),
{
    if let InlineData::Tree(tree) = data {
        assert(chunks_of(data).len() == leaves(tree).len());
        if let CordRep::Btree(node) = *tree {
            if node.edges@.len() > 1 {
                crate::rep::lemma_compact_node(tree);
            } else if node.height == 0 {
                assert(node.edges@ =~= seq![node.edges@[0]]);
                crate::rep::lemma_edges_leaves_one(node.edges@[0]);
                assert(crate::rep::fits_below(*node.edges@[0], 0));
            }
        }
    }
}

/// The first data edge of the tree `tree`.
fn first_edge(tree: &Arc<CordRep>) -> (edge: &Arc<CordRep>)
    requires
        tree.is_tree(tree.height()),
    ensures
        *edge == leaves(*tree)[0],
        edge.is_leaf_edge(),
        edge.bytes().len() <= tree.bytes().len(),
        edge.bytes() == tree.bytes().take(edge.bytes().len() as int),
    decreases tree.height(),
{
    let node = node_of(tree);
    let edge = &node.edges[0];
    proof {
        let edges = node.edges@;
        lemma_edges_bytes_split(edges, 0);
        crate::rep::lemma_edges_leaves_split(edges, 0);
        assert(edges.take(0) =~= Seq::<Arc<CordRep>>::empty());
        crate::rep::lemma_edge_nonempty(*node, 0);
        crate::rep::lemma_leaves_valid(edges[0]);
        assert(edge.bytes() =~= tree.bytes().take(edge.bytes().len() as int));
    }
    if node.height == 0 {
        return edge;
    }
    let first = first_edge(edge);
    assert(first.bytes() =~= tree.bytes().take(first.bytes().len() as int));
    first
}

impl Cord {
    /// The first contiguous chunk, empty only if there are no bytes.
    pub fn first_chunk(&self) -> (chunk: &[u8])
        ensures
            chunk@.len() <= self@.len(),
            chunk@ == self@.take(chunk@.len() as int),
            chunk@.len() == 0 <==> self@.len() == 0,
            self@.len() > 0 ==> chunk@ == chunks_of(self.contents())[0],
    {
        assert(self@.take(self@.len() as int) =~= self@);
        match self.data().repr() {
            Repr::Inline(data) => data,
            Repr::Tree(tree) => {
                proof {
                    crate::rep::lemma_leaves_valid(*tree);
                }
                if tree.is_btree() {
                    edge_data(first_edge(tree))
                } else {
                    edge_data(tree)
                }
            },
        }
    }

    /// All bytes as one slice, if one block holds them.
    pub fn as_flat(&self) -> (r: Option<&[u8]>)
        ensures
            r is Some <==> chunks_of(self.contents()).len() <= 1,
            r is None <==> self.contents() is Tree && !is_contiguous(*self.contents()->Tree_0),
            r matches Some(data) ==> data@ == self@,
    {
        let data = self.data();
        proof {
            law_contiguous(*data);
        }
        match data.repr() {
            Repr::Inline(data) => Some(data),
            Repr::Tree(tree) => get_flat_aux(tree),
        }
    }

    /// All bytes as one slice, if one block holds them: `as_flat` by another name.
    pub fn as_contiguous(&self) -> (r: Option<&[u8]>)
        ensures
            r is Some <==> chunks_of(self.contents()).len() <= 1,
            r is None <==> self.contents() is Tree && !is_contiguous(*self.contents()->Tree_0),
            r matches Some(data) ==> data@ == self@,
    {
        self.as_flat()
    }

    /// Moves all bytes into one block: `flatten` by another name.
    pub fn make_contiguous(&mut self) -> (data: &[u8])
        ensures
            data@ == old(self)@,
            final(self)@ == old(self)@,
            chunks_of(final(self).contents()).len() <= 1,
            final(self).contents() is Tree ==> is_contiguous(*final(self).contents()->Tree_0),
            !(old(self).contents() is Tree) || is_contiguous(*old(self).contents()->Tree_0)
                ==> final(self).contents() == old(self).contents(),
            old(self).contents() is Tree && !is_contiguous(*old(self).contents()->Tree_0) ==> is_one_block(
                *old(self),
                *final(self),
            ),
    {
        self.flatten()
    }

    /// Moves all bytes into one block, unless one holds them already, and returns them.
    pub fn flatten(&mut self) -> (data: &[u8])
        ensures
            data@ == old(self)@,
            final(self)@ == old(self)@,
            chunks_of(final(self).contents()).len() <= 1,
            final(self).contents() is Tree ==> is_contiguous(*final(self).contents()->Tree_0),
            !(old(self).contents() is Tree) || is_contiguous(*old(self).contents()->Tree_0)
                ==> final(self).contents() == old(self).contents(),
            old(self).contents() is Tree && !is_contiguous(*old(self).contents()->Tree_0) ==> is_one_block(
                *old(self),
                *final(self),
            ),
    {
        if self.as_flat().is_none() {
            let _data = self.data();
            self.flatten_slow_path();
        }
        self.as_flat().unwrap()
    }

    /// Moves all bytes into one new block.
    fn flatten_slow_path(&mut self)
        requires
            old(self)@.len() > 0,
        ensures
            final(self)@ == old(self)@,
            final(self).contents() is Tree,
            is_contiguous(*final(self).contents()->Tree_0),
            is_one_block(*old(self), *final(self)),
    {
        let total: usize = self.len();
        if total <= MAX_FLAT_LENGTH {
            let mut flat = CordRepFlat::new(total);
            proof {
                lemma_capacity_for(total as int, MAX_FLAT_SIZE as int);
            }
            self.copy_to(&mut flat.data);
            assert(flat.data@ =~= self@);
            self.set_data(InlineData::Tree(CordRep::flat(flat)));
        } else {
            let data = self.to_vec();
            self.set_data(InlineData::Tree(CordRep::external(Owner::Vector(data))));
        }
    }

    /// Appends all bytes to `dst`.
    pub(crate) fn copy_to(&self, dst: &mut Vec<u8>)
        ensures
            final(dst)@ == old(dst)@ + self@,
    {
        let ghost start = dst@;
        if let Some(data) = self.as_flat() {
            dst.extend_from_slice(data);
            assert(dst@ =~= start + self@);
            return;
        }
        let mut chunks = self.chunks();
        while chunks.remaining() > 0
            invariant
                chunks.wf(),
                dst@ + chunks.rest() == start + self@,
            decreases chunks.rest().len(),
        {
            let ghost held = dst@;
            let ghost left = chunks.rest();
            let chunk = chunks.next().unwrap();
            dst.extend_from_slice(chunk);
            assert(dst@ =~= held + chunk@);
            assert(held + left =~= dst@ + chunks.rest());
        }
        assert(dst@ + chunks.rest() =~= dst@);
    }

    /// A copy of all bytes.
    pub fn to_vec(&self) -> (data: Vec<u8>)
        ensures
            data@ == self@,
    {
        let mut data: Vec<u8> = Vec::with_capacity(self.len());
        self.copy_to(&mut data);
        assert(data@ =~= self@);
        data
    }

    /// Copies the first bytes to `dst`, as many as there are and as fit, and returns their number.
    pub fn copy_prefix_to(&self, dst: &mut [u8]) -> (n: usize)
        ensures
            n == if self@.len() <= old(dst)@.len() { self@.len() } else { old(dst)@.len() },
            final(dst)@ == self@.take(n as int) + old(dst)@.skip(n as int),
    {
        let ghost start = dst@;
        let room: usize = dst.len();
        let len: usize = self.len();
        let result: usize = if len <= room {
            len
        } else {
            room
        };
        let mut chunks = self.chunks();
        let mut done: usize = 0;
        proof {
            assert(self@.skip(0) =~= self@);
            assert(dst@ =~= self@.take(0) + start.skip(0));
        }
        while done < result
            invariant
                chunks.wf(),
                done <= result <= self@.len(),
                result <= start.len(),
                result == if self@.len() <= start.len() { self@.len() } else { start.len() },
                start == old(dst)@,
                dst@.len() == start.len(),
                chunks.rest() == self@.skip(done as int),
                dst@ == self@.take(done as int) + start.skip(done as int),
            decreases result - done,
        {
            let ghost left = chunks.rest();
            let chunk = chunks.next().unwrap();
            let n: usize = if chunk.len() <= result - done {
                chunk.len()
            } else {
                result - done
            };
            let ghost before = dst@;
            copy_at(dst, done, slice_subrange(chunk, 0, n));
            done = done + n;
            proof {
                assert(chunk@ =~= left.take(chunk@.len() as int));
                if n == chunk@.len() {
                    assert(chunks.rest() =~= left.skip(n as int));
                    assert(chunks.rest() =~= self@.skip(done as int));
                }
                assert(dst@ =~= self@.take(done as int) + start.skip(done as int));
            }
            if n < chunk.len() {
                return result;
            }
        }
        result
    }

    /// The byte at `index`, if it lies inside the cord.
    pub(crate) fn get_byte(&self, index: usize) -> (byte: Option<u8>)
        ensures
            index >= self@.len() ==> byte is None,
            index < self@.len() ==> byte == Some(self@[index as int]),
    {
        if index >= self.len() {
            return None;
        }
        Some(*self.byte_ref(index))
    }

    /// The byte at `index`.
    pub fn byte_ref(&self, index: usize) -> (byte: &u8)
        requires
            index < self@.len(),
        ensures
            *byte == self@[index as int],
    {
        match self.data().repr() {
            Repr::Inline(data) => &data[index],
            Repr::Tree(tree) => {
                if tree.is_btree() {
                    byte_in_tree(tree, index)
                } else {
                    &edge_data(tree)[index]
                }
            },
        }
    }
}

/// The byte of `tree` at `offset`.
fn byte_in_tree(tree: &Arc<CordRep>, offset: usize) -> (byte: &u8)
    requires
        tree.is_tree(tree.height()),
        offset < tree.bytes().len(),
    ensures
        *byte == tree.bytes()[offset as int],
    decreases tree.height(),
{
    let node = node_of(tree);
    let front = node.index_of(offset);
    let edge = &node.edges[front.index];
    proof {
        lemma_edges_bytes_split(node.edges@, front.index as int);
    }
    if node.height == 0 {
        return &edge_data(edge)[front.n];
    }
    byte_in_tree(edge, front.n)
}

/// Copies `src` to `dst`, starting at `start`.
pub(crate) fn copy_at(dst: &mut [u8], start: usize, src: &[u8])
    requires
        start + src@.len() <= old(dst)@.len(),
    ensures
        final(dst)@ == old(dst)@.take(start as int) + src@ + old(dst)@.skip(start + src@.len()),
{
    let ghost before = dst@;
    let n: usize = src.len();
    let room: usize = dst.len();
    let mut i: usize = 0;
    while i < n
        invariant
            i <= n,
            before.len() == room,
            n == src@.len(),
            start + n <= before.len(),
            dst@ =~= before.take(start as int) + src@.take(i as int) + before.skip(start + i),
        decreases n - i,
    {
        dst[start + i] = src[i];
        i += 1;
    }
    assert(src@.take(n as int) =~= src@);
}

} // verus!
