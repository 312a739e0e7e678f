//! Reading a cord: by chunks, by bytes, and from a position.

use crate::cord::{is_flat_of, Cord};
use crate::inline_data::{InlineBytes, InlineData, Repr};
use crate::rep::edge::edge_data;
use crate::rep::pieces::{
    blocks, dropped, lemma_all_pieces, lemma_dropped_pieces, lemma_first_piece, lemma_last_piece, lemma_no_pieces,
    pieces,
};
use crate::rep::navigator::CordRepBtreeNavigator;
use crate::rep::reader::CordRepBtreeReader;
use crate::rep::settle::settle;
use crate::rep::shared::{lemma_shares_window, shares};
use crate::rep::subtree::{lemma_start_ends, lemma_start_step, start_of};
use crate::rep::{leaves, lemma_leaves_bytes, CordRep, CordRepSubstring, MAX_BYTES_TO_COPY, MAX_INLINE};
use std::sync::Arc;
use vstd::prelude::*;
use vstd::slice::slice_subrange;

verus! {

/// The contiguous chunks of contents `data`: the bytes held in place, or those
/// of each data edge.
pub open spec fn chunks_of(data: InlineData) -> Seq<Seq<u8>> {
    match data {
        InlineData::Inline(_) => if data.view().len() == 0 {
            Seq::empty()
        } else {
            seq![data.view()]
        },
        InlineData::Tree(tree) => blocks(leaves(tree)),
    }
}

/// A position in a cord that only moves forward, by chunks.
pub(crate) struct ForwardChunks<'a> {
    /// What is left of the current chunk. Empty at the end.
    current_chunk: &'a [u8],
    /// The data edge, if the cord consists of a single one.
    current_leaf: Option<&'a Arc<CordRep>>,
    /// The number of bytes of `current_leaf` before the position.
    leaf_offset: usize,
    /// The number of bytes behind the position.
    bytes_remaining: usize,
    /// Reader of the tree, if the cord is one.
    btree_reader: CordRepBtreeReader<'a>,
}

impl<'a> ForwardChunks<'a> {
    /// The cord is a tree.
    pub(crate) closed spec fn in_tree(self) -> bool {
        self.btree_reader.navigator.tree is Some
    }

    /// The tree, or the data edge, that is read.
    pub(crate) closed spec fn origin(self) -> Option<Arc<CordRep>> {
        match (self.btree_reader.navigator.tree, self.current_leaf) {
            (Some(tree), _) => Some(*tree),
            (None, Some(leaf)) => Some(*leaf),
            (None, None) => None,
        }
    }

    /// The position is one in the contents `data`.
    pub(crate) closed spec fn reads(self, data: InlineData) -> bool {
        &&& self.origin() == match data {
            InlineData::Tree(tree) => Some(tree),
            InlineData::Inline(_) => None,
        }
        &&& self.in_tree() ==> *self.origin()->0 is Btree
    }

    /// The bytes of the tree.
    pub(crate) closed spec fn tree_bytes(self) -> Seq<u8> {
        self.btree_reader.bytes()
    }

    /// The number of bytes of the tree before the position.
    pub(crate) closed spec fn start(self) -> int {
        self.btree_reader.end() - self.current_chunk@.len()
    }

    /// The position is inside the current data edge of the tree.
    pub(crate) closed spec fn placed(self) -> bool {
        &&& self.btree_reader.synced()
        &&& self.current_chunk@.len() > 0
        &&& self.btree_reader.navigator.offset() <= self.start()
        &&& self.current_chunk@ == self.tree_bytes().subrange(self.start(), self.btree_reader.end())
        &&& self.btree_reader.end() <= self.tree_bytes().len()
    }

    /// The fields fit together.
    pub(crate) closed spec fn wf(self) -> bool {
        &&& self.bytes_remaining == 0 ==> self.current_chunk@.len() == 0
        &&& self.btree_reader.wf()
        &&& if self.in_tree() {
            self.bytes_remaining > 0 ==> self.placed() && self.start() + self.bytes_remaining
                == self.tree_bytes().len()
        } else {
            &&& self.bytes_remaining == self.current_chunk@.len()
            &&& self.current_leaf matches Some(leaf) ==> leaf.is_leaf_edge() && (self.bytes_remaining > 0 ==> {
                &&& self.leaf_offset + self.bytes_remaining == leaf.bytes().len()
                &&& self.current_chunk@ == leaf.bytes().skip(self.leaf_offset as int)
            })
        }
    }

    /// Longer contents than those that a cord holds in place come from a tree.
    pub(crate) closed spec fn of_cord(self) -> bool {
        self.in_tree() || self.current_leaf is Some || self.bytes_remaining <= MAX_INLINE
    }

    /// The bytes behind the position.
    pub(crate) closed spec fn rest(self) -> Seq<u8> {
        if self.bytes_remaining == 0 {
            Seq::empty()
        } else if self.in_tree() {
            self.tree_bytes().skip(self.start())
        } else {
            self.current_chunk@
        }
    }

    /// What is left of the current chunk.
    pub(crate) closed spec fn current(self) -> Seq<u8> {
        self.current_chunk@
    }

    /// The chunks behind the position.
    pub(crate) closed spec fn chunks(self) -> Seq<Seq<u8>> {
        if self.bytes_remaining == 0 {
            Seq::empty()
        } else if self.in_tree() {
            pieces(self.btree_reader.navigator.edges(), self.start(), self.start() + self.bytes_remaining)
        } else {
            seq![self.current_chunk@]
        }
    }

    /// The first chunk ends with the current data edge, or with the range if that ends first.
    proof fn lemma_first_chunk(self, cut: int)
        requires
            self.in_tree(),
            self.placed(),
            self.bytes_remaining > 0,
            cut == if self.start() + self.bytes_remaining < self.btree_reader.end() {
                self.start() + self.bytes_remaining
            } else {
                self.btree_reader.end()
            },
        ensures
            self.chunks() == seq![self.tree_bytes().subrange(self.start(), cut)] + pieces(
                self.btree_reader.navigator.edges(),
                cut,
                self.start() + self.bytes_remaining,
            ),
    {
        let navigator = self.btree_reader.navigator;
        navigator.lemma_current();
        lemma_leaves_bytes(*navigator.tree->0);
        lemma_start_step(navigator.edges(), navigator.position());
        lemma_first_piece(
            navigator.edges(),
            navigator.position(),
            self.start(),
            self.start() + self.bytes_remaining,
            cut,
        );
    }

    /// The chunks behind a position in `data` are those that are left of the chunks of `data`.
    pub(crate) proof fn lemma_chunks(self, data: InlineData, at: int)
        requires
            self.wf(),
            self.reads(data),
            data.wf(),
            0 <= at <= data.view().len(),
            self.rest() == data.view().skip(at),
        ensures
            self.chunks() == dropped(chunks_of(data), at),
            self.rest().len() > 0 ==> self.chunks().len() > 0 && self.chunks()[0] == self.current(),
    {
        let all = data.view();
        assert(all.skip(at).len() == all.len() - at);
        if self.in_tree() {
            let tree = data->Tree_0;
            let edges = leaves(tree);
            let total = all.len() as int;
            lemma_leaves_bytes(tree);
            crate::rep::lemma_leaves_valid(tree);
            lemma_all_pieces(edges);
            lemma_dropped_pieces(edges, 0, total, at);
            if self.bytes_remaining == 0 {
                lemma_no_pieces(edges, at, total);
            } else {
                self.btree_reader.lemma_chunk();
                self.lemma_first_chunk(self.btree_reader.end());
            }
        } else {
            reveal_with_fuel(dropped, 2);
            assert(all.skip(0) =~= all);
            assert(chunks_of(data) =~= if all.len() == 0 {
                Seq::empty()
            } else {
                seq![all]
            });
            if all.len() > 0 {
                assert(seq![all].skip(1) =~= Seq::<Seq<u8>>::empty());
            }
            assert(self.chunks() =~= dropped(chunks_of(data), at));
        }
    }

    /// The position at the start of `cord`.
    pub(crate) fn new(cord: &'a Cord) -> (it: ForwardChunks<'a>)
        ensures
            it.wf(),
            it.of_cord(),
            it.rest() == cord@,
            it.reads(cord.contents()),
            it.chunks() == chunks_of(cord.contents()),
    {
        let mut it = Self::empty();
        match cord.data().repr() {
            Repr::Inline(data) => {
                it.current_chunk = data;
                it.bytes_remaining = data.len();
                assert(it.rest() =~= cord@);
            },
            Repr::Tree(tree) => {
                it.init_tree(tree);
            },
        }
        proof {
            assert(cord@.skip(0) =~= cord@);
            it.lemma_chunks(cord.contents(), 0);
        }
        it
    }

    /// The position at the start of `slice`.
    pub(crate) fn single(slice: &'a [u8]) -> (it: ForwardChunks<'a>)
        ensures
            it.wf(),
            it.rest() == slice@,
            it.chunks() == if slice@.len() == 0 {
                Seq::empty()
            } else {
                seq![slice@]
            },
    {
        let mut it = Self::empty();
        it.current_chunk = slice;
        it.bytes_remaining = slice.len();
        assert(it.rest() =~= slice@);
        it
    }

    /// A position with nothing behind it.
    fn empty() -> (it: ForwardChunks<'a>)
        ensures
            it.wf(),
            it.bytes_remaining == 0,
            !it.in_tree(),
            it.current_leaf is None,
            it.leaf_offset == 0,
    {
        ForwardChunks {
            current_chunk: &[],
            current_leaf: None,
            leaf_offset: 0,
            bytes_remaining: 0,
            btree_reader: CordRepBtreeReader::new(),
        }
    }

    /// Moves to the start of `tree`.
    fn init_tree(&mut self, tree: &'a Arc<CordRep>)
        requires
            tree.is_edge(),
            old(self).wf(),
            old(self).bytes_remaining == 0,
            !old(self).in_tree(),
            old(self).leaf_offset == 0,
        ensures
            final(self).wf(),
            final(self).of_cord(),
            final(self).rest() == tree.bytes(),
            final(self).bytes_remaining == tree.bytes().len(),
            final(self).reads(InlineData::Tree(*tree)),
    {
        self.bytes_remaining = tree.len();
        if tree.is_btree() {
            self.current_chunk = self.btree_reader.init(tree);
            proof {
                self.btree_reader.lemma_chunk();
                self.btree_reader.navigator.lemma_current();
                assert(crate::rep::leaves(*tree).take(0) =~= Seq::<Arc<CordRep>>::empty());
                assert(self.tree_bytes().skip(0) =~= tree.bytes());
            }
        } else {
            self.current_leaf = Some(tree);
            self.current_chunk = edge_data(tree);
            assert(tree.bytes().skip(0) =~= tree.bytes());
        }
    }

    /// What is left of the current chunk.
    pub(crate) fn chunk(&self) -> (chunk: &'a [u8])
        requires
            self.wf(),
        ensures
            chunk@.len() <= self.rest().len(),
            chunk@ == self.rest().take(chunk@.len() as int),
            chunk@.len() == 0 <==> self.rest().len() == 0,
            chunk@ == self.current(),
    {
        assert(self.current_chunk@ =~= self.rest().take(self.current_chunk@.len() as int));
        self.current_chunk
    }

    /// Moves behind the current chunk.
    fn step(&mut self)
        requires
            old(self).wf(),
            old(self).bytes_remaining > 0,
        ensures
            final(self).wf(),
            old(self).of_cord() ==> final(self).of_cord(),
            final(self).rest() == old(self).rest().skip(old(self).current_chunk@.len() as int),
            final(self).bytes_remaining == old(self).bytes_remaining - old(self).current_chunk@.len(),
            final(self).origin() == old(self).origin(),
    {
        self.bytes_remaining = self.bytes_remaining - self.current_chunk.len();
        if self.bytes_remaining > 0 {
            self.current_chunk = self.btree_reader.next();
            proof {
                self.btree_reader.lemma_chunk();
                self.btree_reader.navigator.lemma_current();
                assert(self.rest() =~= old(self).rest().skip(old(self).current_chunk@.len() as int));
            }
        } else {
            self.current_chunk = &[];
            assert(self.rest() =~= old(self).rest().skip(old(self).current_chunk@.len() as int));
        }
    }

    /// The number of bytes behind the position.
    pub(crate) fn remaining(&self) -> (n: usize)
        requires
            self.wf(),
        ensures
            n == self.rest().len(),
    {
        self.bytes_remaining
    }

    /// The two positions are the same one.
    pub(crate) closed spec fn same_place(self, other: ForwardChunks<'a>) -> bool {
        &&& self.current_chunk@ == other.current_chunk@
        &&& self.current_leaf == other.current_leaf
        &&& self.leaf_offset == other.leaf_offset
        &&& self.bytes_remaining == other.bytes_remaining
        &&& self.btree_reader.remaining == other.btree_reader.remaining
        &&& self.btree_reader.navigator.tree == other.btree_reader.navigator.tree
        &&& self.btree_reader.navigator.path@ == other.btree_reader.navigator.path@
    }

    /// A copy of the position.
    pub(crate) fn copy(&self) -> (copy: ForwardChunks<'a>)
        ensures
            copy.wf() == self.wf(),
            copy.of_cord() == self.of_cord(),
            copy.rest() == self.rest(),
            copy.origin() == self.origin(),
            copy.chunks() == self.chunks(),
            copy.same_place(*self),
    {
        ForwardChunks {
            current_chunk: self.current_chunk,
            current_leaf: self.current_leaf,
            leaf_offset: self.leaf_offset,
            bytes_remaining: self.bytes_remaining,
            btree_reader: CordRepBtreeReader {
                remaining: self.btree_reader.remaining,
                navigator: self.btree_reader.navigator.clone(),
            },
        }
    }

    /// Moves `n` bytes on inside the current chunk.
    fn remove_chunk_prefix(&mut self, n: usize)
        requires
            old(self).wf(),
            n < old(self).current_chunk@.len(),
        ensures
            final(self).wf(),
            old(self).of_cord() ==> final(self).of_cord(),
            final(self).rest() == old(self).rest().skip(n as int),
            final(self).origin() == old(self).origin(),
    {
        let len: usize = self.current_chunk.len();
        self.current_chunk = slice_subrange(self.current_chunk, n, len);
        self.bytes_remaining = self.bytes_remaining - n;
        if self.current_leaf.is_some() && !self.btree_reader.is_some() {
            proof {
                crate::rep::lemma_len_fits(*self.current_leaf->0);
            }
            self.leaf_offset = self.leaf_offset + n;
        }
        proof {
            if self.in_tree() {
                assert(self.current_chunk@ =~= self.tree_bytes().subrange(self.start(), self.btree_reader.end()));
            } else if self.current_leaf is Some {
                assert(self.current_chunk@ =~= self.current_leaf->0.bytes().skip(self.leaf_offset as int));
            }
            assert(self.rest() =~= old(self).rest().skip(n as int));
        }
    }

    /// Moves `n` bytes on.
    pub(crate) fn advance_bytes(&mut self, n: usize)
        requires
            old(self).wf(),
            n <= old(self).rest().len(),
        ensures
            final(self).wf(),
            old(self).of_cord() ==> final(self).of_cord(),
            final(self).rest() == old(self).rest().skip(n as int),
            final(self).origin() == old(self).origin(),
    {
        if n < self.current_chunk.len() {
            self.remove_chunk_prefix(n);
        } else if n != 0 {
            if self.btree_reader.is_some() {
                self.advance_bytes_btree(n);
            } else {
                self.bytes_remaining = 0;
                self.current_chunk = &[];
                assert(self.rest() =~= old(self).rest().skip(n as int));
            }
        } else {
            assert(self.rest() =~= old(self).rest().skip(0));
        }
    }

    /// Moves `n` bytes on in a tree, behind the current chunk.
    fn advance_bytes_btree(&mut self, n: usize)
        requires
            old(self).wf(),
            old(self).in_tree(),
            old(self).current_chunk@.len() <= n <= old(self).rest().len(),
            n > 0,
        ensures
            final(self).wf(),
            final(self).origin() == old(self).origin(),
            final(self).rest() == old(self).rest().skip(n as int),
    {
        self.bytes_remaining = self.bytes_remaining - n;
        if self.bytes_remaining != 0 {
            if n == self.current_chunk.len() {
                self.current_chunk = self.btree_reader.next();
            } else {
                let offset: usize = self.btree_reader.length() - self.bytes_remaining;
                self.current_chunk = self.btree_reader.seek(offset);
            }
            proof {
                self.btree_reader.lemma_chunk();
                self.btree_reader.navigator.lemma_current();
            }

        } else {
            self.current_chunk = &[];
        }
        assert(self.rest() =~= old(self).rest().skip(n as int));
    }

    /// The current chunk, which is left behind; nothing at the end.
    pub(crate) fn next_chunk(&mut self) -> (chunk: Option<&'a [u8]>)
        requires
            old(self).wf(),
        ensures
            final(self).wf(),
            old(self).of_cord() ==> final(self).of_cord(),
            chunk is None <==> old(self).rest().len() == 0,
            chunk is None ==> final(self).rest() == old(self).rest(),
            chunk matches Some(data) ==> {
                &&& data@.len() > 0
                &&& old(self).rest() == data@ + final(self).rest()
                &&& old(self).chunks() == seq![data@] + final(self).chunks()
            },
            chunk is None ==> old(self).chunks().len() == 0 && final(self).chunks().len() == 0,
    {
        if self.bytes_remaining == 0 {
            return None;
        }
        let chunk = self.current_chunk;
        proof {
            if self.in_tree() {
                let end = self.btree_reader.end();
                self.btree_reader.lemma_chunk();
                self.lemma_first_chunk(end);
                lemma_no_pieces(self.btree_reader.navigator.edges(), end, end);
            }
        }
        self.step();
        assert(old(self).rest() =~= chunk@ + self.rest());
        Some(chunk)
    }

    /// The next `n` bytes, in place, which are left behind.
    pub(crate) fn gather_inline(&mut self, n: usize) -> (out: InlineData)
        requires
            old(self).wf(),
            n <= MAX_INLINE,
            n <= old(self).rest().len(),
        ensures
            final(self).wf(),
            old(self).of_cord() ==> final(self).of_cord(),
            out.wf(),
            out is Inline,
            out.view() == old(self).rest().take(n as int),
            final(self).rest() == old(self).rest().skip(n as int),
            final(self).origin() == old(self).origin(),
    {
        let ghost all = self.rest();
        let mut out = InlineBytes::new();
        let mut left: usize = n;
        while left > self.current_chunk.len()
            invariant
                self.wf(),
                old(self).of_cord() ==> self.of_cord(),
                out.wf(),
                left <= n <= MAX_INLINE,
                n <= all.len(),
                out.size() == n - left,
                out.view() == all.take(n - left),
                self.rest() == all.skip(n - left),
                self.origin() == old(self).origin(),
            decreases left,
        {
            let chunk = self.current_chunk;
            assert(self.rest().len() == self.bytes_remaining);
            out.push(chunk);
            left = left - chunk.len();
            self.step();
            proof {
                assert(self.rest() =~= all.skip(n - left));
                assert(out.view() =~= all.take(n - left));
            }
        }
        if left != 0 {
            let part = slice_subrange(self.current_chunk, 0, left);
            let ghost before = *self;
            out.push(part);
            if left < self.current_chunk.len() {
                self.remove_chunk_prefix(left);
            } else {
                self.step();
            }
            proof {
                assert(self.rest() =~= all.skip(n as int));
                assert(out.view() =~= all.take(n as int));
            }
        }
        InlineData::Inline(out)
    }

    /// The next `n` bytes as a cord, which are left behind. A few bytes are
    /// copied, and others are shared with the cord that is read.
    pub(crate) fn read_bytes(&mut self, n: usize) -> (cord: Cord)
        requires
            old(self).wf(),
            old(self).of_cord(),
            n <= old(self).rest().len(),
        ensures
            final(self).wf(),
            final(self).of_cord(),
            cord@ == old(self).rest().take(n as int),
            n <= MAX_INLINE <==> cord.contents() is Inline,
            n > MAX_INLINE && (n > MAX_BYTES_TO_COPY || n > old(self).current().len() || !old(self).in_tree())
                ==> old(self).origin() is Some && shares(cord.edges(), leaves(old(self).origin()->0)),
            MAX_INLINE < n <= MAX_BYTES_TO_COPY && n <= old(self).current().len() && old(self).in_tree()
                ==> is_flat_of(cord.contents(), n as int),
            final(self).rest() == old(self).rest().skip(n as int),
            final(self).origin() == old(self).origin(),
    {
        let ghost all = self.rest();
        if n <= MAX_INLINE {
            return Cord::from_data(self.gather_inline(n));
        }
        if self.btree_reader.is_some() {
            let chunk_size: usize = self.current_chunk.len();
            proof {
                self.btree_reader.lemma_chunk();
            }
            if n <= chunk_size && n <= MAX_BYTES_TO_COPY {
                let part = slice_subrange(self.current_chunk, 0, n);
                assert(part@ =~= all.take(n as int));
                let cord = Cord::copy_from_slice(part);
                if n < chunk_size {
                    self.remove_chunk_prefix(n);
                } else {
                    self.step();
                }
                return cord;
            }
            let (chunk, tree) = self.btree_reader.read(n, chunk_size);
            self.current_chunk = chunk;
            self.bytes_remaining = self.bytes_remaining - n;
            proof {
                if self.bytes_remaining > 0 {
                    self.btree_reader.lemma_chunk();
                }
                assert(tree->0.bytes() =~= all.take(n as int));
                assert(self.rest() =~= all.skip(n as int));
            }
            return Cord::from_data(InlineData::Tree(settle(tree.unwrap())));
        }
        let leaf = self.current_leaf.unwrap();
        let sub = CordRepSubstring::substring(leaf, self.leaf_offset, n);
        proof {
            assert(sub.bytes() =~= all.take(n as int));
            lemma_shares_window(*leaf, sub);
        }
        let len: usize = self.current_chunk.len();
        self.current_chunk = slice_subrange(self.current_chunk, n, len);
        self.bytes_remaining = self.bytes_remaining - n;
        proof {
            crate::rep::lemma_len_fits(*leaf);
        }
        self.leaf_offset = self.leaf_offset + n;
        proof {
            assert(self.current_chunk@ =~= leaf.bytes().skip(self.leaf_offset as int));
            assert(self.rest() =~= all.skip(n as int));
        }
        Cord::from_data(InlineData::Tree(sub))
    }
}

/// The backward position of `Chunks`.
struct BackChunks<'a> {
    /// What is left of the last chunk.
    current_chunk: &'a [u8],
    /// The position of the last chunk in a tree.
    navigator: CordRepBtreeNavigator<'a>,
}

impl<'a> BackChunks<'a> {
    /// What is left of the last chunk ends at `end` of the bytes of `tree`.
    spec fn ends_at(self, tree: Arc<CordRep>, end: int) -> bool {
        &&& self.navigator.wf()
        &&& self.navigator.tree matches Some(own) && *own == tree
        &&& self.navigator.offset() < end <= start_of(leaves(tree), self.navigator.position() + 1)
        &&& end <= tree.bytes().len()
        &&& self.current_chunk@ == tree.bytes().subrange(self.navigator.offset(), end)
    }

    /// The last chunk of the range of `front` is the last `n` bytes of the current one.
    proof fn lemma_last_chunk(self, front: ForwardChunks<'a>, n: int, chunk: Seq<u8>)
        requires
            front.in_tree(),
            front.placed(),
            front.bytes_remaining > 0,
            self.ends_at(*front.btree_reader.navigator.tree->0, front.start() + front.bytes_remaining),
            n == if self.current_chunk@.len() <= front.bytes_remaining {
                self.current_chunk@.len() as int
            } else {
                front.bytes_remaining as int
            },
            chunk == self.current_chunk@.subrange(self.current_chunk@.len() - n, self.current_chunk@.len() as int),
        ensures
            n < front.bytes_remaining ==> self.navigator.offset() == front.start() + front.bytes_remaining - n,
            front.chunks() == pieces(
                front.btree_reader.navigator.edges(),
                front.start(),
                front.start() + front.bytes_remaining - n,
            ) + seq![chunk],
            n == front.bytes_remaining ==> front.chunks() == seq![chunk],
            n > 0,
    {
        let tree = *front.btree_reader.navigator.tree->0;
        let end = front.start() + front.bytes_remaining;
        let cut = end - n;
        self.navigator.lemma_current();
        lemma_leaves_bytes(tree);
        lemma_last_piece(leaves(tree), self.navigator.position(), front.start(), end, cut);
        assert(chunk =~= tree.bytes().subrange(cut, end));
        if cut == front.start() {
            lemma_no_pieces(leaves(tree), cut, cut);
            assert(front.chunks() =~= seq![chunk]);
        }
    }

    /// The position at the end of `tree`.
    fn at_end(tree: &'a Arc<CordRep>) -> (back: BackChunks<'a>)
        requires
            tree.is_tree(tree.height()),
        ensures
            back.ends_at(*tree, tree.bytes().len() as int),
    {
        let mut navigator = CordRepBtreeNavigator::new();
        let edge = navigator.init_last(tree);
        proof {
            navigator.lemma_current();
            let edges = navigator.edges();
            lemma_leaves_bytes(*tree);
            lemma_start_ends(edges);
            lemma_start_step(edges, edges.len() - 1);
            crate::rep::lemma_edges_bytes_split(edges, edges.len() - 1);
            assert(edges.skip(edges.len() as int) =~= Seq::<Arc<CordRep>>::empty());
            assert(edge.bytes() =~= tree.bytes().subrange(navigator.offset(), tree.bytes().len() as int));
        }
        BackChunks { current_chunk: edge_data(edge), navigator }
    }

    /// Moves to the data edge before the current one.
    fn step_back(&mut self)
        requires
            old(self).navigator.wf(),
            old(self).navigator.tree is Some,
            old(self).navigator.offset() > 0,
        ensures
            final(self).ends_at(*old(self).navigator.tree->0, old(self).navigator.offset()),
    {
        let ghost end = self.navigator.offset();
        let ghost edges = self.navigator.edges();
        let ghost i = self.navigator.position();
        proof {
            self.navigator.lemma_current();
            if i == 0 {
                lemma_start_ends(edges);
            }
        }
        let edge = self.navigator.previous().unwrap();
        proof {
            let tree = *self.navigator.tree->0;
            self.navigator.lemma_current();
            lemma_leaves_bytes(tree);
            crate::rep::lemma_edges_bytes_split(edges, i - 1);
            lemma_start_step(edges, i - 1);
            assert(edge.bytes() =~= tree.bytes().subrange(self.navigator.offset(), end));
        }
        self.current_chunk = edge_data(edge);
    }
}

/// Iterator over the contiguous chunks of a cord, from both ends.
///
/// Every chunk is non-empty.
pub struct Chunks<'a> {
    front: ForwardChunks<'a>,
    back: Option<BackChunks<'a>>,
}

impl<'a> Chunks<'a> {
    /// The two positions fit together.
    pub closed spec fn wf(self) -> bool {
        match self.back {
            None => self.front.wf(),
            Some(back) => {
                &&& self.front.btree_reader.wf()
                &&& self.front.bytes_remaining == 0 ==> self.front.current_chunk@.len() == 0
                &&& self.front.bytes_remaining > 0 ==> {
                    &&& self.front.in_tree()
                    &&& self.front.placed()
                    &&& back.ends_at(
                        *self.front.btree_reader.navigator.tree->0,
                        self.front.start() + self.front.bytes_remaining,
                    )
                }
            },
        }
    }

    /// The bytes that were not yielded yet.
    pub closed spec fn rest(self) -> Seq<u8> {
        if self.back is None {
            self.front.rest()
        } else if self.front.bytes_remaining == 0 {
            Seq::empty()
        } else {
            self.front.tree_bytes().subrange(
                self.front.start(),
                self.front.start() + self.front.bytes_remaining,
            )
        }
    }

    /// The chunks that were not yielded yet.
    pub closed spec fn chunks(self) -> Seq<Seq<u8>> {
        self.front.chunks()
    }

    /// The chunks of `cord`.
    pub(crate) fn new(cord: &'a Cord) -> (it: Chunks<'a>)
        ensures
            it.wf(),
            it.rest() == cord@,
            it.chunks() == chunks_of(cord.contents()),
    {
        Chunks { front: ForwardChunks::new(cord), back: None }
    }

    /// The single chunk `slice`, or none if it is empty.
    pub(crate) fn single(slice: &'a [u8]) -> (it: Chunks<'a>)
        ensures
            it.wf(),
            it.rest() == slice@,
            it.chunks() == if slice@.len() == 0 {
                Seq::empty()
            } else {
                seq![slice@]
            },
    {
        Chunks { front: ForwardChunks::single(slice), back: None }
    }

    /// The number of bytes that were not yielded yet.
    pub fn remaining(&self) -> (n: usize)
        requires
            self.wf(),
        ensures
            n == self.rest().len(),
    {
        self.front.bytes_remaining
    }

    /// The next chunk.
    pub fn next(&mut self) -> (chunk: Option<&'a [u8]>)
        requires
            old(self).wf(),
        ensures
            final(self).wf(),
            chunk is None <==> old(self).rest().len() == 0,
            chunk is None ==> final(self).rest() == old(self).rest(),
            chunk matches Some(data) ==> {
                &&& data@.len() > 0
                &&& old(self).rest() == data@ + final(self).rest()
                &&& old(self).chunks() == seq![data@] + final(self).chunks()
            },
            chunk is None ==> old(self).chunks().len() == 0 && final(self).chunks().len() == 0,
    {
        if self.back.is_none() {
            return self.front.next_chunk();
        }
        if self.front.bytes_remaining == 0 {
            return None;
        }
        let len: usize = self.front.current_chunk.len();
        let n: usize = if len <= self.front.bytes_remaining {
            len
        } else {
            self.front.bytes_remaining
        };
        let chunk = slice_subrange(self.front.current_chunk, 0, n);
        proof {
            let cut = self.front.start() + n;
            self.front.lemma_first_chunk(cut);
            lemma_no_pieces(self.front.btree_reader.navigator.edges(), cut, cut);
            assert(chunk@ =~= self.front.tree_bytes().subrange(self.front.start(), cut));
        }
        self.front.bytes_remaining = self.front.bytes_remaining - n;
        if self.front.bytes_remaining == 0 {
            self.front.current_chunk = &[];
        } else {
            self.front.current_chunk = self.front.btree_reader.next();
            proof {
                self.front.btree_reader.lemma_chunk();
                self.front.btree_reader.navigator.lemma_current();
            }
        }
        assert(old(self).rest() =~= chunk@ + self.rest());
        Some(chunk)
    }

    /// The last chunk.
    pub fn next_back(&mut self) -> (chunk: Option<&'a [u8]>)
        requires
            old(self).wf(),
        ensures
            final(self).wf(),
            chunk is None <==> old(self).rest().len() == 0,
            chunk is None ==> final(self).rest() == old(self).rest(),
            chunk matches Some(data) ==> {
                &&& data@.len() > 0
                &&& old(self).rest() == final(self).rest() + data@
                &&& old(self).chunks() == final(self).chunks() + seq![data@]
            },
            chunk is None ==> old(self).chunks().len() == 0 && final(self).chunks().len() == 0,
    {
        if self.front.bytes_remaining == 0 {
            return None;
        }
        let ghost window = self.front;
        let mut back = match self.back.take() {
            Some(back) => back,
            None => match self.front.btree_reader.navigator.btree() {
                Some(tree) => BackChunks::at_end(tree),
                None => BackChunks {
                    current_chunk: self.front.current_chunk,
                    navigator: CordRepBtreeNavigator::new(),
                },
            },
        };
        let len: usize = back.current_chunk.len();
        let n: usize = if len <= self.front.bytes_remaining {
            len
        } else {
            self.front.bytes_remaining
        };
        let chunk = slice_subrange(back.current_chunk, len - n, len);
        proof {
            if window.in_tree() {
                back.lemma_last_chunk(window, n as int, chunk@);
            }
        }
        self.front.bytes_remaining = self.front.bytes_remaining - n;
        if self.front.bytes_remaining == 0 {
            self.front.current_chunk = &[];
            back.current_chunk = &[];
        } else {
            back.step_back();
        }
        self.back = Some(back);
        assert(old(self).rest() =~= self.rest() + chunk@);
        assert(old(self).chunks() =~= self.chunks() + seq![chunk@]);
        Some(chunk)
    }

    /// Bounds on the number of chunks that were not yielded yet.
    pub fn size_hint(&self) -> (r: (usize, Option<usize>))
        requires
            self.wf(),
        ensures
            self.rest().len() == 0 ==> r == (0usize, Some(0usize)),
            self.rest().len() > 0 ==> r.0 == 1 && r.1 == Some(self.rest().len() as usize),
    {
        let n: usize = self.remaining();
        if n == 0 {
            (0, Some(0))
        } else {
            (1, Some(n))
        }
    }

    /// Skips `n` bytes at the front.
    pub(crate) fn advance_bytes(&mut self, n: usize)
        requires
            old(self).wf(),
            n <= old(self).rest().len(),
        ensures
            final(self).wf(),
            final(self).rest() == old(self).rest().skip(n as int),
    {
        if self.back.is_some() {
            self.advance_bytes_between_ends(n);
        } else {
            self.front.advance_bytes(n);
        }
    }

    /// Skips `n` bytes at the front, where chunks were taken from the back too.
    fn advance_bytes_between_ends(&mut self, n: usize)
        requires
            old(self).wf(),
            old(self).back is Some,
            n <= old(self).rest().len(),
        ensures
            final(self).wf(),
            final(self).back is Some,
            final(self).rest() == old(self).rest().skip(n as int),
    {
        let ghost all = self.rest();
        let mut left: usize = n;
        assert(all.skip(0) =~= all);
        while left != 0
            invariant
                self.wf(),
                self.back is Some,
                left <= n <= all.len(),
                all == old(self).rest(),
                self.rest() == all.skip(n - left),
            decreases left,
        {
            let ghost before = *self;
            let len: usize = self.front.current_chunk.len();
            let available: usize = if len <= self.front.bytes_remaining {
                len
            } else {
                self.front.bytes_remaining
            };
            if left < available {
                self.front.current_chunk = slice_subrange(self.front.current_chunk, left, len);
                self.front.bytes_remaining = self.front.bytes_remaining - left;
                proof {
                    assert(self.front.current_chunk@ =~= self.front.tree_bytes().subrange(
                        self.front.start(),
                        self.front.btree_reader.end(),
                    ));
                    assert(self.rest() =~= before.rest().skip(left as int));
                    assert(all.skip(n - left).skip(left as int) =~= all.skip(n as int));
                }
                return;
            }
            left = left - available;
            self.front.bytes_remaining = self.front.bytes_remaining - available;
            if self.front.bytes_remaining == 0 {
                self.front.current_chunk = &[];
                proof {
                    assert(before.rest().len() == available);
                    assert(self.rest() =~= all.skip(n as int));
                }
                return;
            }
            self.front.current_chunk = self.front.btree_reader.next();
            proof {
                self.front.btree_reader.lemma_chunk();
                self.front.btree_reader.navigator.lemma_current();
                assert(self.rest() =~= before.rest().skip(available as int));
                assert(all.skip(n - left - available).skip(available as int) =~= all.skip(n - left));
            }
        }
    }

    /// All chunks that were not yielded yet.
    pub fn collect(self) -> (chunks: Vec<&'a [u8]>)
        requires
            self.wf(),
        ensures
            views(chunks@) == self.chunks(),
            views(chunks@).flatten() == self.rest(),
            forall|i: int| #![trigger chunks@[i]] 0 <= i < chunks@.len() ==> chunks@[i]@.len() > 0,
    {
        let mut it = self;
        let ghost all = it.rest();
        let mut chunks: Vec<&'a [u8]> = Vec::new();
        proof {
            assert(views(chunks@) =~= Seq::<Seq<u8>>::empty());
            assert(views(chunks@).flatten() + all =~= all);
            assert(views(chunks@) + it.chunks() =~= self.chunks());
        }
        while it.remaining() > 0
            invariant
                it.wf(),
                views(chunks@).flatten() + it.rest() == all,
                views(chunks@) + it.chunks() == self.chunks(),
                forall|i: int| #![trigger chunks@[i]] 0 <= i < chunks@.len() ==> chunks@[i]@.len() > 0,
            decreases it.rest().len(),
        {
            let ghost before = chunks@;
            let ghost held = it;
            let chunk = it.next().unwrap();
            chunks.push(chunk);
            proof {
                assert(views(chunks@) =~= views(before) + seq![chunk@]);
                views(before).lemma_flatten_push(chunk@);
                assert(views(before).push(chunk@) =~= views(chunks@));
                assert(views(chunks@).flatten() + it.rest() =~= all);
                assert(views(chunks@) + it.chunks() =~= views(before) + held.chunks());
            }
        }
        let end = it.next();
        proof {
            assert(views(chunks@).flatten() + it.rest() =~= views(chunks@).flatten());
            assert(views(chunks@) =~= self.chunks());
        }
        chunks
    }
}

impl<'a> Clone for Chunks<'a> {
    /// An iterator over the same chunks.
    fn clone(&self) -> (copy: Chunks<'a>)
        ensures
            copy.wf() == self.wf(),
            copy.rest() == self.rest(),
            copy.chunks() == self.chunks(),
    {
        let back = match &self.back {
            Some(back) => Some(
                BackChunks { current_chunk: back.current_chunk, navigator: back.navigator.clone() },
            ),
            None => None,
        };
        Chunks { front: self.front.copy(), back }
    }
}

/// The bytes of each of `chunks`.
pub open spec fn views(chunks: Seq<&[u8]>) -> Seq<Seq<u8>> {
    chunks.map_values(|chunk: &[u8]| chunk@)
}

/// Iterator over the bytes of a cord, from both ends.
pub struct Bytes<'a> {
    chunks: Chunks<'a>,
    current: &'a [u8],
    back_current: &'a [u8],
}

impl<'a> Bytes<'a> {
    /// The parts fit together.
    pub closed spec fn wf(self) -> bool {
        self.chunks.wf() && self.rest().len() <= usize::MAX
    }

    /// The bytes that were not yielded yet.
    pub closed spec fn rest(self) -> Seq<u8> {
        self.current@ + self.chunks.rest() + self.back_current@
    }

    /// The bytes of `cord`.
    pub(crate) fn new(cord: &'a Cord) -> (it: Bytes<'a>)
        ensures
            it.wf(),
            it.rest() == cord@,
    {
        let _len: usize = cord.len();
        let chunks = Chunks::new(cord);
        let it = Bytes { chunks, current: &[], back_current: &[] };
        assert(it.rest() =~= cord@);
        it
    }

    /// The number of bytes that were not yielded yet.
    pub fn remaining(&self) -> (n: usize)
        requires
            self.wf(),
        ensures
            n == self.rest().len(),
    {
        self.current.len() + self.chunks.remaining() + self.back_current.len()
    }

    /// The next byte.
    pub fn next(&mut self) -> (byte: Option<u8>)
        requires
            old(self).wf(),
        ensures
            final(self).wf(),
            old(self).rest().len() == 0 ==> byte is None && final(self).rest().len() == 0,
            old(self).rest().len() > 0 ==> byte == Some(old(self).rest()[0]) && final(self).rest()
                == old(self).rest().skip(1),
    {
        if self.current.len() == 0 {
            match self.chunks.next() {
                Some(chunk) => {
                    self.current = chunk;
                    assert(self.rest() =~= old(self).rest());
                },
                None => {
                    if self.back_current.len() == 0 {
                        return None;
                    }
                    let byte: u8 = self.back_current[0];
                    let len: usize = self.back_current.len();
                    self.back_current = slice_subrange(self.back_current, 1, len);
                    assert(self.rest() =~= old(self).rest().skip(1));
                    return Some(byte);
                },
            }
        }
        let byte: u8 = self.current[0];
        let len: usize = self.current.len();
        self.current = slice_subrange(self.current, 1, len);
        assert(self.rest() =~= old(self).rest().skip(1));
        Some(byte)
    }

    /// The byte behind `n` more, which are all left behind.
    pub fn nth(&mut self, n: usize) -> (byte: Option<u8>)
        requires
            old(self).wf(),
        ensures
            final(self).wf(),
            n >= old(self).rest().len() ==> byte is None && final(self).rest().len() == 0,
            n < old(self).rest().len() ==> byte == Some(old(self).rest()[n as int]) && final(self).rest()
                == old(self).rest().skip(n + 1),
    {
        let len: usize = self.current.len();
        if n < len {
            let byte: u8 = self.current[n];
            self.current = slice_subrange(self.current, n + 1, len);
            assert(self.rest() =~= old(self).rest().skip(n + 1));
            return Some(byte);
        }
        let skip: usize = n - len;
        self.current = &[];
        let middle: usize = self.chunks.remaining();
        if skip < middle {
            self.chunks.advance_bytes(skip);
            let chunk = self.chunks.next().unwrap();
            let byte: u8 = chunk[0];
            let chunk_len: usize = chunk.len();
            self.current = slice_subrange(chunk, 1, chunk_len);
            proof {
                lemma_nth(
                    old(self).current@,
                    old(self).chunks.rest(),
                    self.back_current@,
                    skip as int,
                    chunk@,
                    self.chunks.rest(),
                );
            }
            return Some(byte);
        }
        let skip: usize = skip - middle;
        if middle != 0 {
            self.chunks.advance_bytes(middle);
        }
        assert(self.chunks.rest().len() == 0);
        let back_len: usize = self.back_current.len();
        if skip >= back_len {
            self.back_current = &[];
            return None;
        }
        let byte: u8 = self.back_current[skip];
        self.back_current = slice_subrange(self.back_current, skip + 1, back_len);
        assert(self.rest() =~= old(self).rest().skip(n + 1));
        Some(byte)
    }

    /// The number of bytes that were not yielded yet.
    pub fn count(self) -> (n: usize)
        requires
            self.wf(),
        ensures
            n == self.rest().len(),
    {
        self.remaining()
    }

    /// The last byte.
    pub fn next_back(&mut self) -> (byte: Option<u8>)
        requires
            old(self).wf(),
        ensures
            final(self).wf(),
            old(self).rest().len() == 0 ==> byte is None && final(self).rest().len() == 0,
            old(self).rest().len() > 0 ==> byte == Some(old(self).rest().last()) && final(self).rest()
                == old(self).rest().drop_last(),
    {
        if self.back_current.len() == 0 {
            match self.chunks.next_back() {
                Some(chunk) => {
                    self.back_current = chunk;
                    assert(self.rest() =~= old(self).rest());
                },
                None => {
                    let len: usize = self.current.len();
                    if len == 0 {
                        return None;
                    }
                    let byte: u8 = self.current[len - 1];
                    self.current = slice_subrange(self.current, 0, len - 1);
                    assert(self.rest() =~= old(self).rest().drop_last());
                    return Some(byte);
                },
            }
        }
        let len: usize = self.back_current.len();
        let byte: u8 = self.back_current[len - 1];
        self.back_current = slice_subrange(self.back_current, 0, len - 1);
        assert(self.rest() =~= old(self).rest().drop_last());
        Some(byte)
    }
}

impl<'a> Clone for Bytes<'a> {
    /// An iterator over the same bytes.
    fn clone(&self) -> (copy: Bytes<'a>)
        ensures
            copy.wf() == self.wf(),
            copy.rest() == self.rest(),
    {
        Bytes { chunks: self.chunks.clone(), current: self.current, back_current: self.back_current }
    }
}

/// The byte behind all of `front` and `skip` bytes of `mid`, and what follows it.
proof fn lemma_nth(front: Seq<u8>, mid: Seq<u8>, back: Seq<u8>, skip: int, chunk: Seq<u8>, after: Seq<u8>)
    requires
        0 <= skip < mid.len(),
        chunk.len() > 0,
        mid.skip(skip) == chunk + after,
    ensures
        (front + mid + back)[front.len() + skip] == chunk[0],
        (front + mid + back).skip(front.len() + skip + 1) == chunk.subrange(1, chunk.len() as int) + after + back,
{
    let n = front.len() + skip;
    let tail = chunk + after;
    assert(tail[0] == chunk[0]);
    assert(mid.skip(skip)[0] == mid[skip]);
    assert((front + mid + back).skip(n + 1) =~= mid.skip(skip).skip(1) + back);
    assert(tail.skip(1) =~= chunk.subrange(1, chunk.len() as int) + after);
}

/// A position in a cord, from which bytes and sub-cords can be read.
pub struct Cursor<'a> {
    chunks: ForwardChunks<'a>,
    len: usize,
    cord: &'a Cord,
}

impl<'a> Cursor<'a> {
    /// The position is one of the cord.
    pub closed spec fn wf(self) -> bool {
        &&& self.chunks.wf()
        &&& self.chunks.of_cord()
        &&& self.chunks.reads(self.cord.contents())
        &&& self.len == self.cord@.len()
        &&& self.chunks.rest().len() <= self.len
        &&& self.chunks.rest() == self.cord@.skip(self.len - self.chunks.rest().len())
    }

    /// The cord.
    pub closed spec fn source(self) -> Cord {
        *self.cord
    }

    /// The bytes of the cord.
    pub open spec fn bytes(self) -> Seq<u8> {
        self.source()@
    }

    /// The contiguous chunks behind the position.
    pub open spec fn chunk_list(self) -> Seq<Seq<u8>> {
        dropped(chunks_of(self.source().contents()), self.at())
    }

    /// The number of bytes before the position.
    pub closed spec fn at(self) -> int {
        self.len - self.chunks.rest().len()
    }

    /// The bytes behind the position.
    pub open spec fn rest(self) -> Seq<u8> {
        self.bytes().skip(self.at())
    }

    /// The position is inside the cord, or at its end.
    pub proof fn lemma_at(self)
        requires
            self.wf(),
        ensures
            0 <= self.at() <= self.bytes().len() <= usize::MAX,
            self.rest().len() == self.bytes().len() - self.at(),
    {
    }

    /// The position at the start of `cord`.
    pub(crate) fn new(cord: &'a Cord) -> (cursor: Cursor<'a>)
        ensures
            cursor.wf(),
            cursor.source() == *cord,
            cursor.at() == 0,
    {
        let chunks = ForwardChunks::new(cord);
        assert(cord@.skip(0) =~= cord@);
        Cursor { chunks, len: cord.len(), cord }
    }

    /// The cord.
    pub fn cord(&self) -> (cord: &'a Cord)
        ensures
            *cord == self.source(),
    {
        self.cord
    }

    /// The number of bytes behind the position.
    pub fn remaining(&self) -> (n: usize)
        requires
            self.wf(),
        ensures
            n == self.rest().len(),
            n == self.bytes().len() - self.at(),
    {
        self.chunks.remaining()
    }

    /// The number of bytes before the position.
    pub fn position(&self) -> (n: usize)
        requires
            self.wf(),
        ensures
            n == self.at(),
            n <= self.bytes().len(),
    {
        self.len - self.chunks.remaining()
    }

    /// Whether there are bytes behind the position.
    pub fn has_remaining(&self) -> (r: bool)
        requires
            self.wf(),
        ensures
            r == (self.rest().len() > 0),
    {
        self.remaining() != 0
    }

    /// A contiguous run of the bytes behind the position, empty only at the end.
    pub fn chunk(&self) -> (chunk: &'a [u8])
        requires
            self.wf(),
        ensures
            chunk@.len() <= self.rest().len(),
            chunk@ == self.rest().take(chunk@.len() as int),
            chunk@.len() == 0 <==> self.rest().len() == 0,
            self.rest().len() > 0 ==> chunk@ == self.chunk_list()[0],
    {
        let _data = self.cord.data();
        proof {
            self.chunks.lemma_chunks(self.cord.contents(), self.at());
        }
        self.chunks.chunk()
    }

    /// The byte behind the position.
    pub fn peek(&self) -> (byte: Option<u8>)
        requires
            self.wf(),
        ensures
            self.rest().len() == 0 ==> byte is None,
            self.rest().len() > 0 ==> byte == Some(self.rest()[0]),
    {
        let chunk = self.chunk();
        if chunk.len() == 0 {
            None
        } else {
            assert(self.rest().take(chunk@.len() as int)[0] == self.rest()[0]);
            Some(chunk[0])
        }
    }

    /// Moves `n` bytes on.
    pub fn advance(&mut self, n: usize)
        requires
            old(self).wf(),
            n <= old(self).rest().len(),
        ensures
            final(self).wf(),
            final(self).source() == old(self).source(),
            final(self).at() == old(self).at() + n,
            final(self).rest() == old(self).rest().skip(n as int),
    {
        self.chunks.advance_bytes(n);
        assert(self.chunks.rest() =~= self.cord@.skip(self.len - self.chunks.rest().len()));
        assert(self.rest() =~= old(self).rest().skip(n as int));
    }

    /// The next `n` bytes as a cord, and moves behind them.
    pub fn read_cord(&mut self, n: usize) -> (cord: Cord)
        requires
            old(self).wf(),
            n <= old(self).rest().len(),
        ensures
            final(self).wf(),
            final(self).source() == old(self).source(),
            final(self).at() == old(self).at() + n,
            final(self).rest() == old(self).rest().skip(n as int),
            cord@ == old(self).rest().take(n as int),
            n <= MAX_INLINE <==> cord.contents() is Inline,
            n > MAX_INLINE && (n > MAX_BYTES_TO_COPY || n > old(self).chunk_list()[0].len() || !(
            old(self).source().contents() matches InlineData::Tree(tree) && *tree is Btree)) ==> shares(
                cord.edges(),
                old(self).source().edges(),
            ),
            MAX_INLINE < n <= MAX_BYTES_TO_COPY && n <= old(self).chunk_list()[0].len() && (
            old(self).source().contents() matches InlineData::Tree(tree) && *tree is Btree) ==> is_flat_of(
                cord.contents(),
                n as int,
            ),
    {
        let _data = self.cord.data();
        proof {
            self.chunks.lemma_chunks(self.cord.contents(), self.at());
        }
        let cord = self.chunks.read_bytes(n);
        assert(self.chunks.rest() =~= self.cord@.skip(self.len - self.chunks.rest().len()));
        assert(self.rest() =~= old(self).rest().skip(n as int));
        cord
    }

    /// The next byte, and moves behind it.
    pub fn next_byte(&mut self) -> (byte: Option<u8>)
        requires
            old(self).wf(),
        ensures
            final(self).wf(),
            final(self).source() == old(self).source(),
            old(self).rest().len() == 0 ==> byte is None && final(self).at() == old(self).at(),
            old(self).rest().len() > 0 ==> {
                &&& byte == Some(old(self).rest()[0])
                &&& final(self).at() == old(self).at() + 1
                &&& final(self).rest() == old(self).rest().skip(1)
            },
    {
        let byte = self.peek();
        if byte.is_some() {
            self.advance(1);
        }
        byte
    }

    /// The chunks behind the position.
    pub fn chunks(&self) -> (chunks: Chunks<'a>)
        requires
            self.wf(),
        ensures
            chunks.wf(),
            chunks.rest() == self.rest(),
            chunks.chunks() == self.chunk_list(),
    {
        let _data = self.cord.data();
        proof {
            self.chunks.lemma_chunks(self.cord.contents(), self.at());
        }
        Chunks { front: self.chunks.copy(), back: None }
    }
}

impl<'a> Clone for Cursor<'a> {
    fn clone(&self) -> (copy: Cursor<'a>)
        ensures
            copy.wf() == self.wf(),
            copy.source() == self.source(),
            copy.at() == self.at(),
    {
        Cursor { chunks: self.chunks.copy(), len: self.len, cord: self.cord }
    }
}

impl Cord {
    /// The contiguous chunks of the cord.
    pub fn chunks(&self) -> (chunks: Chunks<'_>)
        ensures
            chunks.wf(),
            chunks.rest() == self@,
            chunks.chunks() == chunks_of(self.contents()),
    {
        Chunks::new(self)
    }

    /// The bytes of the cord.
    pub fn bytes(&self) -> (bytes: Bytes<'_>)
        ensures
            bytes.wf(),
            bytes.rest() == self@,
    {
        Bytes::new(self)
    }

    /// The position at the start of the cord.
    pub fn cursor(&self) -> (cursor: Cursor<'_>)
        ensures
            cursor.wf(),
            cursor.source() == *self,
            cursor.at() == 0,
            cursor.rest() == self@,
    {
        assert(self@.skip(0) =~= self@);
        Cursor::new(self)
    }
}

} // verus!
