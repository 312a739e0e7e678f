//! Cords: byte sequences with cheap append, prepend, slicing and cloning.

use crate::inline_data::InlineData;
use crate::iter::chunks_of;
use crate::rep::append::{all_sized, lemma_sized_join};
use crate::rep::btree::CordRepBtree;
use crate::rep::flat::{capacity_for, lemma_capacity_for, CordRepFlat, MAX_FLAT_LENGTH, MAX_FLAT_SIZE};
use crate::rep::pieces::{blocks, cut, lemma_cut_first};
use crate::rep::settle::{lemma_settled_grown, settled};
use crate::rep::{leaves, lemma_len_fits, CordRep, MAX_INLINE};
use core::mem::swap;
use std::sync::Arc;
use vstd::prelude::*;
use vstd::slice::slice_subrange;

verus! {

/// A sequence of bytes with cheap append, prepend, slicing and cloning.
///
/// A cord holds up to `MAX_INLINE` bytes in place, and more of them in a tree
/// of blocks that it may share with other cords. Changing a cord never changes another one.
pub struct Cord {
    data: InlineData,
}

impl Cord {
    #[verifier::type_invariant]
    spec fn inv(self) -> bool {
        self.data.wf()
    }

    /// How the bytes are held.
    pub closed spec fn contents(self) -> InlineData {
        self.data
    }

    /// The bytes of the cord.
    pub open spec fn view(self) -> Seq<u8> {
        self.contents().view()
    }

    /// A cord that holds `data`.
    pub(crate) fn from_data(data: InlineData) -> (cord: Cord)
        requires
            data.wf(),
        ensures
            cord.contents() == data,
            cord@ == data.view(),
    {
        Cord { data }
    }

    /// How the bytes are held.
    pub(crate) fn data(&self) -> (data: &InlineData)
        ensures
            *data == self.contents(),
            data.wf(),
            data.view() == self@,
            self@.len() <= usize::MAX,
    {
        proof {
            use_type_invariant(self);
            lemma_contents_fit(self.data);
        }
        &self.data
    }

    /// Takes the contents out of the cord.
    pub(crate) fn into_data(self) -> (data: InlineData)
        ensures
            data == self.contents(),
            data.wf(),
    {
        proof {
            use_type_invariant(&self);
        }
        self.data
    }

    /// Takes the contents out, and leaves an empty cord.
    pub(crate) fn take_data(&mut self) -> (data: InlineData)
        ensures
            data == old(self).contents(),
            data.wf(),
            final(self)@ == Seq::<u8>::empty(),
            final(self).contents() is Inline,
    {
        let mut taken = Cord::new();
        swap(self, &mut taken);
        taken.into_data()
    }

    /// Replaces the contents.
    pub(crate) fn set_data(&mut self, data: InlineData)
        requires
            data.wf(),
        ensures
            final(self).contents() == data,
            final(self)@ == data.view(),
    {
        self.data = data;
    }

    /// An empty cord.
    pub fn new() -> (cord: Cord)
        ensures
            cord@ == Seq::<u8>::empty(),
            cord.contents() is Inline,
    {
        Cord { data: InlineData::new() }
    }

    /// A cord with a copy of `data`.
    pub fn copy_from_slice(data: &[u8]) -> (cord: Cord)
        ensures
            cord@ == data@,
            data@.len() <= MAX_INLINE <==> cord.contents() is Inline,
            chunks_of(cord.contents()) == cut(true, data@),
            MAX_INLINE < data@.len() <= MAX_FLAT_LENGTH ==> is_flat_of(cord.contents(), data@.len() as int),
            all_sized(cord.edges(), 0),
    {
        if data.len() <= MAX_INLINE {
            return Cord::from_data(InlineData::inline_from(data));
        }
        Cord::from_data(InlineData::Tree(new_tree(data, 0)))
    }

    /// The number of bytes.
    pub fn len(&self) -> (len: usize)
        ensures
            len == self@.len(),
    {
        self.data().len()
    }

    /// Whether there are no bytes.
    pub fn is_empty(&self) -> (r: bool)
        ensures
            r == (self@.len() == 0),
            r ==> self.contents() is Inline,
    {
        self.data().is_empty()
    }

    /// Drops all bytes.
    pub fn clear(&mut self)
        ensures
            final(self)@ == Seq::<u8>::empty(),
            final(self).contents() is Inline,
    {
        let _ = self.take_data();
    }
}

/// `data` is a single flat block of the size class for `len` bytes.
pub open spec fn is_flat_of(data: InlineData, len: int) -> bool {
    match data {
        InlineData::Tree(tree) => match *tree {
            CordRep::Flat(flat) => flat.spec_capacity() == capacity_for(len, MAX_FLAT_SIZE as int),
            _ => false,
        },
        InlineData::Inline(_) => false,
    }
}

/// A flat block or a tree with a copy of `data`. A single block gets up to
/// `alloc_hint` bytes of additional capacity, and so does the last block of a tree.
pub(crate) fn new_tree(data: &[u8], alloc_hint: usize) -> (rep: Arc<CordRep>)
    requires
        data@.len() > 0,
    ensures
        rep.is_edge(),
        settled(rep),
        rep.bytes() == data@,
        data@.len() <= MAX_FLAT_LENGTH <==> *rep is Flat,
        *rep matches CordRep::Flat(flat) ==> flat.spec_capacity() == capacity_for(
            data@.len() + if alloc_hint <= MAX_FLAT_LENGTH {
                alloc_hint as int
            } else {
                MAX_FLAT_LENGTH as int
            },
            MAX_FLAT_SIZE as int,
        ),
        data@.len() > MAX_FLAT_LENGTH <==> *rep is Btree,
        blocks(leaves(rep)) == cut(true, data@),
        all_sized(leaves(rep), alloc_hint as int),
{
    if data.len() <= MAX_FLAT_LENGTH {
        let rep = CordRep::flat(CordRepFlat::create(data, alloc_hint));
        proof {
            assert(blocks(leaves(rep)) =~= seq![data@]);
            if alloc_hint > MAX_FLAT_LENGTH {
                lemma_capacity_for(data@.len() + MAX_FLAT_LENGTH, MAX_FLAT_SIZE as int);
                lemma_capacity_for(data@.len() + alloc_hint, MAX_FLAT_SIZE as int);
            }
        }
        return rep;
    }
    let len: usize = data.len();
    let head = slice_subrange(data, 0, MAX_FLAT_LENGTH);
    let tail = slice_subrange(data, MAX_FLAT_LENGTH, len);
    assert(head@ + tail@ =~= data@);
    let first = CordRep::flat(CordRepFlat::create(head, 0));
    let root = CordRepBtree::create(first);
    proof {
        assert(blocks(leaves(root)) =~= seq![head@]);
        lemma_cut_first(true, head@, tail@);
    }
    let rep = CordRepBtree::append_data(root, tail, alloc_hint);
    proof {
        crate::rep::lemma_leaves_valid(first);
        assert(cut(true, tail@).len() > 0);
        assert(leaves(rep).len() == blocks(leaves(rep)).len());
        assert(leaves(root).len() == blocks(leaves(root)).len());
        lemma_capacity_for(MAX_FLAT_LENGTH as int, MAX_FLAT_SIZE as int);
        lemma_capacity_for(MAX_FLAT_LENGTH + alloc_hint, MAX_FLAT_SIZE as int);
        lemma_sized_join(true, leaves(root), leaves(rep).skip(1), alloc_hint as int);
        assert(leaves(rep) =~= leaves(root) + leaves(rep).skip(1));
        lemma_settled_grown(root, rep);
    }
    rep
}

/// The length of valid contents is a machine integer.
pub proof fn lemma_contents_fit(data: InlineData)
    requires
        data.wf(),
    ensures
        data.view().len() <= usize::MAX,
{
    match data {
        InlineData::Tree(tree) => {
            lemma_len_fits(tree);
        },
        InlineData::Inline(_) => {},
    }
}

impl Default for Cord {
    fn default() -> (cord: Cord)
        ensures
            cord@ == Seq::<u8>::empty(),
            cord.contents() is Inline,
    {
        Cord::new()
    }
}

impl Clone for Cord {
    /// A cord with the same bytes, which shares their blocks.
    fn clone(&self) -> (copy: Cord)
        ensures
            copy@ == self@,
            copy.contents() == self.contents(),
    {
        Cord::from_data(self.data().clone_with_ref())
    }

    /// Shares the blocks of `source`, and lets go of those held before.
    fn clone_from(&mut self, source: &Cord)
        ensures
            final(self)@ == source@,
            final(self).contents() == source.contents(),
    {
        let data = source.data().clone_with_ref();
        self.set_data(data);
    }
}

} // verus!
