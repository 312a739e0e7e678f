//! Changing a cord: adding to its ends and taking parts of it.

use crate::buffer::{block_capacity, default_capacity, valid_block_size, BufferRep, CordBuffer};
use crate::cord::{is_flat_of, new_tree, Cord};
use crate::inline_data::{InlineData, Repr};
use crate::iter::{chunks_of, ForwardChunks};
use crate::rep::append::{all_sized, lemma_sized_join, sized};
use crate::rep::btree::CordRepBtree;
use crate::rep::edge::{edge_data, resize_edge};
use crate::rep::external::{occupies, CordRepExternal, Owner};
use crate::rep::extract::{extract_block, extracts, owed, ExtractResult};
use crate::rep::flat::{lemma_capacity_for, CordRepFlat, MAX_FLAT_LENGTH, MAX_FLAT_SIZE};
use crate::rep::pieces::{blocks, cut, lemma_blocks_join, lemma_cut_first};
use crate::rep::settle::{lemma_settled_grown, lemma_settled_same, settle, settled};
use crate::rep::share::{get_mut, held_twice, leg_held_twice, strong_count};
use crate::rep::shared::{
    cut_back, lemma_cut_edge, lemma_cut_prefix, lemma_shares_none, lemma_shares_same, lemma_shares_window, shares,
};
use crate::rep::subtree::{append_in_place, fitting};
use crate::rep::{
    leaves, lemma_leaves_bytes, lemma_leaves_valid, lemma_len_fits, CordRep, CordRepSubstring,
    MAX_BYTES_TO_COPY, MAX_INLINE,
};
use crate::seqs::{join, lemma_join_empty};
use core::mem::swap;
use std::sync::Arc;
use vstd::prelude::*;
use vstd::slice::slice_subrange;

verus! {

/// A block or tree with the bytes of `owner`: a copy of them where there are
/// few, or much fewer than the `capacity` that `owner` occupies, and otherwise `owner` itself.
pub(crate) fn rep_from_owned(owner: Owner, capacity: usize) -> (rep: Arc<CordRep>)
    requires
        owner.bytes().len() > 0,
    ensures
        rep.is_edge(),
        settled(rep),
        rep.bytes() == owner.bytes(),
        adopted(owner.bytes().len(), capacity) <==> *rep is External,
        adopted(owner.bytes().len(), capacity) ==> *rep == CordRep::External(CordRepExternal { owner }),
        !adopted(owner.bytes().len(), capacity) ==> blocks(leaves(rep)) == cut(true, owner.bytes()) && all_sized(
            leaves(rep),
            0,
        ),
        !adopted(owner.bytes().len(), capacity) && owner.bytes().len() <= MAX_FLAT_LENGTH ==> is_flat_of(
            InlineData::Tree(rep),
            owner.bytes().len() as int,
        ),
{
    let data = owner.as_bytes();
    let len: usize = data.len();
    if len <= MAX_BYTES_TO_COPY || len < capacity / 2 {
        return new_tree(data, 0);
    }
    CordRep::external(owner)
}

/// `len` bytes that occupy `capacity` bytes are held as they are rather than copied.
pub open spec fn adopted(len: nat, capacity: usize) -> bool {
    len > MAX_BYTES_TO_COPY && len >= capacity as int / 2
}

/// A flat block with the bytes `data`, which are few.
fn flat_of_inline(data: &[u8]) -> (rep: Arc<CordRep>)
    requires
        0 < data@.len() <= MAX_INLINE,
    ensures
        rep.is_leaf_edge(),
        *rep is Flat,
        rep.bytes() == data@,
        sized(*rep, 0),
{
    CordRep::flat(CordRepFlat::create(data, 0))
}

/// Adds the tree `tree` to the contents `data`, at the back or front.
fn add_tree(data: InlineData, back: bool, tree: Arc<CordRep>) -> (r: InlineData)
    requires
        data.wf(),
        tree.is_edge(),
        settled(tree),
        data.view().len() + tree.bytes().len() <= usize::MAX,
    ensures
        r.wf(),
        r is Tree,
        r.view() == join(back, data.view(), tree.bytes()),
        data.view().len() == 0 ==> r == InlineData::Tree(tree),
        data.view().len() > 0 ==> exists|base: Seq<Arc<CordRep>>|
            #![trigger join(back, base, leaves(tree))]
            data_edges(r) == join(back, base, leaves(tree)) && (data is Tree ==> base == data_edges(data)),
        chunks_of(r) == join(back, chunks_of(data), blocks(leaves(tree))),
        data is Inline && all_sized(leaves(tree), 0) ==> all_sized(data_edges(r), 0),
{
    let base = match data {
        InlineData::Tree(current) => current,
        InlineData::Inline(inline) => {
            if inline.size() == 0 {
                proof {
                    assert(join(back, data.view(), tree.bytes()) =~= tree.bytes());
                    lemma_join_empty(back, blocks(leaves(tree)));
                }
                return InlineData::Tree(tree);
            }
            flat_of_inline(inline.as_slice())
        },
    };
    let base = CordRepBtree::create(base);
    proof {
        assert(chunks_of(data) =~= blocks(leaves(base)));
        lemma_leaves_valid(tree);
        lemma_leaves_valid(base);
    }
    let added = if back {
        CordRepBtree::append(base, tree)
    } else {
        CordRepBtree::prepend(base, tree)
    };
    proof {
        assert(leaves(added) == join(back, leaves(base), leaves(tree)));
        if data is Inline && all_sized(leaves(tree), 0) {
            lemma_sized_join(back, leaves(base), leaves(tree), 0);
        }
        lemma_blocks_join(back, leaves(base), leaves(tree));
        lemma_tree_nonempty(added);
        if base.height() >= tree.height() {
            lemma_settled_grown(base, added);
        } else {
            lemma_settled_grown(tree, added);
        }
    }
    InlineData::Tree(added)
}

/// The data edges of the tree that `data` holds.
pub open spec fn data_edges(data: InlineData) -> Seq<Arc<CordRep>> {
    match data {
        InlineData::Tree(tree) => leaves(tree),
        InlineData::Inline(_) => Seq::empty(),
    }
}

/// Contents are their own data edges, cut off nowhere.
proof fn lemma_cut_nowhere(data: InlineData)
    requires
        data.wf(),
    ensures
        data is Tree ==> data_edges(data).len() > 0 && cut_back(data_edges(data), data_edges(data)),
{
    if let InlineData::Tree(tree) = data {
        lemma_leaves_valid(tree);
        lemma_cut_prefix(leaves(tree), leaves(tree));
    }
}

impl Cord {
    /// The data edges of the tree that the cord holds: the blocks, and windows
    /// onto blocks, that make up its bytes.
    pub open spec fn edges(self) -> Seq<Arc<CordRep>> {
        data_edges(self.contents())
    }
}

/// `after` still has the data edges of `before`, where that is a tree: all of
/// them at their places but the last one, which may have grown.
pub open spec fn extends_back(before: Cord, after: Cord) -> bool {
    before.contents() is Tree ==> {
        &&& after.contents() is Tree
        &&& before.edges().len() <= after.edges().len()
        &&& after.edges().take(before.edges().len() - 1) == before.edges().drop_last()
    }
}

/// `after` still has the data edges of `before`, where that is a tree, at its end.
pub open spec fn extends_front(before: Cord, after: Cord) -> bool {
    before.contents() is Tree ==> after.contents() is Tree && before.edges().is_suffix_of(after.edges())
}

/// A cord with the data edges of `before`, of which the last one may have
/// grown, and others behind them, still has the data edges of `before`.
proof fn lemma_extends_by(before: Cord, after: Cord, grown: Seq<Arc<CordRep>>)
    requires
        before.contents() is Tree,
        after.contents() is Tree,
        before.edges().len() > 0,
        grown.len() == before.edges().len(),
        grown.drop_last() == before.edges().drop_last(),
        grown.is_prefix_of(after.edges()),
    ensures
        extends_back(before, after),
{
    assert(after.edges().take(before.edges().len() - 1) =~= grown.drop_last());
}

/// A cord that is not changed still has its data edges, and a tree has some.
pub(crate) proof fn lemma_extends_same(cord: Cord)
    requires
        cord.contents().wf(),
    ensures
        extends_back(cord, cord),
        cord.contents() is Tree ==> cord.edges().len() > 0,
{
    lemma_cut_nowhere(cord.contents());
    assert(cord.edges().take(cord.edges().len() - 1) =~= cord.edges().drop_last());
}

/// A cord that is extended twice still has its data edges.
pub(crate) proof fn lemma_extends_twice(a: Cord, b: Cord, c: Cord)
    requires
        extends_back(a, b),
        extends_back(b, c),
        a.contents() is Tree ==> a.edges().len() > 0,
    ensures
        extends_back(a, c),
{
    if a.contents() is Tree {
        let n = a.edges().len() - 1;
        assert(c.edges().take(n) =~= c.edges().take(b.edges().len() - 1).take(n));
        assert(b.edges().drop_last().take(n) =~= b.edges().take(n));
    }
}

/// `chunks` with `ext` added to the last one.
pub open spec fn grown_last(chunks: Seq<Seq<u8>>, ext: Seq<u8>) -> Seq<Seq<u8>> {
    chunks.drop_last().push(chunks.last() + ext)
}

/// The first `k` bytes of `src` went into the room of the last block of
/// `before`, and the others into new blocks behind it.
pub open spec fn fills_and_adds(before: Cord, after: Cord, src: Seq<u8>, k: int) -> bool {
    &&& 0 <= k <= src.len()
    &&& chunks_of(after.contents()) == grown_last(chunks_of(before.contents()), src.take(k)) + cut(true, src.skip(k))
    &&& all_sized(behind(before, after), spare(before@.len() + k, src.len() - k))
}

/// The data edges of `after` behind as many as `before` has.
pub open spec fn behind(before: Cord, after: Cord) -> Seq<Arc<CordRep>> {
    after.edges().skip(before.edges().len() as int)
}

/// The data edges of `after` in front of as many as `before` has.
pub open spec fn in_front(before: Cord, after: Cord) -> Seq<Arc<CordRep>> {
    after.edges().take(after.edges().len() - before.edges().len())
}

/// The room that is added to the last block where `added` bytes are appended
/// to `len` ones: what a tenth of those exceeds the added bytes by.
pub open spec fn spare(len: int, added: int) -> int {
    if len / 10 > added {
        len / 10 - added
    } else {
        0
    }
}

/// What appending a copy of `src` makes of `before`: bytes in place stay there
/// or go with `src` into blocks of the greatest length; behind a tree, `src`
/// fills the room of the last block, or none of it where that may be held by
/// others, and then new blocks.
pub open spec fn copied_to_back(before: Cord, after: Cord, src: Seq<u8>) -> bool {
    match before.contents() {
        InlineData::Inline(_) => {
            &&& fits_in_place(before, src.len() as int) <==> after.contents() is Inline
            &&& chunks_of(after.contents()) == cut(true, before@ + src)
            &&& after.contents() is Tree ==> {
                &&& after.edges().len() > 0
                &&& sized(*after.edges()[0], 0)
                &&& all_sized(
                    after.edges().skip(1),
                    spare(MAX_FLAT_LENGTH as int, before@.len() + src.len() - MAX_FLAT_LENGTH),
                )
            }
        },
        InlineData::Tree(tree) => {
            &&& after.contents() is Tree
            &&& fills_and_adds(before, after, src, fitting(tree, src.len() as int)) || leg_held_twice(tree)
                && fills_and_adds(before, after, src, 0)
        },
    }
}

/// What prepending a copy of `src` makes of `before`.
pub open spec fn copied_to_front(before: Cord, after: Cord, src: Seq<u8>) -> bool {
    match before.contents() {
        InlineData::Inline(_) => {
            &&& fits_in_place(before, src.len() as int) <==> after.contents() is Inline
            &&& !fits_in_place(before, src.len() as int) ==> {
                &&& chunks_of(after.contents()) == cut(true, src) + chunks_of(before.contents())
                &&& all_sized(after.edges(), 0)
            }
        },
        InlineData::Tree(_) => {
            &&& after.contents() is Tree
            &&& chunks_of(after.contents()) == cut(false, src) + chunks_of(before.contents())
            &&& all_sized(in_front(before, after), 0)
        },
    }
}

/// What appending the bytes of `owner` makes of `before`: few bytes are
/// copied, and others are a data edge of their own if `owner` is adopted, and
/// otherwise copied into new blocks.
pub open spec fn owned_at_back(before: Cord, after: Cord, owner: Owner, adopt: bool) -> bool {
    let src = owner.bytes();
    if src.len() <= MAX_BYTES_TO_COPY {
        copied_to_back(before, after, src)
    } else if adopt {
        &&& after.edges().len() > 0
        &&& *after.edges().last() == CordRep::External(CordRepExternal { owner })
        &&& chunks_of(after.contents()) == chunks_of(before.contents()).push(src)
    } else {
        &&& chunks_of(after.contents()) == chunks_of(before.contents()) + cut(true, src)
        &&& all_sized(behind(before, after), 0)
    }
}

/// What appending the bytes of `owner`, by what it occupies, makes of `before`:
/// it is adopted where its bytes are many and at least half of that.
pub open spec fn owner_at_back(before: Cord, after: Cord, owner: Owner) -> bool {
    exists|capacity: usize| #[trigger]
        occupies(owner, capacity) && owned_at_back(before, after, owner, adopted(owner.bytes().len(), capacity))
}

/// What prepending the bytes of `owner`, by what it occupies, makes of `before`.
pub open spec fn owner_at_front(before: Cord, after: Cord, owner: Owner) -> bool {
    exists|capacity: usize| #[trigger]
        occupies(owner, capacity) && owned_at_front(before, after, owner, adopted(owner.bytes().len(), capacity))
}

/// What a cord made of `owner`, by what it occupies, holds: `owner` itself
/// where its bytes are many and at least half of that, and otherwise a copy.
pub open spec fn made_of_owner(cord: Cord, owner: Owner) -> bool {
    exists|capacity: usize| #[trigger]
        occupies(owner, capacity) && if adopted(owner.bytes().len(), capacity) {
            cord.contents() is Tree && *cord.contents()->Tree_0 == CordRep::External(CordRepExternal { owner })
        } else {
            chunks_of(cord.contents()) == cut(true, owner.bytes())
        }
}

/// What prepending the bytes of `owner` makes of `before`.
pub open spec fn owned_at_front(before: Cord, after: Cord, owner: Owner, adopt: bool) -> bool {
    let src = owner.bytes();
    if src.len() <= MAX_BYTES_TO_COPY {
        copied_to_front(before, after, src)
    } else if adopt {
        &&& after.edges().len() > 0
        &&& *after.edges().first() == CordRep::External(CordRepExternal { owner })
        &&& chunks_of(after.contents()) == seq![src] + chunks_of(before.contents())
    } else {
        &&& chunks_of(after.contents()) == cut(true, src) + chunks_of(before.contents())
        &&& all_sized(in_front(before, after), 0)
    }
}

/// Copies of `parts` were appended to `before`, one after the other.
pub open spec fn copied_in_parts(before: Cord, after: Cord, parts: Seq<Seq<u8>>) -> bool
    decreases parts.len(),
{
    if parts.len() == 0 {
        after == before
    } else {
        exists|mid: Cord|
            copied_in_parts(before, mid, parts.drop_last()) && #[trigger] copied_to_back(mid, after, parts.last())
    }
}

/// One more part.
pub(crate) proof fn lemma_copied_part(before: Cord, mid: Cord, after: Cord, parts: Seq<Seq<u8>>, part: Seq<u8>)
    requires
        copied_in_parts(before, mid, parts),
        copied_to_back(mid, after, part),
    ensures
        copied_in_parts(before, after, parts.push(part)),
{
    assert(parts.push(part).drop_last() =~= parts);
    assert(copied_to_back(mid, after, parts.push(part).last()));
}

/// What appending the buffer `src` makes of `before`: its flat block, which is
/// not copied, is the last data edge; bytes that it holds in place are copied,
/// to the bytes in place of `before` if they fit there, and otherwise into a block of their own.
pub open spec fn buffer_at_back(before: Cord, after: Cord, src: CordBuffer) -> bool {
    if src@.len() == 0 {
        after == before
    } else if src.spec_is_short() {
        &&& fits_in_place(before, src@.len() as int) <==> after.contents() is Inline
        &&& !fits_in_place(before, src@.len() as int) ==> {
            &&& chunks_of(after.contents()) == chunks_of(before.contents()).push(src@)
            &&& all_sized(behind(before, after), 0)
        }
    } else {
        &&& after.contents() is Tree
        &&& after.edges().len() > 0
        &&& *after.edges().last() == CordRep::Flat(src.block())
        &&& before@.len() == 0 ==> after.contents() == InlineData::Tree(after.edges().last())
        &&& before.contents() is Tree ==> after.edges().drop_last() == before.edges()
        &&& chunks_of(after.contents()) == chunks_of(before.contents()).push(src@)
    }
}

/// What prepending the buffer `src` makes of `before`.
pub open spec fn buffer_at_front(before: Cord, after: Cord, src: CordBuffer) -> bool {
    if src@.len() == 0 {
        after == before
    } else if src.spec_is_short() {
        &&& fits_in_place(before, src@.len() as int) <==> after.contents() is Inline
        &&& !fits_in_place(before, src@.len() as int) ==> {
            &&& chunks_of(after.contents()) == seq![src@] + chunks_of(before.contents())
            &&& all_sized(in_front(before, after), 0)
        }
    } else {
        &&& after.contents() is Tree
        &&& after.edges().len() > 0
        &&& *after.edges().first() == CordRep::Flat(src.block())
        &&& before@.len() == 0 ==> after.contents() == InlineData::Tree(after.edges().first())
        &&& before.contents() is Tree ==> after.edges().drop_first() == before.edges()
        &&& chunks_of(after.contents()) == seq![src@] + chunks_of(before.contents())
    }
}

/// One slice holds the bytes of `cord`: in place, or in a flat block.
pub open spec fn is_plain(cord: Cord) -> bool {
    match cord.contents() {
        InlineData::Inline(_) => true,
        InlineData::Tree(tree) => *tree is Flat,
    }
}

/// What appending the cord `src` makes of `before`: an empty cord takes over
/// its contents, and otherwise few bytes are copied and others are shared.
pub open spec fn cord_at_back(before: Cord, after: Cord, src: Cord) -> bool {
    if src@.len() == 0 {
        after.contents() == before.contents()
    } else if before@.len() == 0 {
        after.contents() == src.contents()
    } else if src@.len() > MAX_BYTES_TO_COPY {
        &&& src.edges().is_suffix_of(after.edges())
        &&& chunks_of(after.contents()) == chunks_of(before.contents()) + chunks_of(src.contents())
    } else {
        if is_plain(src) {
            copied_to_back(before, after, src@)
        } else {
            copied_in_parts(before, after, chunks_of(src.contents()))
        }
    }
}

/// What prepending the cord `src` makes of `before`: bytes in place are copied,
/// and a tree is shared.
pub open spec fn cord_at_front(before: Cord, after: Cord, src: Cord) -> bool {
    match src.contents() {
        InlineData::Inline(_) => copied_to_front(before, after, src@),
        InlineData::Tree(_) => {
            &&& src.edges().is_prefix_of(after.edges())
            &&& chunks_of(after.contents()) == chunks_of(src.contents()) + chunks_of(before.contents())
        },
    }
}

/// Bytes that fill the room of the last of some edges.
proof fn lemma_grown_last(before: Seq<Arc<CordRep>>, after: Seq<Arc<CordRep>>, ext: Seq<u8>)
    requires
        before.len() > 0,
        before.len() == after.len(),
        before.drop_last() == after.drop_last(),
        crate::rep::edges_bytes(after) == crate::rep::edges_bytes(before) + ext,
    ensures
        blocks(after) == grown_last(blocks(before), ext),
{
    let head = crate::rep::edges_bytes(before.drop_last());
    let x = before.last().bytes();
    let y = after.last().bytes();
    assert(head + y == head + x + ext);
    assert(y =~= (head + y).skip(head.len() as int));
    assert(x + ext =~= (head + x + ext).skip(head.len() as int));
    assert(blocks(after) =~= grown_last(blocks(before), ext)) by {
        assert forall|i: int| 0 <= i < before.len() - 1 implies before[i] == after[i] by {
            assert(before[i] == before.drop_last()[i]);
            assert(after[i] == after.drop_last()[i]);
        }
    }
}

/// Data that is cut into pieces has at least one.
proof fn lemma_cut_some(back: bool, data: Seq<u8>)
    requires
        data.len() > 0,
    ensures
        cut(back, data).len() > 0,
{
}

/// Nothing is appended to a cord.
proof fn lemma_nothing_copied(cord: Cord, src: Seq<u8>)
    requires
        src.len() == 0,
        cord.contents().wf(),
    ensures
        copied_to_back(cord, cord, src),
{
    assert(cord@ + src =~= cord@);
    match cord.contents() {
        InlineData::Inline(_) => {
            assert(chunks_of(cord.contents()) =~= cut(true, cord@));
        },
        InlineData::Tree(tree) => {
            lemma_leaves_valid(tree);
            let chunks = chunks_of(cord.contents());
            assert(chunks.len() == leaves(tree).len());
            assert(chunks.last() + src.take(0) =~= chunks.last());
            assert(grown_last(chunks, src.take(0)) + cut(true, src.skip(0)) =~= chunks);
        },
    }
}

/// The last block of a tree was filled with the first `k` bytes of `src`, and the others were added.
proof fn lemma_filled(before: Cord, after: Cord, src: Seq<u8>, k: int, grown: Seq<Arc<CordRep>>)
    requires
        before.contents() is Tree,
        after.contents() is Tree,
        before.edges().len() > 0,
        0 <= k <= src.len(),
        k == fitting(before.contents()->Tree_0, src.len() as int) || k == 0 && leg_held_twice(before.contents()->Tree_0),
        grown.len() == before.edges().len(),
        grown.drop_last() == before.edges().drop_last(),
        crate::rep::edges_bytes(grown) == crate::rep::edges_bytes(before.edges()) + src.take(k),
        blocks(after.edges()) == blocks(grown) + cut(true, src.skip(k)),
        all_sized(after.edges().skip(grown.len() as int), spare(before@.len() + k, src.len() - k)),
    ensures
        copied_to_back(before, after, src),
{
    lemma_grown_last(before.edges(), grown, src.take(k));
    assert(fills_and_adds(before, after, src, k));
}

/// There are more data edges once data was added behind them.
proof fn lemma_added_leaves(before: Seq<Arc<CordRep>>, after: Seq<Arc<CordRep>>, data: Seq<u8>)
    requires
        data.len() > 0,
        blocks(after) == blocks(before) + cut(true, data),
    ensures
        after.len() > before.len(),
{
    lemma_cut_some(true, data);
    assert(blocks(after).len() == after.len());
    assert(blocks(before).len() == before.len());
}

/// `len` more bytes can be held in place.
pub open spec fn fits_in_place(cord: Cord, len: int) -> bool {
    cord.contents() is Inline && cord@.len() + len <= MAX_INLINE
}

impl Cord {
    /// Appends the tree `tree`.
    pub(crate) fn append_tree(&mut self, tree: Arc<CordRep>)
        requires
            tree.is_edge(),
            settled(tree),
            old(self)@.len() + tree.bytes().len() <= usize::MAX,
        ensures
            extends_back(*old(self), *final(self)),
            final(self)@ == old(self)@ + tree.bytes(),
            final(self).contents() is Tree,
            chunks_of(final(self).contents()) == chunks_of(old(self).contents()) + blocks(leaves(tree)),
            old(self)@.len() == 0 ==> final(self).contents() == InlineData::Tree(tree),
            leaves(tree).is_suffix_of(final(self).edges()),
            old(self).contents() is Tree ==> final(self).edges() == old(self).edges() + leaves(tree),
            all_sized(leaves(tree), 0) ==> all_sized(behind(*old(self), *final(self)), 0),
    {
        let data = self.take_data();
        self.set_data(add_tree(data, true, tree));
        proof {
            let now = self.edges();
            let added = leaves(tree);
            if old(self)@.len() > 0 {
                let base = choose|base: Seq<Arc<CordRep>>|
                    #![trigger join(true, base, added)]
                    now == join(true, base, added) && (data is Tree ==> base == data_edges(data));
                assert(now == base + added);
            } else {
                assert(now =~= Seq::<Arc<CordRep>>::empty() + added);
            }
            assert(added =~= now.subrange(now.len() - added.len(), now.len() as int));
            if old(self).contents() is Tree {
                lemma_leaves_valid(data->Tree_0);
                assert(old(self).edges() =~= now.subrange(0, old(self).edges().len() as int));
                lemma_extends_by(*old(self), *self, old(self).edges());
                assert(behind(*old(self), *self) =~= added);
            } else {
                assert(behind(*old(self), *self) =~= now);
            }
        }
    }

    /// Prepends the tree `tree`.
    pub(crate) fn prepend_tree(&mut self, tree: Arc<CordRep>)
        requires
            tree.is_edge(),
            settled(tree),
            old(self)@.len() + tree.bytes().len() <= usize::MAX,
        ensures
            extends_front(*old(self), *final(self)),
            final(self)@ == tree.bytes() + old(self)@,
            final(self).contents() is Tree,
            chunks_of(final(self).contents()) == blocks(leaves(tree)) + chunks_of(old(self).contents()),
            old(self)@.len() == 0 ==> final(self).contents() == InlineData::Tree(tree),
            leaves(tree).is_prefix_of(final(self).edges()),
            old(self).contents() is Tree ==> final(self).edges() == leaves(tree) + old(self).edges(),
            all_sized(leaves(tree), 0) ==> all_sized(in_front(*old(self), *final(self)), 0),
    {
        let data = self.take_data();
        self.set_data(add_tree(data, false, tree));
        proof {
            let now = self.edges();
            let added = leaves(tree);
            if old(self)@.len() > 0 {
                let base = choose|base: Seq<Arc<CordRep>>|
                    #![trigger join(false, base, added)]
                    now == join(false, base, added) && (data is Tree ==> base == data_edges(data));
                assert(now == added + base);
            } else {
                assert(now =~= added + Seq::<Arc<CordRep>>::empty());
            }
            assert(added =~= now.subrange(0, added.len() as int));
            if old(self).contents() is Tree {
                assert(in_front(*old(self), *self) =~= added);
            } else {
                assert(in_front(*old(self), *self) =~= now);
            }
        }
    }

    /// Appends a copy of `src`: in place, in the room of the last flat block
    /// if no one else holds it, and in new blocks.
    pub(crate) fn append_slice(&mut self, src: &[u8])
        requires
            old(self)@.len() + src@.len() <= usize::MAX,
        ensures
            extends_back(*old(self), *final(self)),
            final(self)@ == old(self)@ + src@,
            copied_to_back(*old(self), *final(self), src@),
    {
        if src.len() == 0 {
            let _data = self.data();
            proof {
                assert(self@ =~= old(self)@ + src@);
                lemma_nothing_copied(*self, src@);
            }
            return;
        }
        let total: usize = src.len();
        let data = self.take_data();
        let (tree, appended): (Arc<CordRep>, usize) = match data {
            InlineData::Tree(current) => {
                let mut current = current;
                let n: usize = append_in_place(&mut current, src);
                (current, n)
            },
            InlineData::Inline(inline) => {
                let size: usize = inline.size();
                if total <= MAX_INLINE - size {
                    let mut inline = inline;
                    inline.push(src);
                    self.set_data(InlineData::Inline(inline));
                    assert(chunks_of(self.contents()) =~= cut(true, old(self)@ + src@));
                    return;
                }
                let mut flat = CordRepFlat::new(size.saturating_add(total));
                let room: usize = flat.capacity() - size;
                let n: usize = if total <= room {
                    total
                } else {
                    room
                };
                proof {
                    lemma_capacity_for(size + total, MAX_FLAT_SIZE as int);
                    lemma_capacity_for(size + n, MAX_FLAT_SIZE as int);
                }
                let part = slice_subrange(src, 0, n);
                flat.data.extend_from_slice(inline.as_slice());
                flat.data.extend_from_slice(part);
                assert(flat.data@ =~= inline.view() + src@.take(n as int));
                (CordRep::flat(flat), n)
            },
        };
        let rest = slice_subrange(src, appended, total);
        let ghost grown = leaves(tree);
        proof {
            if data is Tree {
                lemma_leaves_valid(data->Tree_0);
                lemma_settled_same(data->Tree_0, tree);
                lemma_leaves_bytes(data->Tree_0);
                lemma_leaves_bytes(tree);
            }
        }
        if rest.len() == 0 {
            assert(tree.bytes() =~= old(self)@ + src@);
            self.set_data(InlineData::Tree(tree));
            proof {
                if data is Tree {
                    assert(grown =~= grown.subrange(0, grown.len() as int));
                    lemma_extends_by(*old(self), *self, grown);
                    assert(blocks(grown) + cut(true, src@.skip(appended as int)) =~= blocks(grown));
                    lemma_filled(*old(self), *self, src@, appended as int, grown);
                } else {
                    assert(chunks_of(self.contents()) =~= seq![old(self)@ + src@]);
                    assert(self.edges() =~= seq![tree]);
                }
            }
            return;
        }
        let tree = CordRepBtree::create(tree);
        let tenth: usize = tree.len() / 10;
        let growth: usize = if tenth >= rest.len() {
            tenth
        } else {
            rest.len()
        };
        let ghost base = tree;
        let tree = CordRepBtree::append_data(tree, rest, growth - rest.len());
        proof {
            assert(tree.bytes() =~= old(self)@ + src@);
            lemma_tree_nonempty(tree);
            lemma_tree_nonempty(base);
            lemma_leaves_valid(base);
            lemma_added_leaves(leaves(base), leaves(tree), rest@);
            lemma_settled_grown(base, tree);
        }
        self.set_data(InlineData::Tree(tree));
        proof {
            if data is Tree {
                lemma_extends_by(*old(self), *self, grown);
                lemma_filled(*old(self), *self, src@, appended as int, grown);
            } else {
                let first = old(self)@ + src@.take(appended as int);
                lemma_cut_first(true, first, rest@);
                assert(old(self)@ + src@ =~= first + rest@);
                assert(blocks(grown) =~= seq![first]);
                assert(grown.len() == 1);
                assert(self.edges()[0] == grown[0]);
            }
        }
    }

    /// Prepends a copy of `src`: in place, or in new blocks.
    pub(crate) fn prepend_slice(&mut self, src: &[u8])
        requires
            old(self)@.len() + src@.len() <= usize::MAX,
        ensures
            extends_front(*old(self), *final(self)),
            final(self)@ == src@ + old(self)@,
            copied_to_front(*old(self), *final(self), src@),
    {
        if src.len() == 0 {
            let _data = self.data();
            proof {
                assert(self@ =~= src@ + old(self)@);
                assert(cut(false, src@) + chunks_of(self.contents()) =~= chunks_of(self.contents()));
            }
            return;
        }
        let data = self.take_data();
        match data {
            InlineData::Inline(inline) => {
                if src.len() <= MAX_INLINE - inline.size() {
                    self.set_data(InlineData::concat_inline(src, inline.as_slice()));
                } else {
                    self.set_data(add_tree(InlineData::Inline(inline), false, new_tree(src, 0)));
                }
            },
            InlineData::Tree(current) => {
                let tree = CordRepBtree::create(current);
                let ghost base = tree;
                let tree = CordRepBtree::prepend_data(tree, src, 0);
                proof {
                    lemma_tree_nonempty(tree);
                    lemma_tree_nonempty(base);
                    lemma_leaves_valid(base);
                    lemma_cut_some(false, src@);
                    assert(blocks(leaves(tree)).len() == leaves(tree).len());
                    lemma_settled_grown(base, tree);
                }
                self.set_data(InlineData::Tree(tree));
            },
        }
    }

    /// Appends a copy of `src` in place or in a block of its own.
    pub(crate) fn append_precise(&mut self, src: &[u8])
        requires
            0 < src@.len() <= MAX_FLAT_LENGTH,
            old(self)@.len() + src@.len() <= usize::MAX,
        ensures
            extends_back(*old(self), *final(self)),
            final(self)@ == old(self)@ + src@,
            fits_in_place(*old(self), src@.len() as int) <==> final(self).contents() is Inline,
            !fits_in_place(*old(self), src@.len() as int) || old(self)@.len() == 0 ==> chunks_of(
                final(self).contents(),
            ) == chunks_of(old(self).contents()).push(src@),
            !fits_in_place(*old(self), src@.len() as int) ==> all_sized(behind(*old(self), *final(self)), 0),
    {
        if self.remaining_inline_capacity() >= src.len() {
            let mut data = self.take_data();
            data.push_back_inline(src);
            self.set_data(data);
            proof {
                assert(old(self)@.len() == 0 ==> self@ =~= src@);
                assert(old(self)@.len() == 0 ==> chunks_of(self.contents()) =~= Seq::<Seq<u8>>::empty().push(src@));
            }
        } else {
            let rep = CordRep::flat(CordRepFlat::create(src, 0));
            self.append_tree(rep);
            assert(chunks_of(self.contents()) =~= chunks_of(old(self).contents()).push(src@));
        }
    }

    /// Prepends a copy of `src` in place or in a block of its own.
    pub(crate) fn prepend_precise(&mut self, src: &[u8])
        requires
            0 < src@.len() <= MAX_FLAT_LENGTH,
            old(self)@.len() + src@.len() <= usize::MAX,
        ensures
            extends_front(*old(self), *final(self)),
            final(self)@ == src@ + old(self)@,
            fits_in_place(*old(self), src@.len() as int) <==> final(self).contents() is Inline,
            !fits_in_place(*old(self), src@.len() as int) ==> chunks_of(final(self).contents()) == seq![src@]
                + chunks_of(old(self).contents()) && all_sized(in_front(*old(self), *final(self)), 0),
    {
        if self.remaining_inline_capacity() >= src.len() {
            let mut data = self.take_data();
            data.push_front_inline(src);
            self.set_data(data);
        } else {
            let rep = CordRep::flat(CordRepFlat::create(src, 0));
            self.prepend_tree(rep);
            assert(blocks(leaves(rep)) =~= seq![src@]);
        }
    }

    /// The number of bytes that can still be held in place.
    fn remaining_inline_capacity(&self) -> (n: usize)
        ensures
            self.contents() is Tree ==> n == 0,
            self.contents() is Inline ==> n == MAX_INLINE - self@.len(),
    {
        if self.data().is_tree() {
            0
        } else {
            MAX_INLINE - self.data().inline_size()
        }
    }

    /// Appends copies of the chunks of `src`.
    fn append_chunks(&mut self, src: &Cord)
        requires
            old(self)@.len() + src@.len() <= usize::MAX,
        ensures
            extends_back(*old(self), *final(self)),
            final(self)@ == old(self)@ + src@,
            copied_in_parts(*old(self), *final(self), chunks_of(src.contents())),
    {
        let mut chunks = src.chunks();
        let ghost all = chunks.chunks();
        let ghost mut done: Seq<Seq<u8>> = Seq::empty();
        let _data = self.data();
        proof {
            assert(self@ + chunks.rest() =~= old(self)@ + src@);
            lemma_extends_same(*self);
        }
        while chunks.remaining() > 0
            invariant
                chunks.wf(),
                self@ + chunks.rest() == old(self)@ + src@,
                old(self)@.len() + src@.len() <= usize::MAX,
                extends_back(*old(self), *self),
                old(self).contents() is Tree ==> old(self).edges().len() > 0,
                copied_in_parts(*old(self), *self, done),
                done + chunks.chunks() == all,
            decreases chunks.rest().len(),
        {
            let ghost held = *self;
            let ghost before = self@;
            let ghost left = chunks.rest();
            let chunk = chunks.next().unwrap();
            assert(before + left =~= before + chunk@ + chunks.rest());
            self.append_slice(chunk);
            proof {
                lemma_extends_twice(*old(self), held, *self);
                lemma_copied_part(*old(self), held, *self, done, chunk@);
                done = done.push(chunk@);
                assert(done + chunks.chunks() =~= all);
            }
        }
        let _end = chunks.next();
        proof {
            assert(self@ + chunks.rest() =~= self@);
            assert(done =~= all);
        }
    }

    /// Appends a copy of the bytes of `src`, which are few.
    fn append_small_cord(&mut self, src: &Cord)
        requires
            old(self)@.len() + src@.len() <= usize::MAX,
        ensures
            extends_back(*old(self), *final(self)),
            final(self)@ == old(self)@ + src@,
            is_plain(*src) ==> copied_to_back(*old(self), *final(self), src@),
            !is_plain(*src) ==> copied_in_parts(*old(self), *final(self), chunks_of(src.contents())),
    {
        match src.data().repr() {
            Repr::Inline(data) => {
                self.append_slice(data);
            },
            Repr::Tree(tree) => {
                if tree.is_flat() {
                    self.append_slice(edge_data(tree));
                } else {
                    self.append_chunks(src);
                }
            },
        }
    }

    /// Appends `src`: a copy where it is small, and otherwise its shared tree.
    pub(crate) fn append_cord(&mut self, src: &Cord)
        requires
            old(self)@.len() + src@.len() <= usize::MAX,
        ensures
            extends_back(*old(self), *final(self)),
            final(self)@ == old(self)@ + src@,
            cord_at_back(*old(self), *final(self), *src),
    {
        if src.is_empty() {
            assert(self@ =~= old(self)@ + src@);
            return;
        }
        if self.is_empty() {
            self.set_data(src.data().clone_with_ref());
            assert(self@ =~= old(self)@ + src@);
            return;
        }
        if src.len() <= MAX_BYTES_TO_COPY {
            self.append_small_cord(src);
            return;
        }
        if let Some(tree) = src.data().tree() {
            self.append_tree(tree.clone());
        }
    }

    /// Appends `src`: a copy where it is small, and otherwise its tree.
    pub(crate) fn append_owned_cord(&mut self, src: Cord)
        requires
            old(self)@.len() + src@.len() <= usize::MAX,
        ensures
            extends_back(*old(self), *final(self)),
            final(self)@ == old(self)@ + src@,
            cord_at_back(*old(self), *final(self), src),
    {
        if src.is_empty() {
            assert(self@ =~= old(self)@ + src@);
            return;
        }
        if self.is_empty() {
            self.set_data(src.into_data());
            assert(self@ =~= old(self)@ + src@);
            return;
        }
        if src.len() <= MAX_BYTES_TO_COPY {
            self.append_small_cord(&src);
            return;
        }
        if let InlineData::Tree(tree) = src.into_data() {
            self.append_tree(tree);
        }
    }

    /// Prepends `src`: its shared tree, or a copy of the bytes that it holds in place.
    pub(crate) fn prepend_cord(&mut self, src: &Cord)
        requires
            old(self)@.len() + src@.len() <= usize::MAX,
        ensures
            extends_front(*old(self), *final(self)),
            final(self)@ == src@ + old(self)@,
            cord_at_front(*old(self), *final(self), *src),
    {
        match src.data().repr() {
            Repr::Inline(data) => {
                self.prepend_slice(data);
            },
            Repr::Tree(tree) => {
                self.prepend_tree(tree.clone());
            },
        }
    }

    /// Prepends `src`: its tree, or a copy of the bytes that it holds in place.
    pub(crate) fn prepend_owned_cord(&mut self, src: Cord)
        requires
            old(self)@.len() + src@.len() <= usize::MAX,
        ensures
            extends_front(*old(self), *final(self)),
            final(self)@ == src@ + old(self)@,
            cord_at_front(*old(self), *final(self), src),
    {
        match src.into_data() {
            InlineData::Inline(inline) => {
                self.prepend_slice(inline.as_slice());
            },
            InlineData::Tree(tree) => {
                self.prepend_tree(tree);
            },
        }
    }

    /// Appends the bytes of `owner`, which occupy `capacity` bytes: a copy of
    /// few bytes, and otherwise `owner` itself if that is worthwhile.
    pub(crate) fn append_owned(&mut self, owner: Owner, capacity: usize)
        requires
            old(self)@.len() + owner.bytes().len() <= usize::MAX,
        ensures
            extends_back(*old(self), *final(self)),
            final(self)@ == old(self)@ + owner.bytes(),
            owned_at_back(*old(self), *final(self), owner, adopted(owner.bytes().len(), capacity)),
    {
        if owner.as_bytes().len() <= MAX_BYTES_TO_COPY {
            self.append_slice(owner.as_bytes());
        } else {
            let rep = rep_from_owned(owner, capacity);
            self.append_tree(rep);
            proof {
                if adopted(owner.bytes().len(), capacity) {
                    let now = self.edges();
                    assert(leaves(rep) == seq![rep]);
                    assert(now.subrange(now.len() - 1, now.len() as int)[0] == rep);
                    assert(chunks_of(self.contents()) =~= chunks_of(old(self).contents()).push(owner.bytes()));
                }
            }
        }
    }

    /// Prepends the bytes of `owner`, which occupy `capacity` bytes: a copy of
    /// few bytes, and otherwise `owner` itself if that is worthwhile.
    pub(crate) fn prepend_owned(&mut self, owner: Owner, capacity: usize)
        requires
            old(self)@.len() + owner.bytes().len() <= usize::MAX,
        ensures
            extends_front(*old(self), *final(self)),
            final(self)@ == owner.bytes() + old(self)@,
            owned_at_front(*old(self), *final(self), owner, adopted(owner.bytes().len(), capacity)),
    {
        if owner.as_bytes().len() <= MAX_BYTES_TO_COPY {
            self.prepend_slice(owner.as_bytes());
        } else {
            let rep = rep_from_owned(owner, capacity);
            self.prepend_tree(rep);
            proof {
                if adopted(owner.bytes().len(), capacity) {
                    let now = self.edges();
                    assert(leaves(rep) == seq![rep]);
                    assert(now.subrange(0, 1)[0] == rep);
                    assert(blocks(leaves(rep)) =~= seq![owner.bytes()]);
                }
            }
        }
    }

    /// A cord with the bytes of `owner`, which occupy `capacity` bytes.
    pub(crate) fn from_owned(owner: Owner, capacity: usize) -> (cord: Cord)
        ensures
            cord@ == owner.bytes(),
            adopted(owner.bytes().len(), capacity) ==> cord.contents() is Tree
                && *cord.contents()->Tree_0 == CordRep::External(CordRepExternal { owner }),
            owner.bytes().len() <= MAX_INLINE <==> cord.contents() is Inline,
            !adopted(owner.bytes().len(), capacity) ==> chunks_of(cord.contents()) == cut(true, owner.bytes()),
            !adopted(owner.bytes().len(), capacity) && MAX_INLINE < owner.bytes().len() <= MAX_FLAT_LENGTH
                ==> is_flat_of(cord.contents(), owner.bytes().len() as int),
    {
        if owner.as_bytes().len() <= MAX_INLINE {
            return Cord::from_data(InlineData::inline_from(owner.as_bytes()));
        }
        Cord::from_data(InlineData::Tree(rep_from_owned(owner, capacity)))
    }

    /// Appends the contents of `buffer`: its flat block, or a copy of the bytes in place.
    pub(crate) fn append_buffer(&mut self, buffer: CordBuffer)
        requires
            old(self)@.len() + buffer@.len() <= usize::MAX,
        ensures
            extends_back(*old(self), *final(self)),
            final(self)@ == old(self)@ + buffer@,
            buffer_at_back(*old(self), *final(self), buffer),
    {
        if buffer.is_empty() {
            assert(self@ =~= old(self)@ + buffer@);
            return;
        }
        match buffer.consume() {
            BufferRep::Flat(flat) => {
                let rep = CordRep::flat(*flat);
                self.append_tree(rep);
                proof {
                    let now = self.edges();
                    assert(leaves(rep) == seq![rep]);
                    assert(now.subrange(now.len() - 1, now.len() as int)[0] == rep);
                    assert(chunks_of(self.contents()) =~= chunks_of(old(self).contents()).push(buffer@));
                    if old(self).contents() is Tree {
                        assert(now.drop_last() =~= old(self).edges());
                    }
                }
            },
            BufferRep::Short(short) => {
                self.append_precise(short.as_slice());
            },
        }
    }

    /// Prepends the contents of `buffer`: its flat block, or a copy of the bytes in place.
    pub(crate) fn prepend_buffer(&mut self, buffer: CordBuffer)
        requires
            old(self)@.len() + buffer@.len() <= usize::MAX,
        ensures
            extends_front(*old(self), *final(self)),
            final(self)@ == buffer@ + old(self)@,
            buffer_at_front(*old(self), *final(self), buffer),
    {
        if buffer.is_empty() {
            assert(self@ =~= buffer@ + old(self)@);
            return;
        }
        match buffer.consume() {
            BufferRep::Flat(flat) => {
                let rep = CordRep::flat(*flat);
                self.prepend_tree(rep);
                proof {
                    let now = self.edges();
                    assert(leaves(rep) == seq![rep]);
                    assert(now.subrange(0, 1)[0] == rep);
                    assert(blocks(leaves(rep)) =~= seq![buffer@]);
                    if old(self).contents() is Tree {
                        assert(now.drop_first() =~= old(self).edges());
                    }
                }
            },
            BufferRep::Short(short) => {
                self.prepend_precise(short.as_slice());
            },
        }
    }
}

/// The flat block `rep`, moved out where no one else holds it, and copied otherwise.
fn into_flat(rep: Arc<CordRep>) -> (flat: CordRepFlat)
    requires
        *rep is Flat,
        rep.wf(),
    ensures
        flat.wf(),
        flat.data@ == rep.bytes(),
        flat.tag == (*rep)->Flat_0.tag,
{
    let mut rep = rep;
    if let Some(CordRep::Flat(flat)) = get_mut(&mut rep) {
        let mut taken = CordRepFlat { tag: flat.tag, data: Vec::new() };
        swap(flat, &mut taken);
        return taken;
    }
    let mut copy = CordRepFlat { tag: rep.tag(), data: Vec::new() };
    copy.data.extend_from_slice(edge_data(&rep));
    assert(copy.data@ =~= rep.bytes());
    copy
}

/// Takes the last flat block out of `rep` if it has room for `min_capacity`
/// more bytes and no one else holds it or a node above it.
fn extract_append_buffer(rep: Arc<CordRep>, min_capacity: usize) -> (r: ExtractResult)
    requires
        rep.is_edge(),
    ensures
        r.extracted is Some ==> owed(leaves(rep), true, min_capacity),
        r.extracted is None && owed(leaves(rep), true, min_capacity) ==> leg_held_twice(rep),
        extracts(r, leaves(rep), rep.height()),
{
    if rep.is_btree() {
        return CordRepBtree::extract_append_buffer(rep, min_capacity);
    }
    let private: bool = strong_count(&rep) == 1;
    extract_block(rep, private, min_capacity)
}

/// A new buffer for `capacity` bytes with blocks of `block_size` bytes, or
/// with the default limit if `block_size` is zero.
fn fresh_buffer(block_size: usize, capacity: usize) -> (buffer: CordBuffer)
    requires
        block_size == 0 || valid_block_size(block_size),
    ensures
        buffer@ == Seq::<u8>::empty(),
        buffer.spec_capacity() == fresh_capacity(block_size, capacity as int),
        buffer.spec_capacity() >= MAX_INLINE,
{
    if block_size != 0 {
        CordBuffer::with_capacity_and_block_size(capacity, block_size)
    } else {
        CordBuffer::with_capacity(capacity)
    }
}

/// The buffer for appending, where `extracted` was taken out of a tree or was
/// not to be had: the block itself, or a new buffer.
pub fn buffer_of(extracted: Option<Arc<CordRep>>, block_size: usize, capacity: usize) -> (buffer: CordBuffer)
    requires
        extracted matches Some(flat) ==> *flat is Flat && flat.wf(),
        block_size == 0 || valid_block_size(block_size),
    ensures
        match extracted {
            Some(flat) => {
                &&& buffer@ == flat.bytes()
                &&& buffer.spec_capacity() == (*flat)->Flat_0.spec_capacity()
                &&& !buffer.spec_is_short()
            },
            None => {
                &&& buffer@ == Seq::<u8>::empty()
                &&& buffer.spec_capacity() == fresh_capacity(block_size, capacity as int)
            },
        },
{
    match extracted {
        Some(flat) => CordBuffer::from_flat(into_flat(flat)),
        None => fresh_buffer(block_size, capacity),
    }
}

/// The capacity of a new buffer for `capacity` bytes with blocks of
/// `block_size` bytes, or with the default limit if `block_size` is zero.
pub open spec fn fresh_capacity(block_size: usize, capacity: int) -> int {
    if block_size != 0 {
        block_capacity(capacity, block_size as int)
    } else {
        default_capacity(capacity)
    }
}

/// What `taken` may be, if it was taken out of a cord with the bytes `before`
/// and left the bytes `after` there.
pub open spec fn takes_buffer(
    before: Cord,
    after: Cord,
    taken: CordBuffer,
    block_size: usize,
    capacity: usize,
    min_capacity: usize,
) -> bool {
    &&& before@ == after@ + taken@
    &&& match before.contents() {
        // The bytes in place move to a new buffer.
        InlineData::Inline(_) => {
            &&& taken@ == before@
            &&& taken.spec_capacity() == fresh_capacity(
                block_size,
                if capacity + before@.len() <= usize::MAX {
                    capacity + before@.len()
                } else {
                    usize::MAX as int
                },
            )
        },
        // The whole last block, if it is flat and has room enough; or else, and
        // where it may be held by others, a new buffer.
        InlineData::Tree(tree) => if taken@.len() > 0 {
            &&& owed(before.edges(), true, min_capacity)
            &&& taken@ == before.edges().last().bytes()
            &&& taken.spec_capacity() == (*before.edges().last())->Flat_0.spec_capacity()
            &&& after.edges() == before.edges().drop_last()
        } else {
            &&& owed(before.edges(), true, min_capacity) ==> leg_held_twice(tree)
            &&& taken.spec_capacity() == fresh_capacity(block_size, capacity as int)
            &&& after.edges() == before.edges()
        },
    }
}

impl Cord {
    /// A buffer for appending. The last block of the cord is taken out for it if
    /// the cord alone holds it and it has at least 16 bytes of room;
    /// otherwise a new buffer for `capacity` bytes is made. Appending the
    /// buffer puts everything back.
    pub fn take_append_buffer(&mut self, capacity: usize) -> (buffer: CordBuffer)
        ensures
            takes_buffer(*old(self), *final(self), buffer, 0, capacity, 16),
    {
        self.take_append_buffer_with(0, capacity, 16)
    }

    /// Like `take_append_buffer`, with blocks of `block_size` bytes (or the
    /// default limit if that is zero) and at least `min_capacity` bytes of room.
    pub fn take_append_buffer_with(
        &mut self,
        block_size: usize,
        capacity: usize,
        min_capacity: usize,
    ) -> (buffer: CordBuffer)
        requires
            block_size == 0 || valid_block_size(block_size),
        ensures
            takes_buffer(*old(self), *final(self), buffer, block_size, capacity, min_capacity),
    {
        match self.take_data() {
            InlineData::Tree(tree) => {
                let result = extract_append_buffer(tree, min_capacity);
                proof {
                    lemma_leaves_bytes(tree);
                }
                if let Some(rest) = result.tree {
                    proof {
                        if result.extracted is None {
                            lemma_settled_same(tree, rest);
                        }
                    }
                    self.set_data(InlineData::Tree(settle(rest)));
                }
                let buffer = buffer_of(result.extracted, block_size, capacity);
                proof {
                    assert(old(self)@ =~= self@ + buffer@);
                    if result.extracted is Some {
                        assert(self.edges() =~= old(self).edges().drop_last());
                    }
                }
                buffer
            },
            InlineData::Inline(inline) => {
                let capacity: usize = capacity.saturating_add(inline.size());
                let mut buffer = fresh_buffer(block_size, capacity);
                buffer.put_slice(inline.as_slice());
                assert(buffer@ =~= old(self)@);
                assert(old(self)@ =~= self@ + buffer@);
                buffer
            },
        }
    }

    /// Removes the first `n` bytes.
    pub fn advance(&mut self, n: usize)
        requires
            n <= old(self)@.len(),
        ensures
            final(self)@ == old(self)@.skip(n as int),
            shares(final(self).edges(), old(self).edges()),
            final(self).contents() is Inline <==> n == old(self)@.len() || old(self).contents() is Inline,
    {
        proof {
            lemma_shares_none(old(self).edges());
        }
        let mut data = self.take_data();
        match data {
            InlineData::Inline(_) => {
                data.drop_front_inline(n);
                self.set_data(data);
            },
            InlineData::Tree(tree) => {
                let len: usize = tree.len();
                if n >= len {
                    assert(self@ =~= old(self)@.skip(n as int));
                    return;
                }
                assert(tree.bytes().skip(n as int) =~= tree.bytes().subrange(n as int, len as int));
                if tree.is_btree() {
                    let sub = CordRepBtree::sub_tree(&tree, n, len - n).unwrap();
                    self.set_data(InlineData::Tree(settle(sub)));
                    return;
                }
                let ghost whole = tree;
                let mut tree = tree;
                if let Some(CordRep::Substring(sub)) = get_mut(&mut tree) {
                    proof {
                        lemma_len_fits(sub.child);
                    }
                    sub.start = sub.start + n;
                    sub.length = len - n;
                    proof {
                        assert(tree.bytes() =~= whole.bytes().skip(n as int));
                        lemma_shares_window(whole, tree);
                    }
                    self.set_data(InlineData::Tree(tree));
                    return;
                }
                let sub = CordRepSubstring::substring(&tree, n, len - n);
                proof {
                    lemma_shares_window(whole, sub);
                }
                self.set_data(InlineData::Tree(sub));
            },
        }
    }

    /// Keeps the first `len` bytes. Has no effect where there are no more.
    pub fn truncate(&mut self, len: usize)
        ensures
            final(self)@ == if len <= old(self)@.len() {
                old(self)@.take(len as int)
            } else {
                old(self)@
            },
            len >= old(self)@.len() ==> final(self).contents() == old(self).contents(),
            final(self).contents() is Tree ==> cut_back(final(self).edges(), old(self).edges()),
            final(self).contents() is Inline <==> len == 0 || old(self).contents() is Inline,
            old(self).contents() matches InlineData::Tree(tree) && *tree is Flat && len > 0 && !held_twice(
                old(self).contents()->Tree_0,
            ) ==> *final(self).contents()->Tree_0 is Flat,
    {
        let current: usize = self.len();
        if len >= current {
            let _data = self.data();
            proof {
                assert(self@.take(current as int) =~= self@);
                lemma_cut_nowhere(self.contents());
            }
            return;
        }
        let mut data = self.take_data();
        match data {
            InlineData::Inline(_) => {
                data.truncate_inline(len);
                self.set_data(data);
            },
            InlineData::Tree(tree) => {
                if len == 0 {
                    assert(self@ =~= old(self)@.take(len as int));
                    return;
                }
                if tree.is_btree() {
                    let rest = CordRepBtree::remove_suffix(tree, current - len).unwrap();
                    proof {
                        lemma_leaves_valid(rest);
                    }
                    self.set_data(InlineData::Tree(settle(rest)));
                    return;
                }
                let rest = resize_edge(tree, len);
                proof {
                    lemma_cut_edge(tree, rest);
                }
                self.set_data(InlineData::Tree(rest));
            },
        }
    }

    /// The `new_size` bytes at `pos`: a copy of few bytes, and a shared part of the tree otherwise.
    pub(crate) fn subcord(&self, pos: usize, new_size: usize) -> (sub: Cord)
        requires
            pos + new_size <= self@.len(),
        ensures
            sub@ == self@.subrange(pos as int, pos + new_size),
            new_size <= MAX_INLINE <==> sub.contents() is Inline,
            shares(sub.edges(), self.edges()),
    {
        proof {
            lemma_shares_none(self.edges());
        }
        if new_size == 0 {
            assert(self@.subrange(pos as int, pos + new_size) =~= Seq::<u8>::empty());
            return Cord::new();
        }
        match self.data().repr() {
            Repr::Inline(data) => {
                Cord::from_data(InlineData::inline_from(slice_subrange(data, pos, pos + new_size)))
            },
            Repr::Tree(tree) => {
                if new_size <= MAX_INLINE {
                    let mut it = ForwardChunks::new(self);
                    it.advance_bytes(pos);
                    let out = it.gather_inline(new_size);
                    assert(out.view() =~= self@.subrange(pos as int, pos + new_size));
                    return Cord::from_data(out);
                }
                if tree.is_btree() {
                    let sub = CordRepBtree::sub_tree(tree, pos, new_size).unwrap();
                    Cord::from_data(InlineData::Tree(settle(sub)))
                } else {
                    let sub = CordRepSubstring::substring(tree, pos, new_size);
                    proof {
                        lemma_shares_window(*tree, sub);
                    }
                    Cord::from_data(InlineData::Tree(sub))
                }
            },
        }
    }

    /// Splits the cord at `at`: the cord keeps the bytes before, and those behind are returned.
    pub fn split_off(&mut self, at: usize) -> (tail: Cord)
        requires
            at <= old(self)@.len(),
        ensures
            final(self)@ == old(self)@.take(at as int),
            tail@ == old(self)@.skip(at as int),
            shares(tail.edges(), old(self).edges()),
            at == 0 ==> tail.contents() is Inline == old(self).contents() is Inline,
            at > 0 ==> (tail.contents() is Inline <==> old(self)@.len() - at <= MAX_INLINE),
            final(self).contents() is Tree ==> cut_back(final(self).edges(), old(self).edges()),
            final(self).contents() is Inline <==> at == 0 || old(self).contents() is Inline,
    {
        let len: usize = self.len();
        proof {
            lemma_shares_none(old(self).edges());
            lemma_shares_same(old(self).edges());
            let all = old(self)@;
            assert(all.take(len as int) =~= all);
            assert(all.skip(len as int) =~= Seq::<u8>::empty());
            assert(all.take(0) =~= Seq::<u8>::empty());
            assert(all.skip(0) =~= all);
            assert(all.skip(at as int) =~= all.subrange(at as int, len as int));
        }
        if at == len {
            let _data = self.data();
            proof {
                lemma_cut_nowhere(self.contents());
            }
            return Cord::new();
        }
        if at == 0 {
            return Cord::from_data(self.take_data());
        }
        let tail = self.subcord(at, len - at);
        self.truncate(at);
        tail
    }

    /// Splits the cord at `at`: the bytes before are returned, and the cord keeps those behind.
    pub fn split_to(&mut self, at: usize) -> (head: Cord)
        requires
            at <= old(self)@.len(),
        ensures
            final(self)@ == old(self)@.skip(at as int),
            head@ == old(self)@.take(at as int),
            shares(head.edges(), old(self).edges()),
            shares(final(self).edges(), old(self).edges()),
            final(self).contents() is Inline <==> at == old(self)@.len() || old(self).contents() is Inline,
            at == old(self)@.len() ==> head.contents() is Inline == old(self).contents() is Inline,
            at < old(self)@.len() ==> (head.contents() is Inline <==> at <= MAX_INLINE),
    {
        let _data = self.data();
        let len: usize = self.len();
        proof {
            lemma_shares_none(old(self).edges());
            lemma_shares_same(old(self).edges());
            let all = old(self)@;
            assert(all.take(len as int) =~= all);
            assert(all.skip(len as int) =~= Seq::<u8>::empty());
            assert(all.take(0) =~= Seq::<u8>::empty());
            assert(all.skip(0) =~= all);
            assert(all.take(at as int) =~= all.subrange(0, at as int));
        }
        if at == 0 {
            return Cord::new();
        }
        if at == len {
            return Cord::from_data(self.take_data());
        }
        let head = self.subcord(0, at);
        self.advance(at);
        head
    }
}

/// A valid tree is not empty.
pub(crate) proof fn lemma_tree_nonempty(tree: Arc<CordRep>)
    requires
        tree.is_tree(tree.height()),
    ensures
        tree.is_edge(),
{
    crate::rep::stack::lemma_fits_nonempty(tree, tree.height() + 1);
}

} // verus!
