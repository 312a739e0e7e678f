//! Where bytes that are added to a cord end up.

use super::pieces::law_cut;
use crate::buffer::CordBuffer;
use crate::bytes_impl::{flushed, has_room, next_buffer, written};
use crate::cord::{is_flat_of, Cord};
use crate::edit::{
    behind, buffer_at_back, buffer_at_front, copied_in_parts, copied_to_back, copied_to_front, cord_at_back,
    cord_at_front, extends_back, extends_front, fits_in_place, fresh_capacity, grown_last, in_front, is_plain, spare,
    takes_buffer,
};
use crate::inline_data::InlineData;
use crate::iter::chunks_of;
use crate::read::{is_contiguous, is_one_block};
use crate::rep::append::{all_sized, sized};
use crate::rep::extract::{extracts, owed, ExtractResult};
use crate::rep::pieces::cut;
use crate::rep::share::{held_twice, last_held_twice, leg_held_twice};
use crate::rep::subtree::{fitting, last_room, room_of};
use crate::rep::{leaves, lemma_leaves_valid, CordRep};
use std::sync::Arc;
use vstd::prelude::*;

verus! {

/// Bytes that are copied to the back of bytes in place stay there up to fifteen
/// in all, and otherwise go with them into blocks of 4083 bytes, of which only
/// the last may be shorter.
pub proof fn law_copy_behind_inline(before: Cord, after: Cord, src: Seq<u8>)
    requires
        before.contents() is Inline,
        copied_to_back(before, after, src),
    ensures
        before@.len() + src.len() <= 15 <==> after.contents() is Inline,
        chunks_of(after.contents()).flatten() == before@ + src,
        forall|i: int|
            0 <= i < chunks_of(after.contents()).len() - 1 ==> (#[trigger] chunks_of(after.contents())[i]).len() == 4083,
        forall|i: int|
            0 <= i < chunks_of(after.contents()).len() ==> 0 < (#[trigger] chunks_of(after.contents())[i]).len() <= 4083,
{
    law_cut(true, before@ + src);
}

/// Bytes that are copied to the back of a tree fill the room of its last block
/// first, unless that or a node above it may be held by others, and go into new
/// blocks of 4083 bytes behind it, of which only the last may be shorter. All
/// other chunks stay.
pub proof fn law_copy_behind_tree(before: Cord, after: Cord, src: Seq<u8>)
    requires
        before.contents() is Tree,
        before.contents().wf(),
        copied_to_back(before, after, src),
    ensures
        after.contents() is Tree,
        ({
            let old_chunks = chunks_of(before.contents());
            let chunks = chunks_of(after.contents());
            let n = old_chunks.len() as int;
            let room = room_of(*before.edges().last());
            &&& n > 0
            &&& chunks.len() >= n
            &&& forall|i: int| 0 <= i < n - 1 ==> #[trigger] chunks[i] == old_chunks[i]
            &&& exists|k: int|
                {
                    &&& 0 <= k <= src.len()
                    &&& k <= room
                    &&& k == room || k == src.len() || (k == 0 && leg_held_twice(before.contents()->Tree_0))
                    &&& chunks[n - 1] == old_chunks[n - 1] + #[trigger] src.take(k)
                    &&& chunks.skip(n).flatten() == src.skip(k)
                }
            &&& forall|i: int| n <= i < chunks.len() - 1 ==> (#[trigger] chunks[i]).len() == 4083
            &&& forall|i: int| n <= i < chunks.len() ==> 0 < (#[trigger] chunks[i]).len() <= 4083
        }),
{
    let tree = before.contents()->Tree_0;
    lemma_leaves_valid(tree);
    let old_chunks = chunks_of(before.contents());
    let chunks = chunks_of(after.contents());
    let n = old_chunks.len() as int;
    assert(n == leaves(tree).len());
    assert(leaves(tree)[n - 1].is_leaf_edge());
    let full = fitting(tree, src.len() as int);
    let k = if crate::edit::fills_and_adds(before, after, src, full) {
        full
    } else {
        0
    };
    law_cut(true, src.skip(k));
    let new = cut(true, src.skip(k));
    let grown = grown_last(old_chunks, src.take(k));
    assert(chunks == grown + new);
    assert(chunks.skip(n) =~= new);
    assert(chunks[n - 1] == old_chunks[n - 1] + src.take(k));
    assert forall|i: int| n <= i < chunks.len() implies #[trigger] chunks[i] == new[i - n] by {
    }
}

/// Bytes that are copied to the front of bytes in place stay there up to
/// fifteen in all, and otherwise go into blocks of their own in front of them.
pub proof fn law_copy_before_inline(before: Cord, after: Cord, src: Seq<u8>)
    requires
        before.contents() is Inline,
        copied_to_front(before, after, src),
    ensures
        before@.len() + src.len() <= 15 <==> after.contents() is Inline,
        before@.len() + src.len() > 15 && before@.len() > 0 ==> {
            let chunks = chunks_of(after.contents());
            &&& chunks.len() > 0
            &&& chunks.last() == before@
            &&& chunks.drop_last().flatten() == src
            &&& forall|i: int| 0 <= i < chunks.len() - 2 ==> (#[trigger] chunks[i]).len() == 4083
        },
        before@.len() == 0 && src.len() > 15 ==> chunks_of(after.contents()) == cut(true, src),
{
    law_cut(true, src);
    let chunks = chunks_of(after.contents());
    if before@.len() + src.len() > 15 && before@.len() > 0 {
        assert(chunks == cut(true, src) + chunks_of(before.contents()));
        assert(chunks.drop_last() =~= cut(true, src));
        assert forall|i: int| 0 <= i < chunks.len() - 2 implies (#[trigger] chunks[i]).len() == 4083 by {
            assert(chunks[i] == cut(true, src)[i]);
        }
    }
    if before@.len() == 0 && src.len() > 15 {
        assert(chunks =~= cut(true, src));
    }
}

/// Bytes that are copied to the front of a tree go into new blocks of 4083
/// bytes, of which only the first may be shorter. All other chunks stay.
pub proof fn law_copy_before_tree(before: Cord, after: Cord, src: Seq<u8>)
    requires
        before.contents() is Tree,
        copied_to_front(before, after, src),
    ensures
        after.contents() is Tree,
        ({
            let old_chunks = chunks_of(before.contents());
            let chunks = chunks_of(after.contents());
            let m = chunks.len() - old_chunks.len();
            &&& m >= 0
            &&& chunks.skip(m) == old_chunks
            &&& chunks.take(m).flatten() == src
            &&& forall|i: int| 0 < i < m ==> (#[trigger] chunks[i]).len() == 4083
            &&& forall|i: int| 0 <= i < m ==> 0 < (#[trigger] chunks[i]).len() <= 4083
        }),
{
    law_cut(false, src);
    let new = cut(false, src);
    let chunks = chunks_of(after.contents());
    assert(chunks.take(new.len() as int) =~= new);
    assert(chunks.skip(new.len() as int) =~= chunks_of(before.contents()));
    assert forall|i: int| 0 <= i < new.len() implies #[trigger] chunks[i] == new[i] by {
    }
}

/// The room in a data edge is what a flat block can take beyond what it holds;
/// other data edges have none.
pub proof fn law_room(rep: Arc<CordRep>, len: int)
    requires
        rep.is_edge(),
        len >= 0,
    ensures
        last_room(rep) >= 0,
        *rep matches CordRep::Flat(flat) ==> last_room(rep) == flat.spec_capacity() - flat.data@.len(),
        *rep is External || *rep is Substring ==> last_room(rep) == 0,
        0 <= fitting(rep, len) <= len,
        fitting(rep, len) <= last_room(rep),
        fitting(rep, len) == len || fitting(rep, len) == last_room(rep),
{
    lemma_leaves_valid(rep);
    assert(leaves(rep)[leaves(rep).len() - 1].is_leaf_edge());
}

/// A leg is held by others where one of its nodes is: the root, or one of
/// those below its last edge.
pub proof fn law_leg_held(rep: Arc<CordRep>, edges: Seq<Arc<CordRep>>, edge: Arc<CordRep>)
    ensures
        held_twice(rep) ==> leg_held_twice(rep),
        !(*rep is Btree) ==> (leg_held_twice(rep) <==> held_twice(rep)),
        *rep matches CordRep::Btree(node) && !held_twice(rep) ==> (leg_held_twice(rep) <==> last_held_twice(
            rep.node().edges@,
        )),
        last_held_twice(edges.push(edge)) <==> leg_held_twice(edge),
{
    assert(edges.push(edge).last() == edge);
}

/// A new block has room for its bytes and the extra ones, up to 4083 in all,
/// and not a size class more.
pub proof fn law_sized(edge: CordRep, extra: int)
    requires
        sized(edge, extra),
        edge.wf(),
        extra >= 0,
    ensures
        edge is Flat,
        ({
            let capacity = edge->Flat_0.spec_capacity();
            let wanted = edge->Flat_0.data@.len() + extra;
            &&& 19 <= capacity <= 4083
            &&& wanted <= 4083 ==> wanted <= capacity
            &&& 19 <= wanted <= 4083 ==> capacity < wanted + 64
            &&& wanted > 4083 ==> capacity == 4083
        }),
{
}

/// All blocks that are sized are so one by one.
pub proof fn law_all_sized(edges: Seq<Arc<CordRep>>, extra: int, i: int)
    requires
        all_sized(edges, extra),
        0 <= i < edges.len(),
    ensures
        sized(*edges[i], extra),
{
}

/// Appended blocks get room for a tenth of what the cord holds already, counting what is added.
pub proof fn law_spare(len: int, added: int)
    requires
        len >= 0,
        added >= 0,
    ensures
        spare(len, added) >= 0,
        added + spare(len, added) >= len / 10,
        spare(len, added) > 0 ==> added + spare(len, added) == len / 10,
{
}

/// The edges of a cord behind or in front of as many as it had before.
pub proof fn law_new_edges(before: Cord, after: Cord)
    requires
        before.edges().len() <= after.edges().len(),
    ensures
        behind(before, after).len() == after.edges().len() - before.edges().len(),
        in_front(before, after).len() == after.edges().len() - before.edges().len(),
        forall|i: int|
            0 <= i < behind(before, after).len() ==> #[trigger] behind(before, after)[i] == after.edges()[before.edges().len()
                + i],
        forall|i: int| 0 <= i < in_front(before, after).len() ==> #[trigger] in_front(before, after)[i] == after.edges()[i],
{
}

/// A cord that is extended at its back keeps its data edges but the last, and
/// one that is extended at its front keeps them all.
pub proof fn law_extended(before: Cord, after: Cord, i: int)
    requires
        before.contents() is Tree,
        0 <= i < before.edges().len(),
    ensures
        extends_back(before, after) && i < before.edges().len() - 1 ==> after.edges()[i] == before.edges()[i],
        extends_back(before, after) ==> after.contents() is Tree && after.edges().len() >= before.edges().len(),
        extends_front(before, after) ==> {
            let shift = after.edges().len() - before.edges().len();
            &&& after.contents() is Tree
            &&& shift >= 0
            &&& after.edges()[shift + i] == before.edges()[i]
        },
{
    let n = before.edges().len() as int;
    if extends_back(before, after) && i < n - 1 {
        assert(after.edges().take(n - 1)[i] == before.edges().drop_last()[i]);
    }
    if extends_front(before, after) {
        let shift = after.edges().len() - n;
        assert(after.edges().subrange(shift, after.edges().len() as int)[i] == before.edges()[i]);
    }
}

/// Copies of parts are appended one after the other: none changes nothing, and
/// one more is appended to what the others made.
pub proof fn law_parts_in_order(before: Cord, mid: Cord, after: Cord, parts: Seq<Seq<u8>>, part: Seq<u8>)
    ensures
        copied_in_parts(before, after, Seq::empty()) <==> after == before,
        copied_in_parts(before, mid, parts) && copied_to_back(mid, after, part) ==> copied_in_parts(
            before,
            after,
            parts.push(part),
        ),
        copied_in_parts(before, after, seq![part]) <==> copied_to_back(before, after, part),
{
    assert(parts.push(part).drop_last() =~= parts);
    if copied_in_parts(before, mid, parts) && copied_to_back(mid, after, part) {
        assert(copied_to_back(mid, after, parts.push(part).last()));
    }
    let one = seq![part];
    assert(one.drop_last() =~= Seq::<Seq<u8>>::empty());
    reveal_with_fuel(copied_in_parts, 2);
    if copied_to_back(before, after, part) {
        assert(copied_to_back(before, after, one.last()));
    }
}

/// A buffer with a flat block adds that very block, without copying, behind or
/// in front of the data edges of a tree, which stay.
pub proof fn law_buffer_block_added(before: Cord, after: Cord, buffer: CordBuffer)
    requires
        buffer@.len() > 0,
        !buffer.spec_is_short(),
    ensures
        buffer_at_back(before, after, buffer) ==> {
            &&& after.edges().len() > 0
            &&& *after.edges().last() == CordRep::Flat(buffer.block())
            &&& before.contents() is Tree ==> after.edges().drop_last() == before.edges()
            &&& before@.len() == 0 ==> after.contents() is Tree && *after.contents()->Tree_0 == CordRep::Flat(
                buffer.block(),
            )
        },
        buffer_at_front(before, after, buffer) ==> {
            &&& after.edges().len() > 0
            &&& *after.edges().first() == CordRep::Flat(buffer.block())
            &&& before.contents() is Tree ==> after.edges().drop_first() == before.edges()
            &&& before@.len() == 0 ==> after.contents() is Tree && *after.contents()->Tree_0 == CordRep::Flat(
                buffer.block(),
            )
        },
{
}

/// A buffer that holds its bytes in place adds them to bytes in place up to
/// fifteen in all, and otherwise as one more chunk. An empty one adds nothing.
pub proof fn law_short_buffer_added(before: Cord, after: Cord, buffer: CordBuffer)
    requires
        buffer@.len() == 0 || buffer.spec_is_short(),
    ensures
        buffer@.len() == 0 && buffer_at_back(before, after, buffer) ==> after == before,
        buffer@.len() == 0 && buffer_at_front(before, after, buffer) ==> after == before,
        buffer@.len() > 0 && buffer_at_back(before, after, buffer) ==> {
            &&& before.contents() is Inline && before@.len() + buffer@.len() <= 15 <==> after.contents() is Inline
            &&& after.contents() is Tree ==> chunks_of(after.contents()) == chunks_of(before.contents()).push(buffer@)
        },
        buffer@.len() > 0 && buffer_at_front(before, after, buffer) ==> {
            &&& before.contents() is Inline && before@.len() + buffer@.len() <= 15 <==> after.contents() is Inline
            &&& after.contents() is Tree ==> chunks_of(after.contents()) == seq![buffer@] + chunks_of(before.contents())
        },
{
}

/// A cord of more than 511 bytes that is appended to another is shared: its
/// data edges, none of them copied, are the last ones. An empty cord takes over
/// what is appended to it, and appending an empty cord changes nothing.
pub proof fn law_cord_appended(before: Cord, after: Cord, src: Cord)
    requires
        cord_at_back(before, after, src),
    ensures
        src@.len() == 0 ==> after.contents() == before.contents(),
        src@.len() > 0 && before@.len() == 0 ==> after.contents() == src.contents(),
        src@.len() > 511 && before@.len() > 0 ==> {
            let shift = after.edges().len() - src.edges().len();
            &&& shift >= 0
            &&& forall|i: int| 0 <= i < src.edges().len() ==> #[trigger] after.edges()[shift + i] == src.edges()[i]
        },
        0 < src@.len() <= 511 && before@.len() > 0 && is_plain(src) ==> copied_to_back(before, after, src@),
        0 < src@.len() <= 511 && before@.len() > 0 && !is_plain(src) ==> copied_in_parts(
            before,
            after,
            chunks_of(src.contents()),
        ),
{
    if src@.len() > 511 && before@.len() > 0 {
        let shift = after.edges().len() - src.edges().len();
        assert forall|i: int| 0 <= i < src.edges().len() implies #[trigger] after.edges()[shift + i]
            == src.edges()[i] by {
            assert(after.edges().subrange(shift, after.edges().len() as int)[i] == after.edges()[shift + i]);
        }
    }
}

/// A tree that is prepended to a cord is shared: its data edges, none of them
/// copied, are the first ones. Bytes in place are copied.
pub proof fn law_cord_prepended(before: Cord, after: Cord, src: Cord)
    requires
        cord_at_front(before, after, src),
    ensures
        src.contents() is Inline ==> copied_to_front(before, after, src@),
        src.contents() is Tree ==> {
            &&& after.edges().len() >= src.edges().len()
            &&& forall|i: int| 0 <= i < src.edges().len() ==> #[trigger] after.edges()[i] == src.edges()[i]
            &&& chunks_of(after.contents()) == chunks_of(src.contents()) + chunks_of(before.contents())
        },
{
    if src.contents() is Tree {
        let n = src.edges().len() as int;
        assert forall|i: int| 0 <= i < n implies #[trigger] after.edges()[i] == src.edges()[i] by {
            assert(after.edges().subrange(0, n)[i] == after.edges()[i]);
        }
    }
}

/// The bytes of a cord are plain where they are in place or in one flat block,
/// and more fit in place up to fifteen in all.
pub proof fn law_plain_and_short(cord: Cord, len: int)
    ensures
        cord.contents() is Inline ==> is_plain(cord),
        cord.contents() matches InlineData::Tree(tree) ==> (is_plain(cord) <==> *tree is Flat),
        fits_in_place(cord, len) <==> cord.contents() is Inline && cord@.len() + len <= 15,
{
}

/// The buffer that is taken out of a cord holds the end of its bytes. Bytes in
/// place go into a new buffer with room for as many more as were asked for.
/// The last block of a tree is taken out as it is, if it is flat and has the
/// room asked for, unless it or a node above it may be held by others; otherwise
/// the tree stays and the buffer is a new one.
pub proof fn law_buffer_taken(
    before: Cord,
    after: Cord,
    taken: CordBuffer,
    block_size: usize,
    capacity: usize,
    min_capacity: usize,
)
    requires
        takes_buffer(before, after, taken, block_size, capacity, min_capacity),
    ensures
        after@ + taken@ == before@,
        before.contents() is Inline ==> taken@ == before@ && after@.len() == 0,
        before.contents() is Inline && capacity + before@.len() <= usize::MAX ==> taken.spec_capacity()
            == fresh_capacity(block_size, capacity + before@.len()),
        before.contents() is Tree && taken@.len() > 0 ==> {
            let last = *before.edges().last();
            &&& last matches CordRep::Flat(flat)
            &&& taken@ == last.bytes()
            &&& taken.spec_capacity() == last->Flat_0.spec_capacity()
            &&& taken.spec_capacity() - taken@.len() >= min_capacity
            &&& after.edges() == before.edges().drop_last()
        },
        before.contents() is Tree && taken@.len() == 0 ==> {
            let last = *before.edges().last();
            &&& after.edges() == before.edges()
            &&& taken.spec_capacity() == fresh_capacity(block_size, capacity as int)
            &&& last is Flat && last->Flat_0.spec_capacity() - last->Flat_0.data@.len() >= min_capacity
                ==> leg_held_twice(before.contents()->Tree_0)
        },
{
    if before.contents() is Inline {
        assert(before@.len() == after@.len() + taken@.len());
    }
}

/// A data edge is owed to whoever wants to append where it is held by no one
/// else, flat, and has the room asked for.
pub proof fn law_owed(all: Seq<Arc<CordRep>>, private: bool, extra: usize)
    ensures
        owed(all, private, extra) <==> {
            &&& private
            &&& *all.last() is Flat
            &&& (*all.last())->Flat_0.spec_capacity() - (*all.last())->Flat_0.data@.len() >= extra
        },
{
}

/// Taking the last block out of a tree leaves all other data edges, and nothing
/// where there are none; where it is not taken out, the tree keeps them all.
pub proof fn law_extracted(r: ExtractResult, all: Seq<Arc<CordRep>>, height: int)
    requires
        extracts(r, all, height),
    ensures
        r.extracted matches Some(flat) ==> {
            &&& all.len() > 0
            &&& flat == all.last()
            &&& r.tree is None <==> all.len() == 1
            &&& r.tree matches Some(rest) ==> leaves(rest) == all.drop_last() && rest.height() <= height
        },
        r.extracted is None ==> r.tree is Some && leaves(r.tree->0) == all && r.tree->0.height() == height,
{
    if let (Some(flat), Some(rest)) = (r.extracted, r.tree) {
        lemma_leaves_valid(rest);
        assert(leaves(rest).push(flat).drop_last() =~= leaves(rest));
    }
}

/// Flushing a writer appends its buffer to the cord, and nothing where there is none.
pub proof fn law_flushed(cord: Cord, buffer: CordBuffer, after: Cord)
    ensures
        flushed(cord, None, after) <==> after == cord,
        flushed(cord, Some(buffer), after) ==> {
            &&& after@ == cord@ + buffer@
            &&& extends_back(cord, after)
            &&& buffer_at_back(cord, after, buffer)
        },
{
}

/// A writer writes on in its buffer as long as that is not full, and takes the
/// next one out of the flushed cord, with room for at least sixteen bytes or 4083.
pub proof fn law_next_buffer(cord: Cord, buffer: Option<CordBuffer>, held: CordBuffer, rest: Cord)
    requires
        next_buffer(cord, buffer, held, rest),
    ensures
        has_room(buffer) <==> buffer is Some && buffer->0@.len() < buffer->0.spec_capacity(),
        has_room(buffer) ==> buffer == Some(held) && rest == cord,
        !has_room(buffer) ==> exists|whole: Cord| #[trigger]
            flushed(cord, buffer, whole) && takes_buffer(whole, rest, held, 0, 4083, 16) && rest@ + held@ == whole@,
{
    if !has_room(buffer) {
        let whole = choose|whole: Cord| #[trigger]
            flushed(cord, buffer, whole) && takes_buffer(
                whole,
                rest,
                held,
                0,
                CordBuffer::DEFAULT_MAX_CAPACITY,
                16,
            );
        assert(flushed(cord, buffer, whole));
        law_buffer_taken(whole, rest, held, 0, 4083, 16);
    }
}

/// What is written goes into the buffer where it fits, and otherwise to the
/// cord behind what was buffered, which leaves no buffer.
pub proof fn law_written(held: CordBuffer, rest: Cord, src: Seq<u8>, buffer: Option<CordBuffer>, cord: Cord)
    requires
        written(held, rest, src, buffer, cord),
    ensures
        held@.len() + src.len() <= held.spec_capacity() <==> buffer is Some,
        buffer matches Some(filled) ==> {
            &&& filled@ == held@ + src
            &&& filled.spec_capacity() == held.spec_capacity()
            &&& cord == rest
        },
        buffer is None ==> exists|whole: Cord| #[trigger]
            flushed(rest, Some(held), whole) && whole@ == rest@ + held@ && copied_to_back(whole, cord, src),
{
    if buffer is None {
        let whole = choose|whole: Cord| #[trigger]
            flushed(rest, Some(held), whole) && copied_to_back(whole, cord, src);
        assert(flushed(rest, Some(held), whole));
    }
}

/// One flat block of the size class for some bytes has room for them, and not a size class more.
pub proof fn law_flat_of(data: InlineData, len: int)
    requires
        is_flat_of(data, len),
        0 <= len <= 4083,
    ensures
        data is Tree,
        *data->Tree_0 is Flat,
        ({
            let capacity = (*data->Tree_0)->Flat_0.spec_capacity();
            &&& len <= capacity <= 4083
            &&& len >= 19 ==> capacity < len + 64
            &&& len <= 19 ==> capacity == 19
        }),
{
}

/// A cord that was moved into one block holds one flat block up to 4083 bytes,
/// and one vector beyond that.
pub proof fn law_one_block(before: Cord, after: Cord)
    requires
        is_one_block(before, after),
    ensures
        after.contents() is Tree,
        before@.len() <= 4083 <==> *after.contents()->Tree_0 is Flat,
        before@.len() > 4083 <==> *after.contents()->Tree_0 is External,
        before@.len() > 4083 ==> (*after.contents()->Tree_0)->External_0.owner is Vector,
        is_contiguous(*after.contents()->Tree_0),
{
}

} // verus!
