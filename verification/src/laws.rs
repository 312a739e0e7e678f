//! What holds of the operations together.

pub mod layout;
pub mod memory;
pub mod order;
pub mod pieces;
pub mod ranges;
pub mod search;
pub mod sizes;
pub mod sources;
pub mod text;
pub mod trees;

use self::pieces::law_dropped;
use crate::buffer::CordBuffer;
use crate::cord::Cord;
use crate::edit::takes_buffer;
use crate::hash::{hash_blocks, HASH_BLOCK};
use crate::inline_data::InlineData;
use crate::iter::{chunks_of, Cursor};
use crate::order::{law_lex_equal, law_lex_reverse, lex};
use crate::ranges::{behind, first, part, within, Bounds};
use crate::rep::analysis::{edge_list, list_total, node_list, node_size};
use crate::rep::btree::{MAX_DEPTH, MAX_HEIGHT};
use crate::rep::pieces::{blocks, dropped};
use crate::rep::rebuild::{full_count, lemma_full_count_order};
use crate::rep::shared::{lemma_shares_through, shares};
use crate::rep::stack::grown;
use crate::rep::{edges_bytes, leaves, lemma_leaves_bytes, lemma_leaves_valid, lemma_len_fits, CordRep};
use crate::search::{absent, occurs_at};
use crate::seqs::join;
use core::cmp::Ordering;
use core::ops::Bound;
use std::sync::Arc;
use vstd::prelude::*;
use vstd::utf8::{encode_utf8, encode_utf8_decode_utf8, encode_utf8_valid_utf8, valid_utf8};

verus! {

/// Splitting a cord and joining the parts again gives back its bytes.
pub proof fn law_split_join(bytes: Seq<u8>, at: int)
    requires
        0 <= at <= bytes.len(),
    ensures
        bytes.take(at) + bytes.skip(at) == bytes,
{
    assert(bytes.take(at) + bytes.skip(at) =~= bytes);
}

/// Joining two cords and splitting the result between them gives back both.
pub proof fn law_join_split(a: Seq<u8>, b: Seq<u8>)
    ensures
        (a + b).take(a.len() as int) == a,
        (a + b).skip(a.len() as int) == b,
{
    assert((a + b).take(a.len() as int) =~= a);
    assert((a + b).skip(a.len() as int) =~= b);
}

/// The bytes of a list of edges, block by block.
proof fn lemma_blocks_flatten(edges: Seq<Arc<CordRep>>)
    ensures
        blocks(edges).flatten() == edges_bytes(edges),
    decreases edges.len(),
{
    if edges.len() > 0 {
        let init = edges.drop_last();
        lemma_blocks_flatten(init);
        blocks(init).lemma_flatten_push(edges.last().bytes());
        assert(blocks(edges) =~= blocks(init).push(edges.last().bytes()));
    } else {
        assert(blocks(edges) =~= Seq::<Seq<u8>>::empty());
    }
}

/// The chunks of a cord, joined in order, are its bytes, and no chunk is empty.
pub proof fn law_chunks_join(data: InlineData)
    requires
        data.wf(),
    ensures
        chunks_of(data).flatten() == data.view(),
        forall|i: int| #![trigger chunks_of(data)[i]] 0 <= i < chunks_of(data).len() ==> chunks_of(data)[i].len() > 0,
{
    match data {
        InlineData::Inline(_) => {
            if data.view().len() > 0 {
                seq![data.view()].lemma_flatten_one_element();
            } else {
                assert(chunks_of(data).flatten() =~= data.view());
            }
        },
        InlineData::Tree(tree) => {
            lemma_leaves_valid(tree);
            lemma_leaves_bytes(tree);
            lemma_blocks_flatten(leaves(tree));
            assert forall|i: int| #![trigger chunks_of(data)[i]] 0 <= i < chunks_of(data).len() implies chunks_of(data)[i].len() > 0 by {
                assert(chunks_of(data)[i] == leaves(tree)[i].bytes());
            }
        },
    }
}

/// A slice of a slice is a slice, whatever kinds of ranges are used.
pub proof fn law_slice_of_slice(bytes: Seq<u8>, outer: Bounds, inner: Bounds)
    requires
        within(outer, bytes.len() as int),
        within(inner, part(outer, bytes).len() as int),
    ensures
        part(inner, part(outer, bytes)) == bytes.subrange(
            first(outer) + first(inner),
            first(outer) + behind(inner, part(outer, bytes).len() as int),
        ),
{
    assert(part(inner, part(outer, bytes)) =~= bytes.subrange(
        first(outer) + first(inner),
        first(outer) + behind(inner, part(outer, bytes).len() as int),
    ));
}

/// A slice of a slice shares the blocks of the cord that was sliced first.
pub proof fn law_slices_share(cord: Cord, slice: Cord, inner: Cord)
    requires
        shares(slice.edges(), cord.edges()),
        shares(inner.edges(), slice.edges()),
    ensures
        shares(inner.edges(), cord.edges()),
{
    lemma_shares_through(inner.edges(), slice.edges(), cord.edges());
}

/// The range without bounds is the whole cord, and a range of equal bounds is empty.
pub proof fn law_extreme_slices(bytes: Seq<u8>, at: usize)
    requires
        at <= bytes.len(),
    ensures
        part((Bound::Unbounded, Bound::Unbounded), bytes) == bytes,
        part((Bound::Included(at), Bound::Excluded(at)), bytes) == Seq::<u8>::empty(),
{
    assert(part((Bound::Unbounded, Bound::Unbounded), bytes) =~= bytes);
    assert(part((Bound::Included(at), Bound::Excluded(at)), bytes) =~= Seq::<u8>::empty());
}

/// A text that is made into a cord can be made into a text again, and only that
/// text has the bytes of the cord.
pub proof fn law_text_roundtrip(text: Seq<char>, back: Seq<char>)
    ensures
        valid_utf8(encode_utf8(text)),
        encode_utf8(back) == encode_utf8(text) ==> back == text,
{
    encode_utf8_valid_utf8(text);
    encode_utf8_decode_utf8(text);
    encode_utf8_decode_utf8(back);
}

/// Cutting at both ends, in either order, is taking a slice.
pub proof fn law_cut_both_ends(bytes: Seq<u8>, start: int, end: int)
    requires
        0 <= start <= end <= bytes.len(),
    ensures
        bytes.take(end).skip(start) == bytes.subrange(start, end),
        bytes.skip(start).take(end - start) == bytes.subrange(start, end),
{
    assert(bytes.take(end).skip(start) =~= bytes.subrange(start, end));
    assert(bytes.skip(start).take(end - start) =~= bytes.subrange(start, end));
}

/// Prepending is appending the other way round.
pub proof fn law_prepend_is_append(a: Seq<u8>, b: Seq<u8>)
    ensures
        join(false, a, b) == join(true, b, a),
{
}

/// Appending the buffer that was taken out of a cord puts its bytes back.
pub proof fn law_take_append_buffer(
    before: Cord,
    after: Cord,
    taken: CordBuffer,
    block_size: usize,
    capacity: usize,
    min_capacity: usize,
)
    requires
        takes_buffer(before, after, taken, block_size, capacity, min_capacity),
    ensures
        after@ + taken@ == before@,
{
}

/// The bytes before the position of a cursor and those behind it are all bytes of its cord.
pub proof fn law_cursor_position(cursor: Cursor<'_>)
    requires
        cursor.wf(),
    ensures
        cursor.at() + cursor.rest().len() == cursor.bytes().len(),
        cursor.bytes().take(cursor.at()) + cursor.rest() == cursor.bytes(),
{
    cursor.lemma_at();
    assert(cursor.bytes().take(cursor.at()) + cursor.rest() =~= cursor.bytes());
}

/// The chunks behind the position of a cursor, joined, are the bytes behind it,
/// and none is empty.
pub proof fn law_cursor_chunks(cursor: Cursor<'_>)
    requires
        cursor.wf(),
        cursor.source().contents().wf(),
    ensures
        cursor.chunk_list().flatten() == cursor.rest(),
        forall|i: int| #![trigger cursor.chunk_list()[i]]
            0 <= i < cursor.chunk_list().len() ==> cursor.chunk_list()[i].len() > 0,
{
    cursor.lemma_at();
    let chunks = chunks_of(cursor.source().contents());
    law_chunks_join(cursor.source().contents());
    law_dropped(chunks, cursor.at());
    assert forall|i: int| #![trigger cursor.chunk_list()[i]] 0 <= i < cursor.chunk_list().len() implies cursor.chunk_list()[i].len()
        > 0 by {
        assert(dropped(chunks, cursor.at())[i].len() > 0);
    }
}

/// A cord starts with what occurs at its start.
pub proof fn law_prefix_occurs(bytes: Seq<u8>, needle: Seq<u8>)
    ensures
        needle.is_prefix_of(bytes) <==> occurs_at(bytes, needle, 0),
{
}

/// A cord ends with what occurs at its end.
pub proof fn law_suffix_occurs(bytes: Seq<u8>, needle: Seq<u8>)
    ensures
        needle.is_suffix_of(bytes) <==> occurs_at(bytes, needle, bytes.len() - needle.len()),
{
}

/// There is only one first occurrence.
pub proof fn law_first_occurrence(bytes: Seq<u8>, needle: Seq<u8>, i: int, j: int)
    requires
        occurs_at(bytes, needle, i),
        absent(bytes, needle, 0, i),
        occurs_at(bytes, needle, j),
        absent(bytes, needle, 0, j),
    ensures
        i == j,
{
}

/// What occurs in a slice of a cord occurs in the cord.
pub proof fn law_slice_occurrence(bytes: Seq<u8>, needle: Seq<u8>, start: int, end: int, i: int)
    requires
        0 <= start <= end <= bytes.len(),
        occurs_at(bytes.subrange(start, end), needle, i),
    ensures
        occurs_at(bytes, needle, start + i),
{
    assert(bytes.subrange(start, end).subrange(i, i + needle.len()) =~= bytes.subrange(
        start + i,
        start + i + needle.len(),
    ));
}

/// Cords are equal if and only if they compare as equal, and comparing them the
/// other way round reverses the order.
pub proof fn law_compare_equals(a: Cord, b: Cord)
    ensures
        lex(a@, b@) == Ordering::Equal <==> a@ == b@,
        lex(a@, b@) == Ordering::Less <==> lex(b@, a@) == Ordering::Greater,
{
    law_lex_equal(a@, b@);
    law_lex_reverse(a@, b@);
}

/// Equal cords feed the same to a hasher, however they hold their bytes.
pub proof fn law_equal_cords_hash_equal(a: Cord, b: Cord)
    requires
        a@ == b@,
    ensures
        a@.len() == b@.len(),
        hash_blocks(a@) == hash_blocks(b@),
{
}

/// The blocks that are fed to a hasher are the bytes, and cords that feed the
/// same are equal.
pub proof fn law_hash_blocks_injective(a: Seq<u8>, b: Seq<u8>)
    requires
        hash_blocks(a) == hash_blocks(b),
    ensures
        a == b,
    decreases a.len(),
{
    let x = hash_blocks(a);
    let y = hash_blocks(b);
    if a.len() == 0 {
        assert(x.len() == 0);
        assert(b.len() == 0);
        assert(a =~= b);
    } else if b.len() == 0 {
        assert(y.len() == 0);
    } else {
        assert(x[0] == y[0]);
        if a.len() <= HASH_BLOCK {
            assert(x.len() == 1);
            if b.len() > HASH_BLOCK {
                assert(b.skip(HASH_BLOCK as int).len() > 0);
                assert(hash_blocks(b.skip(HASH_BLOCK as int)).len() > 0);
            }
        } else {
            assert(hash_blocks(a.skip(HASH_BLOCK as int)).len() > 0);
            assert(b.len() > HASH_BLOCK);
            assert(x.skip(1) =~= hash_blocks(a.skip(HASH_BLOCK as int)));
            assert(y.skip(1) =~= hash_blocks(b.skip(HASH_BLOCK as int)));
            law_hash_blocks_injective(a.skip(HASH_BLOCK as int), b.skip(HASH_BLOCK as int));
            assert(a =~= a.take(HASH_BLOCK as int) + a.skip(HASH_BLOCK as int));
            assert(b =~= b.take(HASH_BLOCK as int) + b.skip(HASH_BLOCK as int));
        }
    }
}

/// A tree that grew within `MAX_HEIGHT` leaves it only if it holds more data
/// edges than the largest tree of that height.
pub proof fn law_height_limit(tree: Arc<CordRep>, before: int)
    requires
        grown(tree, before),
        before <= MAX_HEIGHT,
        leaves(tree).len() <= full_count(MAX_DEPTH as nat),
    ensures
        tree.height() <= MAX_HEIGHT,
{
    if tree.height() > MAX_HEIGHT {
        lemma_full_count_order(MAX_DEPTH as nat, tree.height() as nat);
    }
}

/// The sums of joined lists.
proof fn lemma_list_total_add(a: Seq<(int, int)>, b: Seq<(int, int)>)
    ensures
        list_total(a + b) == list_total(a) + list_total(b),
    decreases b.len(),
{
    if b.len() == 0 {
        assert(a + b =~= a);
    } else {
        lemma_list_total_add(a, b.drop_last());
        assert((a + b).drop_last() =~= a + b.drop_last());
    }
}

/// The nodes at and below the node `rep`.
spec fn list_of(rep: Arc<CordRep>, depth: int) -> Seq<(int, int)> {
    node_list(*rep, depth)
}

/// The node `rep` alone.
spec fn own_entry(rep: Arc<CordRep>, depth: int) -> Seq<(int, int)> {
    seq![(depth, node_size(*rep))]
}

/// A tree accounts for at least as many bytes as it stands for.
pub proof fn law_memory_covers_bytes(rep: Arc<CordRep>, depth: int)
    requires
        rep.wf(),
    ensures
        list_total(node_list(*rep, depth)) >= rep.bytes().len(),
    decreases rep,
{
    let own = own_entry(rep, depth);
    assert(own.drop_last() =~= Seq::<(int, int)>::empty());
    reveal_with_fuel(list_total, 2);
    lemma_len_fits(rep);
    match *rep {
        CordRep::Substring(sub) => {
            law_memory_covers_bytes(sub.child, depth + 1);
            lemma_list_total_add(own, list_of(sub.child, depth + 1));
        },
        CordRep::Btree(node) => {
            lemma_edges_cover_bytes(node.edges@, depth + 1);
            lemma_list_total_add(own, edge_list(node.edges@, depth + 1));
        },
        _ => {
            assert(node_list(*rep, depth) =~= own);
        },
    }
}

/// Edges account for at least as many bytes as they stand for.
proof fn lemma_edges_cover_bytes(edges: Seq<Arc<CordRep>>, depth: int)
    requires
        forall|i: int| #![trigger edges[i]] 0 <= i < edges.len() ==> edges[i].wf(),
    ensures
        list_total(edge_list(edges, depth)) >= edges_bytes(edges).len(),
    decreases edges,
{
    if edges.len() > 0 {
        let init = edges.drop_last();
        assert forall|i: int| #![trigger init[i]] 0 <= i < init.len() implies init[i].wf() by {
            assert(init[i] == edges[i]);
        }
        lemma_edges_cover_bytes(init, depth);
        assert(edges[edges.len() - 1].wf());
        law_memory_covers_bytes(edges.last(), depth);
        lemma_list_total_add(edge_list(init, depth), list_of(edges.last(), depth));
    }
}

} // verus!
