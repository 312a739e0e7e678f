//! What cutting bytes into pieces gives.

use crate::convert::portions;
use crate::hash::{block_views, hash_blocks};
use crate::iter::chunks_of;
use crate::inline_data::InlineData;
use crate::rep::pieces::{blocks, clamp, cut, dropped, pieces};
use crate::rep::{edges_bytes, leaves, lemma_edges_bytes_add, lemma_edges_bytes_one, CordRep};
use std::sync::Arc;
use vstd::prelude::*;
use vstd::seq_lib::lemma_flatten_concat;

verus! {

/// A first piece in front of others.
proof fn lemma_flatten_first(piece: Seq<u8>, rest: Seq<Seq<u8>>)
    ensures
        (seq![piece] + rest).flatten() == piece + rest.flatten(),
{
    seq![piece].lemma_flatten_one_element();
    lemma_flatten_concat(seq![piece], rest);
}

/// The blocks of copied data, joined, are the data. None is empty or longer
/// than 4083 bytes, and all but the last (where they were cut off the back, all
/// but the first) are 4083 bytes long.
pub proof fn law_cut(back: bool, data: Seq<u8>)
    ensures
        cut(back, data).flatten() == data,
        forall|i: int| 0 <= i < cut(back, data).len() ==> 0 < (#[trigger] cut(back, data)[i]).len() <= 4083,
        back ==> forall|i: int| 0 <= i < cut(back, data).len() - 1 ==> (#[trigger] cut(back, data)[i]).len() == 4083,
        !back ==> forall|i: int| 0 < i < cut(back, data).len() ==> (#[trigger] cut(back, data)[i]).len() == 4083,
    decreases data.len(),
{
    let all = cut(back, data);
    if data.len() == 0 {
        assert(all.flatten() =~= data);
    } else if data.len() <= 4083 {
        all.lemma_flatten_one_element();
    } else if back {
        let first = data.take(4083);
        let rest = data.skip(4083);
        law_cut(back, rest);
        lemma_flatten_first(first, cut(back, rest));
        assert(first + rest =~= data);
        assert forall|i: int| 0 < i < all.len() implies #[trigger] all[i] == cut(back, rest)[i - 1] by {
        }
    } else {
        let rest = data.take(data.len() - 4083);
        let last = data.skip(data.len() - 4083);
        law_cut(back, rest);
        seq![last].lemma_flatten_one_element();
        lemma_flatten_concat(cut(back, rest), seq![last]);
        assert(rest + last =~= data);
        assert(all.last() == last);
        assert forall|i: int| 0 <= i < all.len() - 1 implies #[trigger] all[i] == cut(back, rest)[i] by {
        }
    }
}

/// The portions in which single bytes are added, joined, are the bytes. None is
/// empty, none longer than 256 bytes, and all but the last are that long.
pub proof fn law_portions(data: Seq<u8>)
    ensures
        portions(data).flatten() == data,
        forall|i: int| 0 <= i < portions(data).len() ==> 0 < (#[trigger] portions(data)[i]).len() <= 256,
        forall|i: int| 0 <= i < portions(data).len() - 1 ==> (#[trigger] portions(data)[i]).len() == 256,
    decreases data.len(),
{
    if data.len() == 0 {
        assert(portions(data).flatten() =~= data);
    } else {
        let at = (data.len() - 1) / 256 * 256;
        let head = data.take(at);
        law_portions(head);
        portions(head).lemma_flatten_push(data.skip(at));
        assert(head + data.skip(at) =~= data);
        lemma_portions_whole(head);
    }
}

/// The portions of a multiple of 256 bytes are all whole.
proof fn lemma_portions_whole(data: Seq<u8>)
    requires
        data.len() as int % 256 == 0,
    ensures
        forall|i: int| 0 <= i < portions(data).len() ==> (#[trigger] portions(data)[i]).len() == 256,
    decreases data.len(),
{
    if data.len() > 0 {
        let at = (data.len() - 1) / 256 * 256;
        lemma_portions_whole(data.take(at));
        assert(at == data.len() - 256);
        assert(data.skip(at).len() == 256);
        assert forall|i: int| 0 <= i < portions(data).len() implies (#[trigger] portions(data)[i]).len() == 256 by {
            if i < portions(data.take(at)).len() {
                assert(portions(data)[i] == portions(data.take(at))[i]);
            }
        }
    }
}

/// The blocks that are fed to a hasher, joined, are the bytes. None is empty,
/// none longer than 1024 bytes, and all but the last are that long.
pub proof fn law_hash_blocks(bytes: Seq<u8>)
    ensures
        hash_blocks(bytes).flatten() == bytes,
        forall|i: int| 0 <= i < hash_blocks(bytes).len() ==> 0 < (#[trigger] hash_blocks(bytes)[i]).len() <= 1024,
        forall|i: int| 0 <= i < hash_blocks(bytes).len() - 1 ==> (#[trigger] hash_blocks(bytes)[i]).len() == 1024,
    decreases bytes.len(),
{
    let all = hash_blocks(bytes);
    if bytes.len() == 0 {
        assert(all.flatten() =~= bytes);
    } else if bytes.len() <= 1024 {
        all.lemma_flatten_one_element();
    } else {
        let rest = bytes.skip(1024);
        law_hash_blocks(rest);
        lemma_flatten_first(bytes.take(1024), hash_blocks(rest));
        assert(bytes.take(1024) + rest =~= bytes);
        assert forall|i: int| 0 < i < all.len() implies #[trigger] all[i] == hash_blocks(rest)[i - 1] by {
        }
    }
}

/// The contents of blocks are those of each block.
pub proof fn law_block_views(blocks: Seq<Vec<u8>>)
    ensures
        block_views(blocks).len() == blocks.len(),
        forall|i: int| 0 <= i < blocks.len() ==> #[trigger] block_views(blocks)[i] == blocks[i]@,
{
}

/// Dropping the first bytes of chunks leaves the bytes behind them, in the same
/// chunks: only the first of those that are left may be shorter than it was.
pub proof fn law_dropped(chunks: Seq<Seq<u8>>, n: int)
    requires
        0 <= n <= chunks.flatten().len(),
    ensures
        dropped(chunks, n).flatten() == chunks.flatten().skip(n),
        dropped(chunks, n).len() <= chunks.len(),
        forall|i: int|
            0 < i < dropped(chunks, n).len() ==> #[trigger] dropped(chunks, n)[i] == chunks[chunks.len() - dropped(
                chunks,
                n,
            ).len() + i],
        (forall|i: int| 0 <= i < chunks.len() ==> (#[trigger] chunks[i]).len() > 0) ==> forall|i: int|
            0 <= i < dropped(chunks, n).len() ==> (#[trigger] dropped(chunks, n)[i]).len() > 0,
    decreases chunks.len(),
{
    if n <= 0 || chunks.len() == 0 {
        assert(chunks.flatten().skip(n) =~= chunks.flatten());
    } else {
        let first = chunks[0];
        let rest = chunks.skip(1);
        assert(chunks =~= seq![first] + rest);
        lemma_flatten_first(first, rest);
        if n < first.len() {
            lemma_flatten_first(first.skip(n), rest);
            assert((first + rest.flatten()).skip(n) =~= first.skip(n) + rest.flatten());
            assert forall|i: int| 0 < i < chunks.len() implies #[trigger] dropped(chunks, n)[i] == chunks[i] by {
            }
        } else {
            law_dropped(rest, n - first.len());
            assert((first + rest.flatten()).skip(n) =~= rest.flatten().skip(n - first.len()));
        }
    }
}

/// The pieces of a range of edges, joined, are the bytes in the range, and none is empty.
pub proof fn law_pieces(edges: Seq<Arc<CordRep>>, from: int, to: int)
    requires
        from <= to,
    ensures
        ({
            let len = edges_bytes(edges).len() as int;
            pieces(edges, from, to).flatten() == edges_bytes(edges).subrange(clamp(from, len), clamp(to, len))
        }),
        forall|i: int| 0 <= i < pieces(edges, from, to).len() ==> (#[trigger] pieces(edges, from, to)[i]).len() > 0,
        pieces(edges, from, to).len() <= edges.len(),
    decreases edges.len(),
{
    let all = edges_bytes(edges);
    let total = all.len() as int;
    if edges.len() == 0 {
        assert(pieces(edges, from, to).flatten() =~= all.subrange(clamp(from, total), clamp(to, total)));
    } else {
        let block = edges[0].bytes();
        let len = block.len() as int;
        let rest = edges.skip(1);
        let tail = edges_bytes(rest);
        assert(edges =~= seq![edges[0]] + rest);
        lemma_edges_bytes_add(seq![edges[0]], rest);
        lemma_edges_bytes_one(edges[0]);
        assert(all =~= block + tail);
        law_pieces(rest, from - len, to - len);
        let other = pieces(rest, from - len, to - len);
        let left = total - len;
        assert(all.subrange(clamp(from, total), clamp(to, total)) =~= block.subrange(clamp(from, len), clamp(to, len))
            + tail.subrange(clamp(from - len, left), clamp(to - len, left)));
        if clamp(from, len) < clamp(to, len) {
            lemma_flatten_first(block.subrange(clamp(from, len), clamp(to, len)), other);
            assert forall|i: int| 0 < i < pieces(edges, from, to).len() implies #[trigger] pieces(edges, from, to)[i]
                == other[i - 1] by {
            }
        } else {
            assert(block.subrange(clamp(from, len), clamp(to, len)) + other.flatten() =~= other.flatten());
        }
    }
}

/// The position closest to an index is the index itself inside a block, and an
/// end of the block outside.
pub proof fn law_clamp(i: int, len: int)
    requires
        len >= 0,
    ensures
        0 <= clamp(i, len) <= len,
        0 <= i <= len ==> clamp(i, len) == i,
        i < 0 ==> clamp(i, len) == 0,
        i > len ==> clamp(i, len) == len,
{
}

/// The chunks of a tree are the bytes of its data edges, one each; those of
/// bytes in place are these bytes, unless there are none.
pub proof fn law_chunks(data: InlineData)
    ensures
        data is Inline && data.view().len() == 0 ==> chunks_of(data).len() == 0,
        data is Inline && data.view().len() > 0 ==> chunks_of(data).len() == 1 && chunks_of(data)[0] == data.view(),
        data matches InlineData::Tree(tree) ==> {
            &&& chunks_of(data).len() == leaves(tree).len()
            &&& forall|i: int| 0 <= i < leaves(tree).len() ==> #[trigger] chunks_of(data)[i] == leaves(tree)[i].bytes()
        },
{
}

/// The bytes of each of some edges.
pub proof fn law_blocks(edges: Seq<Arc<CordRep>>)
    ensures
        blocks(edges).len() == edges.len(),
        forall|i: int| 0 <= i < edges.len() ==> #[trigger] blocks(edges)[i] == edges[i].bytes(),
{
}

} // verus!
