//! The pieces into which the boundaries of data edges cut a range of bytes.

use super::flat::MAX_FLAT_LENGTH;
use super::subtree::{lemma_start_ends, lemma_start_order, lemma_start_step, start_of};
use super::{edges_bytes, CordRep};
use crate::seqs::join;
use std::sync::Arc;
use vstd::prelude::*;

verus! {

/// The position in a block of `len` bytes that is closest to `i`.
pub open spec fn clamp(i: int, len: int) -> int {
    if i < 0 {
        0
    } else if i > len {
        len
    } else {
        i
    }
}

/// The bytes of each of `edges`.
pub open spec fn blocks(edges: Seq<Arc<CordRep>>) -> Seq<Seq<u8>> {
    edges.map_values(|edge: Arc<CordRep>| edge.bytes())
}

/// The bytes of `edges` from `from` to `to`, cut where edges meet. No piece is empty.
pub open spec fn pieces(edges: Seq<Arc<CordRep>>, from: int, to: int) -> Seq<Seq<u8>>
    decreases edges.len(),
{
    if edges.len() == 0 {
        Seq::empty()
    } else {
        let block = edges[0].bytes();
        let len = block.len() as int;
        let rest = pieces(edges.skip(1), from - len, to - len);
        if clamp(from, len) < clamp(to, len) {
            seq![block.subrange(clamp(from, len), clamp(to, len))] + rest
        } else {
            rest
        }
    }
}

/// What is left of `chunks` behind their first `n` bytes.
pub open spec fn dropped(chunks: Seq<Seq<u8>>, n: int) -> Seq<Seq<u8>>
    decreases chunks.len(),
{
    if n <= 0 || chunks.len() == 0 {
        chunks
    } else if n < chunks[0].len() {
        seq![chunks[0].skip(n)] + chunks.skip(1)
    } else {
        dropped(chunks.skip(1), n - chunks[0].len())
    }
}

/// `data` in pieces of `MAX_FLAT_LENGTH` bytes, starting from its front, or
/// from its back where `back` is false. Only the last piece to be cut off is shorter.
pub open spec fn cut(back: bool, data: Seq<u8>) -> Seq<Seq<u8>>
    decreases data.len(),
{
    let len = data.len() as int;
    if len == 0 {
        Seq::empty()
    } else if len <= MAX_FLAT_LENGTH {
        seq![data]
    } else if back {
        seq![data.take(MAX_FLAT_LENGTH as int)] + cut(back, data.skip(MAX_FLAT_LENGTH as int))
    } else {
        cut(back, data.take(len - MAX_FLAT_LENGTH)) + seq![data.skip(len - MAX_FLAT_LENGTH)]
    }
}

/// The first piece to be cut off, and the pieces of the rest.
pub proof fn lemma_cut_first(back: bool, part: Seq<u8>, rest: Seq<u8>)
    requires
        0 < part.len() <= MAX_FLAT_LENGTH,
        rest.len() > 0 ==> part.len() == MAX_FLAT_LENGTH,
    ensures
        cut(back, join(back, part, rest)) == join(back, seq![part], cut(back, rest)),
{
    let all = join(back, part, rest);
    if rest.len() == 0 {
        assert(all =~= part);
        assert(join(back, seq![part], cut(back, rest)) =~= seq![part]);
    } else if back {
        assert(all.take(MAX_FLAT_LENGTH as int) =~= part);
        assert(all.skip(MAX_FLAT_LENGTH as int) =~= rest);
    } else {
        assert(all.take(all.len() - MAX_FLAT_LENGTH) =~= rest);
        assert(all.skip(all.len() - MAX_FLAT_LENGTH) =~= part);
    }
}

/// What follows whole pieces is cut by itself.
pub proof fn lemma_cut_whole(a: Seq<u8>, b: Seq<u8>)
    requires
        a.len() as int % MAX_FLAT_LENGTH as int == 0,
    ensures
        cut(true, a + b) == cut(true, a) + cut(true, b),
    decreases a.len(),
{
    if a.len() == 0 {
        assert(a + b =~= b);
        assert(cut(true, a) + cut(true, b) =~= cut(true, b));
    } else {
        let first = a.take(MAX_FLAT_LENGTH as int);
        let rest = a.skip(MAX_FLAT_LENGTH as int);
        lemma_cut_whole(rest, b);
        lemma_cut_first(true, first, rest);
        lemma_cut_first(true, first, rest + b);
        assert(a =~= first + rest);
        assert(a + b =~= first + (rest + b));
        assert(cut(true, a + b) =~= cut(true, a) + cut(true, b));
    }
}

/// The bytes of joined lists of edges.
pub proof fn lemma_blocks_join(back: bool, a: Seq<Arc<CordRep>>, b: Seq<Arc<CordRep>>)
    ensures
        blocks(join(back, a, b)) == join(back, blocks(a), blocks(b)),
{
    assert(blocks(join(back, a, b)) =~= join(back, blocks(a), blocks(b)));
}

/// An empty range has no pieces.
pub proof fn lemma_no_pieces(edges: Seq<Arc<CordRep>>, from: int, to: int)
    requires
        to <= from || to <= 0,
    ensures
        pieces(edges, from, to) == Seq::<Seq<u8>>::empty(),
    decreases edges.len(),
{
    if edges.len() > 0 {
        let len = edges[0].bytes().len() as int;
        lemma_no_pieces(edges.skip(1), from - len, to - len);
    }
}

/// A range that starts before the edges starts with them.
pub proof fn lemma_pieces_front(edges: Seq<Arc<CordRep>>, a: int, b: int, to: int)
    requires
        a <= 0,
        b <= 0,
    ensures
        pieces(edges, a, to) == pieces(edges, b, to),
    decreases edges.len(),
{
    if edges.len() > 0 {
        let len = edges[0].bytes().len() as int;
        lemma_pieces_front(edges.skip(1), a - len, b - len, to - len);
    }
}

/// The edges behind the first one start where they did, less its bytes.
proof fn lemma_start_skip(edges: Seq<Arc<CordRep>>, i: int)
    requires
        0 < i <= edges.len(),
    ensures
        start_of(edges.skip(1), i - 1) == start_of(edges, i) - edges[0].bytes().len(),
        edges_bytes(edges) == edges[0].bytes() + edges_bytes(edges.skip(1)),
{
    let rest = edges.skip(1);
    assert(edges =~= seq![edges[0]] + rest);
    assert(edges.take(i) =~= seq![edges[0]] + rest.take(i - 1));
    reveal_with_fuel(edges_bytes, 2);
    crate::rep::lemma_edges_bytes_add(seq![edges[0]], rest);
    crate::rep::lemma_edges_bytes_add(seq![edges[0]], rest.take(i - 1));
    assert(edges_bytes(seq![edges[0]]) =~= edges[0].bytes());
}

/// The first piece of a range goes to the end of the edge in which the range
/// starts, or to the end of the range if that comes first.
pub proof fn lemma_first_piece(edges: Seq<Arc<CordRep>>, i: int, from: int, to: int, cut: int)
    requires
        0 <= i < edges.len(),
        start_of(edges, i) <= from < start_of(edges, i + 1),
        from < to,
        cut == if to < start_of(edges, i + 1) {
            to
        } else {
            start_of(edges, i + 1)
        },
    ensures
        cut <= edges_bytes(edges).len(),
        pieces(edges, from, to) == seq![edges_bytes(edges).subrange(from, cut)] + pieces(edges, cut, to),
    decreases edges.len(),
{
    let rest = edges.skip(1);
    let len = edges[0].bytes().len() as int;
    lemma_start_ends(edges);
    lemma_start_order(edges, i + 1, edges.len() as int);
    lemma_start_skip(edges, i + 1);
    if i == 0 {
        lemma_start_step(edges, 0);
        lemma_pieces_front(rest, from - len, cut - len, to - len);
        assert(edges_bytes(edges).subrange(from, cut) =~= edges[0].bytes().subrange(from, cut));
    } else {
        lemma_start_skip(edges, i);
        lemma_start_order(edges, 1, i);
        lemma_start_step(edges, 0);
        lemma_first_piece(rest, i - 1, from - len, to - len, cut - len);
        assert(edges_bytes(edges).subrange(from, cut) =~= edges_bytes(rest).subrange(from - len, cut - len));
    }
}

/// The last piece of a range goes back to the start of the edge in which the
/// range ends, or to the start of the range if that comes later.
pub proof fn lemma_last_piece(edges: Seq<Arc<CordRep>>, i: int, from: int, to: int, cut: int)
    requires
        0 <= i < edges.len(),
        start_of(edges, i) < to <= start_of(edges, i + 1),
        from < to,
        cut == if from > start_of(edges, i) {
            from
        } else {
            start_of(edges, i)
        },
    ensures
        to <= edges_bytes(edges).len(),
        pieces(edges, from, to) == pieces(edges, from, cut) + seq![edges_bytes(edges).subrange(cut, to)],
    decreases edges.len(),
{
    let rest = edges.skip(1);
    let len = edges[0].bytes().len() as int;
    lemma_start_ends(edges);
    lemma_start_order(edges, i + 1, edges.len() as int);
    lemma_start_skip(edges, i + 1);
    if i == 0 {
        lemma_start_step(edges, 0);
        lemma_no_pieces(rest, from - len, to - len);
        lemma_no_pieces(edges, from, cut);
        assert(edges_bytes(edges).subrange(cut, to) =~= edges[0].bytes().subrange(cut, to));
        assert(pieces(edges, from, to) =~= pieces(edges, from, cut) + seq![edges_bytes(edges).subrange(cut, to)]);
    } else {
        lemma_start_skip(edges, i);
        lemma_start_order(edges, 1, i);
        lemma_start_step(edges, 0);
        lemma_last_piece(rest, i - 1, from - len, to - len, cut - len);
        assert(edges_bytes(edges).subrange(cut, to) =~= edges_bytes(rest).subrange(cut - len, to - len));
        assert(pieces(edges, from, to) =~= pieces(edges, from, cut) + seq![edges_bytes(edges).subrange(cut, to)]);
    }
}

/// A range that starts later has the pieces that are left of those of the longer range.
pub proof fn lemma_dropped_pieces(edges: Seq<Arc<CordRep>>, from: int, to: int, n: int)
    requires
        0 <= from,
        0 <= n,
        from + n <= to,
    ensures
        pieces(edges, from + n, to) == dropped(pieces(edges, from, to), n),
    decreases edges.len(),
{
    reveal_with_fuel(dropped, 2);
    if edges.len() > 0 && n > 0 {
        let len = edges[0].bytes().len() as int;
        let rest = edges.skip(1);
        let lo = clamp(from, len);
        let hi = clamp(to, len);
        if lo < hi {
            let all = pieces(edges, from, to);
            let first = edges[0].bytes().subrange(lo, hi);
            assert(all[0] == first);
            assert(all.skip(1) =~= pieces(rest, from - len, to - len));
            lemma_pieces_front(rest, from - len, 0, to - len);
            if n < hi - lo {
                lemma_pieces_front(rest, from + n - len, 0, to - len);
                assert(first.skip(n) =~= edges[0].bytes().subrange(lo + n, hi));
            } else if to <= len {
                lemma_no_pieces(rest, 0, to - len);
                lemma_no_pieces(rest, from + n - len, to - len);
            } else {
                lemma_dropped_pieces(rest, 0, to - len, n - (hi - lo));
            }
        } else {
            lemma_dropped_pieces(rest, from - len, to - len, n);
        }
    }
}

/// The whole range is cut into the bytes of the edges, of which none is empty.
pub proof fn lemma_all_pieces(edges: Seq<Arc<CordRep>>)
    requires
        forall|i: int| 0 <= i < edges.len() ==> (#[trigger] edges[i]).bytes().len() > 0,
    ensures
        pieces(edges, 0, edges_bytes(edges).len() as int) == blocks(edges),
    decreases edges.len(),
{
    if edges.len() > 0 {
        let rest = edges.skip(1);
        let len = edges[0].bytes().len() as int;
        lemma_start_skip(edges, 1);
        assert forall|i: int| 0 <= i < rest.len() implies (#[trigger] rest[i]).bytes().len() > 0 by {
            assert(rest[i] == edges[i + 1]);
        }
        lemma_all_pieces(rest);
        lemma_pieces_front(rest, -len, 0, edges_bytes(rest).len() as int);
        assert(edges[0].bytes().subrange(0, len) =~= edges[0].bytes());
        assert(blocks(edges) =~= seq![edges[0].bytes()] + blocks(rest));
    } else {
        assert(blocks(edges) =~= Seq::<Seq<u8>>::empty());
    }
}

} // verus!
