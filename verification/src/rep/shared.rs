//! Which blocks two lists of data edges have in common.

use super::{edges_leaves, leaves, lemma_edges_leaves_add, lemma_edges_leaves_one, CordRep};
use std::sync::Arc;
use vstd::prelude::*;

verus! {

/// The block behind the data edge `edge`.
pub open spec fn block_of(edge: Arc<CordRep>) -> Arc<CordRep> {
    match *edge {
        CordRep::Substring(sub) => sub.child,
        _ => edge,
    }
}

/// One of `edges` is `block` or a window onto it.
pub open spec fn has_block(edges: Seq<Arc<CordRep>>, block: Arc<CordRep>) -> bool {
    exists|i: int| 0 <= i < edges.len() && block_of(#[trigger] edges[i]) == block
}

/// `part` is `edge` cut off at its end: the same block or a window onto it, or
/// a flat block that was itself cut off.
pub open spec fn trimmed(part: Arc<CordRep>, edge: Arc<CordRep>) -> bool {
    ||| block_of(part) == block_of(edge)
    ||| match (*part, *edge) {
        (CordRep::Flat(a), CordRep::Flat(b)) => a.tag == b.tag && a.data@.is_prefix_of(b.data@),
        _ => false,
    }
}

/// `parts` are `edges` cut off at their end: all but the last one are the
/// first edges, and the last one is the next edge cut off. Nothing was copied.
#[verifier::opaque]
pub open spec fn cut_back(parts: Seq<Arc<CordRep>>, edges: Seq<Arc<CordRep>>) -> bool {
    &&& 0 < parts.len() <= edges.len()
    &&& parts.drop_last() == edges.take(parts.len() - 1)
    &&& trimmed(parts.last(), edges[parts.len() - 1])
}

/// The first of some edges are those edges cut off at their end.
pub proof fn lemma_cut_prefix(a: Seq<Arc<CordRep>>, edges: Seq<Arc<CordRep>>)
    requires
        a.len() > 0,
        a.is_prefix_of(edges),
    ensures
        cut_back(a, edges),
{
    reveal(cut_back);
    assert(a.drop_last() =~= edges.take(a.len() - 1));
    assert(a.last() == edges[a.len() - 1]);
}

/// What is cut off edges is cut off longer lists of edges too.
pub proof fn lemma_cut_longer(a: Seq<Arc<CordRep>>, b: Seq<Arc<CordRep>>, edges: Seq<Arc<CordRep>>)
    requires
        cut_back(a, b),
        b.is_prefix_of(edges),
    ensures
        cut_back(a, edges),
{
    reveal(cut_back);
    assert(a.drop_last() =~= edges.take(a.len() - 1));
    assert(b[a.len() - 1] == edges[a.len() - 1]);
}

/// A single data edge cut off at its end.
pub proof fn lemma_cut_edge(edge: Arc<CordRep>, part: Arc<CordRep>)
    requires
        !(*edge is Btree),
        !(*part is Btree),
        trimmed(part, edge),
    ensures
        cut_back(leaves(part), leaves(edge)),
{
    reveal(cut_back);
    assert(leaves(part).drop_last() =~= leaves(edge).take(0));
}

/// What is cut off below one of `edges`, behind the edges before that one, is
/// cut off all of them.
pub proof fn lemma_cut_below(edges: Seq<Arc<CordRep>>, i: int, parts: Seq<Arc<CordRep>>)
    requires
        0 <= i < edges.len(),
        cut_back(parts, leaves(edges[i])),
    ensures
        cut_back(edges_leaves(edges.take(i)) + parts, edges_leaves(edges)),
{
    reveal(cut_back);
    let head = edges_leaves(edges.take(i));
    let below = leaves(edges[i]);
    let all = edges_leaves(edges);
    super::lemma_edges_leaves_split(edges, i);
    assert((head + parts).drop_last() =~= head + parts.drop_last());
    assert(all.take(head.len() + parts.len() - 1) =~= head + below.take(parts.len() - 1));
    assert((head + parts).last() == parts.last());
    assert(all[head.len() + parts.len() - 1] == below[parts.len() - 1]);
}

/// The blocks behind `parts` are blocks behind `edges`: nothing was copied.
#[verifier::opaque]
pub open spec fn shares(parts: Seq<Arc<CordRep>>, edges: Seq<Arc<CordRep>>) -> bool {
    forall|i: int| 0 <= i < parts.len() ==> has_block(edges, block_of(#[trigger] parts[i]))
}

/// Edges share their blocks with themselves.
pub proof fn lemma_shares_same(edges: Seq<Arc<CordRep>>)
    ensures
        shares(edges, edges),
{
    reveal(shares);
}

/// What shares blocks with edges that share theirs shares those.
pub proof fn lemma_shares_through(a: Seq<Arc<CordRep>>, b: Seq<Arc<CordRep>>, c: Seq<Arc<CordRep>>)
    requires
        shares(a, b),
        shares(b, c),
    ensures
        shares(a, c),
{
    reveal(shares);
    assert forall|i: int| 0 <= i < a.len() implies has_block(c, block_of(#[trigger] a[i])) by {
        assert(has_block(b, block_of(a[i])));
        let j = choose|j: int| 0 <= j < b.len() && block_of(#[trigger] b[j]) == block_of(a[i]);
        assert(has_block(c, block_of(b[j])));
    }
}

/// No edges share blocks with any.
pub proof fn lemma_shares_none(edges: Seq<Arc<CordRep>>)
    ensures
        shares(Seq::empty(), edges),
{
    reveal(shares);
}

/// Lists that share blocks do so together.
pub proof fn lemma_shares_add(a: Seq<Arc<CordRep>>, b: Seq<Arc<CordRep>>, edges: Seq<Arc<CordRep>>)
    requires
        shares(a, edges),
        shares(b, edges),
    ensures
        shares(a + b, edges),
{
    reveal(shares);
    let both = a + b;
    assert forall|i: int| 0 <= i < both.len() implies has_block(edges, block_of(#[trigger] both[i])) by {
        if i < a.len() {
            assert(both[i] == a[i]);
        } else {
            assert(both[i] == b[i - a.len()]);
        }
    }
}

/// A part of a list shares its blocks.
pub proof fn lemma_shares_part(a: Seq<Arc<CordRep>>, part: Seq<Arc<CordRep>>, b: Seq<Arc<CordRep>>)
    ensures
        shares(part, a + part + b),
{
    reveal(shares);
    let all = a + part + b;
    assert forall|i: int| 0 <= i < part.len() implies has_block(all, block_of(#[trigger] part[i])) by {
        assert(all[a.len() + i] == part[i]);
    }
}

/// The data edges below some of `edges` share the blocks of those below all of them.
pub proof fn lemma_shares_range(edges: Seq<Arc<CordRep>>, from: int, to: int)
    requires
        0 <= from <= to <= edges.len(),
    ensures
        shares(edges_leaves(edges.subrange(from, to)), edges_leaves(edges)),
{
    let front = edges.take(from);
    let mid = edges.subrange(from, to);
    let back = edges.skip(to);
    assert(edges =~= front + mid + back);
    lemma_edges_leaves_add(front, mid);
    lemma_edges_leaves_add(front + mid, back);
    lemma_shares_part(edges_leaves(front), edges_leaves(mid), edges_leaves(back));
}

/// The data edges below one of `edges` share the blocks of those below all of them.
pub proof fn lemma_shares_edge(edges: Seq<Arc<CordRep>>, i: int)
    requires
        0 <= i < edges.len(),
    ensures
        shares(leaves(edges[i]), edges_leaves(edges)),
{
    lemma_shares_range(edges, i, i + 1);
    assert(edges.subrange(i, i + 1) =~= seq![edges[i]]);
    lemma_edges_leaves_one(edges[i]);
}

/// What shares the blocks below one of `edges` shares those below all of them.
pub proof fn lemma_shares_below(edges: Seq<Arc<CordRep>>, i: int, parts: Seq<Arc<CordRep>>)
    requires
        0 <= i < edges.len(),
        shares(parts, leaves(edges[i])),
    ensures
        shares(parts, edges_leaves(edges)),
{
    lemma_shares_edge(edges, i);
    lemma_shares_through(parts, leaves(edges[i]), edges_leaves(edges));
}

/// What shares the blocks below two of `edges` shares those below all of
/// them, together with the data edges in between.
pub proof fn lemma_shares_span(
    edges: Seq<Arc<CordRep>>,
    i: int,
    j: int,
    front: Seq<Arc<CordRep>>,
    back: Seq<Arc<CordRep>>,
)
    requires
        0 <= i < j < edges.len(),
        shares(front, leaves(edges[i])),
        shares(back, leaves(edges[j])),
    ensures
        shares(front + edges_leaves(edges.subrange(i + 1, j)) + back, edges_leaves(edges)),
{
    let all = edges_leaves(edges);
    let mid = edges_leaves(edges.subrange(i + 1, j));
    lemma_shares_below(edges, i, front);
    lemma_shares_below(edges, j, back);
    lemma_shares_range(edges, i + 1, j);
    lemma_shares_add(front, mid, all);
    lemma_shares_add(front + mid, back, all);
}

/// A window onto a data edge shares its block.
pub proof fn lemma_shares_window(edge: Arc<CordRep>, window: Arc<CordRep>)
    requires
        !(*edge is Btree),
        !(*window is Btree),
        block_of(window) == block_of(edge),
    ensures
        shares(leaves(window), leaves(edge)),
{
    reveal(shares);
    assert(leaves(edge)[0] == edge);
    assert forall|i: int| 0 <= i < leaves(window).len() implies has_block(
        leaves(edge),
        block_of(#[trigger] leaves(window)[i]),
    ) by {
        assert(leaves(window)[i] == window);
    }
}

} // verus!
