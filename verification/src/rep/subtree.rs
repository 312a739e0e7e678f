//! Positions inside a node, and the parts of a tree.

use super::btree::{copy_edges, lemma_join_edge, node_of, CordRepBtree, HEIGHT_LIMIT};
use super::edge::{edge_data, make_substring, make_substring_from, resize_edge};
use super::share::{get_mut, leg_held_twice, strong_count};
use super::shared::{
    cut_back, lemma_cut_below, lemma_cut_edge, lemma_cut_longer, lemma_cut_prefix, lemma_shares_add,
    lemma_shares_below, lemma_shares_range, lemma_shares_same, lemma_shares_span, lemma_shares_window, shares,
};
use super::stack::{lemma_fits_nonempty, outer_edge};
use super::{
    compact, edges_bytes, edges_leaves, fits_below, leaves, lemma_compact_node, lemma_edge_nonempty, lemma_edges_bytes_add,
    lemma_edges_bytes_one, lemma_edges_bytes_split, lemma_edges_leaves_bytes,
    lemma_edges_leaves_split, lemma_leaves_bytes, lemma_leaves_valid, CordRep,
};

use std::sync::Arc;
use vstd::prelude::*;
use vstd::slice::slice_subrange;

verus! {

/// A position inside a node: an edge and a number of bytes.
#[derive(Clone, Copy, PartialEq, Eq, Debug)]
pub struct Position {
    /// The index of the edge.
    pub index: usize,
    /// An offset or a length relative to the edge.
    pub n: usize,
}

/// The number of bytes of `edges` before the edge at `i`.
pub open spec fn start_of(edges: Seq<Arc<CordRep>>, i: int) -> int {
    edges_bytes(edges.take(i)).len() as int
}

/// Edges start where the edges before them end.
pub proof fn lemma_start_step(edges: Seq<Arc<CordRep>>, i: int)
    requires
        0 <= i < edges.len(),
    ensures
        start_of(edges, i + 1) == start_of(edges, i) + edges[i].bytes().len(),
        start_of(edges, i + 1) <= edges_bytes(edges).len(),
{
    lemma_edges_bytes_split(edges, i);
    assert(edges.take(i + 1).len() == i + 1);
    lemma_edges_bytes_add(edges.take(i + 1), edges.skip(i + 1));
    assert(edges =~= edges.take(i + 1) + edges.skip(i + 1));
}

/// The first edge starts at zero, and the edges end at their total length.
pub proof fn lemma_start_ends(edges: Seq<Arc<CordRep>>)
    ensures
        start_of(edges, 0) == 0,
        start_of(edges, edges.len() as int) == edges_bytes(edges).len(),
{
    assert(edges.take(0) =~= Seq::<Arc<CordRep>>::empty());
    assert(edges.take(edges.len() as int) =~= edges);
}

/// Later edges start later.
pub proof fn lemma_start_order(edges: Seq<Arc<CordRep>>, i: int, j: int)
    requires
        0 <= i <= j <= edges.len(),
    ensures
        start_of(edges, i) <= start_of(edges, j) <= edges_bytes(edges).len(),
    decreases j - i,
{
    if i < j {
        lemma_start_order(edges, i, j - 1);
        lemma_start_step(edges, j - 1);
    } else {
        lemma_edges_bytes_add(edges.take(j), edges.skip(j));
        assert(edges =~= edges.take(j) + edges.skip(j));
    }
}

/// An edge that holds a byte behind the edge at `i` starts behind it.
pub proof fn lemma_start_beyond(edges: Seq<Arc<CordRep>>, i: int, j: int, n: int)
    requires
        0 <= i < edges.len(),
        0 <= j < edges.len(),
        n < edges[j].bytes().len(),
        start_of(edges, i) + edges[i].bytes().len() <= start_of(edges, j) + n,
    ensures
        start_of(edges, i) + edges[i].bytes().len() <= start_of(edges, j),
{
    lemma_start_step(edges, i);
    lemma_start_step(edges, j);
    if j <= i {
        lemma_start_order(edges, j + 1, i + 1);
    } else {
        lemma_start_order(edges, i + 1, j);
    }
}

impl CordRepBtree {
    /// The edge that holds the byte at `offset`, and the offset inside that edge.
    pub fn index_of(&self, offset: usize) -> (pos: Position)
        requires
            self.partial(),
            offset < self.length,
        ensures
            pos.index < self.edges@.len(),
            start_of(self.edges@, pos.index as int) + pos.n == offset,
            pos.n < self.edges@[pos.index as int].bytes().len(),
    {
        let mut left: usize = offset;
        let mut index: usize = 0;
        proof {
            lemma_start_ends(self.edges@);
            lemma_start_step(self.edges@, 0);
        }
        while left >= self.edges[index].len()
            invariant
                self.partial(),
                index < self.edges@.len(),
                offset < self.length,
                start_of(self.edges@, index as int) + left == offset,
            decreases self.edges@.len() - index,
        {
            proof {
                lemma_start_step(self.edges@, index as int);
                lemma_start_ends(self.edges@);
            }
            left = left - self.edges[index].len();
            index += 1;
        }
        Position { index, n: left }
    }

    /// The last edge that starts before `offset`, and the offset inside that edge.
    pub fn index_before(&self, offset: usize) -> (pos: Position)
        requires
            self.partial(),
            0 < offset <= self.length,
        ensures
            pos.index < self.edges@.len(),
            start_of(self.edges@, pos.index as int) + pos.n == offset,
            0 < pos.n <= self.edges@[pos.index as int].bytes().len(),
    {
        proof {
            lemma_start_ends(self.edges@);
        }
        self.index_before_from(Position { index: 0, n: 0 }, offset)
    }

    /// `index_before`, with `offset` counted from the position `front`.
    pub fn index_before_from(&self, front: Position, offset: usize) -> (pos: Position)
        requires
            self.partial(),
            self.edges@.len() > 0,
            front.index < self.edges@.len(),
            0 < front.n + offset,
            start_of(self.edges@, front.index as int) + front.n + offset <= self.length,
        ensures
            front.index <= pos.index < self.edges@.len(),
            start_of(self.edges@, pos.index as int) + pos.n == start_of(self.edges@, front.index as int)
                + front.n + offset,
            0 < pos.n <= self.edges@[pos.index as int].bytes().len(),
    {
        let mut index: usize = front.index;
        let mut left: usize = offset + front.n;
        while left > self.edges[index].len()
            invariant
                self.partial(),
                front.index <= index < self.edges@.len(),
                0 < left,
                start_of(self.edges@, index as int) + left == start_of(self.edges@, front.index as int)
                    + front.n + offset,
                start_of(self.edges@, front.index as int) + front.n + offset <= self.length,
            decreases self.edges@.len() - index,
        {
            proof {
                lemma_start_step(self.edges@, index as int);
                lemma_start_ends(self.edges@);
            }
            left = left - self.edges[index].len();
            index += 1;
        }
        Position { index, n: left }
    }

    /// The edge in which the first `n` bytes end, and how many of them it holds.
    pub fn index_of_length(&self, n: usize) -> (pos: Position)
        requires
            self.partial(),
            0 < n <= self.length,
        ensures
            pos.index < self.edges@.len(),
            start_of(self.edges@, pos.index as int) + pos.n == n,
            0 < pos.n <= self.edges@[pos.index as int].bytes().len(),
    {
        proof {
            lemma_start_ends(self.edges@);
        }
        let mut index: usize = self.edges.len() - 1;
        let mut strip: usize = self.length - n;
        while strip >= self.edges[index].len()
            invariant
                self.partial(),
                index < self.edges@.len(),
                0 < n <= self.length,
                start_of(self.edges@, index + 1) == n + strip,
            decreases index,
        {
            proof {
                lemma_start_step(self.edges@, index as int);
                lemma_start_ends(self.edges@);
            }
            strip = strip - self.edges[index].len();
            index = index - 1;
        }
        proof {
            lemma_start_step(self.edges@, index as int);
        }
        Position { index, n: self.edges[index].len() - strip }
    }

    /// The first edge that starts at `offset` or beyond it, and its distance from `offset`.
    pub fn index_beyond(&self, offset: usize) -> (pos: Position)
        requires
            self.partial(),
            offset <= self.length,
        ensures
            pos.index <= self.edges@.len(),
            start_of(self.edges@, pos.index as int) == offset + pos.n,
            pos.index == 0 ==> offset == 0 && pos.n == 0,
            pos.index > 0 ==> pos.n < self.edges@[pos.index - 1].bytes().len(),
    {
        let mut off: usize = 0;
        let mut index: usize = 0;
        proof {
            lemma_start_ends(self.edges@);
        }
        while offset > off
            invariant
                self.partial(),
                index <= self.edges@.len(),
                offset <= self.length,
                start_of(self.edges@, index as int) == off,
                start_of(self.edges@, self.edges@.len() as int) == self.length,
                index == 0 ==> off == 0,
                index > 0 ==> off < offset + self.edges@[index - 1].bytes().len(),
            decreases self.edges@.len() - index,
        {
            proof {
                lemma_start_step(self.edges@, index as int);
            }
            off = off + self.edges[index].len();
            index += 1;
        }
        Position { index, n: off - offset }
    }
}

/// The bytes of `edges` from inside the edge at `i` on.
pub proof fn lemma_suffix(edges: Seq<Arc<CordRep>>, i: int, a: int)
    requires
        0 <= i < edges.len(),
        0 <= a <= edges[i].bytes().len(),
    ensures
        edges_bytes(edges).skip(start_of(edges, i) + a) == edges[i].bytes().skip(a) + edges_bytes(edges.skip(i + 1)),
{
    lemma_edges_bytes_split(edges, i);
    assert(edges_bytes(edges).skip(start_of(edges, i) + a) =~= edges[i].bytes().skip(a) + edges_bytes(
        edges.skip(i + 1),
    ));
}

/// The bytes of `edges` up to a place inside the edge at `i`.
pub proof fn lemma_prefix(edges: Seq<Arc<CordRep>>, i: int, b: int)
    requires
        0 <= i < edges.len(),
        0 <= b <= edges[i].bytes().len(),
    ensures
        edges_bytes(edges).take(start_of(edges, i) + b) == edges_bytes(edges.take(i)) + edges[i].bytes().take(b),
{
    lemma_edges_bytes_split(edges, i);
    assert(edges_bytes(edges).take(start_of(edges, i) + b) =~= edges_bytes(edges.take(i)) + edges[i].bytes().take(
        b,
    ));
}

/// The bytes of `edges` from inside the edge at `i` to inside the edge at `j`.
pub proof fn lemma_span(edges: Seq<Arc<CordRep>>, i: int, a: int, j: int, b: int)
    requires
        0 <= i < j < edges.len(),
        0 <= a <= edges[i].bytes().len(),
        0 <= b <= edges[j].bytes().len(),
    ensures
        start_of(edges, i) + a <= start_of(edges, j) + b <= edges_bytes(edges).len(),
        edges_bytes(edges).subrange(start_of(edges, i) + a, start_of(edges, j) + b) == edges[i].bytes().skip(a)
            + edges_bytes(edges.subrange(i + 1, j)) + edges[j].bytes().take(b),
{
    lemma_start_step(edges, i);
    lemma_start_order(edges, i + 1, j);
    lemma_start_step(edges, j);
    let head = edges.take(j);
    lemma_prefix(edges, j, b);
    lemma_suffix(head, i, a);
    assert(head.take(i) =~= edges.take(i));
    assert(head.skip(i + 1) =~= edges.subrange(i + 1, j));
    let all = edges_bytes(edges);
    let from = start_of(edges, i) + a;
    let to = start_of(edges, j) + b;
    assert(all.subrange(from, to) =~= all.take(to).skip(from));
    assert(all.take(to).skip(from) =~= edges_bytes(head).skip(from) + edges[j].bytes().take(b));
}

/// The bytes inside one edge.
pub proof fn lemma_inside(edges: Seq<Arc<CordRep>>, i: int, a: int, n: int)
    requires
        0 <= i < edges.len(),
        0 <= a,
        0 <= n,
        a + n <= edges[i].bytes().len(),
    ensures
        start_of(edges, i) + a + n <= edges_bytes(edges).len(),
        edges_bytes(edges).subrange(start_of(edges, i) + a, start_of(edges, i) + a + n)
            == edges[i].bytes().subrange(a, a + n),
{
    lemma_edges_bytes_split(edges, i);
    assert(edges_bytes(edges).subrange(start_of(edges, i) + a, start_of(edges, i) + a + n)
        =~= edges[i].bytes().subrange(a, a + n));
}

/// The height of `rep` counted from the data edges: 0 for a data edge, 1 for a leaf node.
fn levels_of(rep: &CordRep) -> (levels: usize)
    requires
        rep.wf(),
    ensures
        levels == rep.height() + 1,
{
    match rep {
        CordRep::Btree(node) => node.height + 1,
        _ => 0,
    }
}

/// Raises `edge` to `levels` levels by putting single-edge nodes above it.
fn raise(edge: Arc<CordRep>, levels: usize) -> (raised: Arc<CordRep>)
    requires
        edge.is_edge(),
        edge.height() + 1 <= levels <= HEIGHT_LIMIT + 1,
    ensures
        raised.is_edge(),
        raised.height() + 1 == levels,
        raised.bytes() == edge.bytes(),
        leaves(raised) == leaves(edge),
{
    let mut raised = edge;
    while levels_of(&raised) < levels
        invariant
            raised.is_edge(),
            raised.height() + 1 <= levels <= HEIGHT_LIMIT + 1,
            raised.bytes() == edge.bytes(),
            leaves(raised) == leaves(edge),
        decreases levels - raised.height(),
    {
        raised = CordRepBtree::new_with(raised);
    }
    raised
}

/// A node of the height of `node` with its bytes from `offset` on.
fn suffix_at(node: &CordRepBtree, offset: usize) -> (sub: Arc<CordRep>)
    requires
        node.partial(),
        offset < node.length,
    ensures
        sub.is_tree(node.height as int),
        sub.bytes() == edges_bytes(node.edges@).skip(offset as int),
        shares(leaves(sub), edges_leaves(node.edges@)),
    decreases node.height,
{
    let ghost edges = node.edges@;
    let pos = node.index_beyond(offset);
    let kept = copy_edges(&node.edges, pos.index, node.edges.len());
    assert(kept@ =~= edges.skip(pos.index as int));
    proof {
        lemma_start_ends(edges);
        lemma_edges_bytes_add(edges.take(pos.index as int), kept@);
        assert(edges =~= edges.take(pos.index as int) + kept@);
        lemma_shares_range(edges, pos.index as int, edges.len() as int);
    }
    let mut sub = CordRepBtree { height: node.height, length: node.length - offset - pos.n, edges: kept };
    if pos.n != 0 {
        let ghost i = pos.index - 1;
        let edge = &node.edges[pos.index - 1];
        let cut: usize = edge.len() - pos.n;
        proof {
            lemma_start_step(edges, i);
            lemma_suffix(edges, i, cut as int);
            lemma_fits_nonempty(edges[i], node.height as int);
        }
        let part = if node.height == 0 {
            let part = make_substring_from(edge.clone(), cut);
            proof {
                lemma_shares_window(*edge, part);
            }
            part
        } else {
            suffix_at(node_of(edge), cut)
        };
        proof {
            lemma_join_edge(false, sub.edges@, part);
            assert(part.bytes() == edges[i].bytes().skip(cut as int));
            lemma_shares_below(edges, i, leaves(part));
            lemma_shares_add(leaves(part), edges_leaves(sub.edges@), edges_leaves(edges));
        }
        sub.add_one(false, part);
    } else {
        assert(edges_bytes(edges).skip(offset as int) =~= edges_bytes(kept@));
    }
    Arc::new(CordRep::Btree(sub))
}

/// A node of the height of `node` with its first `n` bytes.
pub fn prefix_at(node: &CordRepBtree, n: usize) -> (sub: Arc<CordRep>)
    requires
        node.partial(),
        0 < n < node.length,
    ensures
        sub.is_tree(node.height as int),
        sub.bytes() == edges_bytes(node.edges@).take(n as int),
        shares(leaves(sub), edges_leaves(node.edges@)),
        cut_back(leaves(sub), edges_leaves(node.edges@)),
        node.edges@[0].bytes().len() < n ==> sub.node().edges@.len() > 1,
    decreases node.height,
{
    let ghost edges = node.edges@;
    let pos = node.index_of(n);
    let ghost i = pos.index as int;
    let kept = copy_edges(&node.edges, 0, pos.index);
    assert(kept@ =~= edges.take(i));
    proof {
        lemma_prefix(edges, i, pos.n as int);
        lemma_fits_nonempty(edges[i], node.height as int);
        lemma_shares_range(edges, 0, i);
        lemma_start_ends(edges);
        lemma_start_step(edges, 0);
        if i == 1 {
            assert(start_of(edges, 1) == edges[0].bytes().len());
        }
    }
    let mut sub = CordRepBtree { height: node.height, length: n - pos.n, edges: kept };
    if pos.n != 0 {
        let edge = &node.edges[pos.index];
        let part = if node.height == 0 {
            assert(edge.bytes().take(pos.n as int) =~= edge.bytes().subrange(0, pos.n as int));
            let part = make_substring(edge.clone(), 0, pos.n).unwrap();
            proof {
                lemma_shares_window(*edge, part);
                lemma_cut_edge(*edge, part);
            }
            part
        } else {
            prefix_at(node_of(edge), pos.n)
        };
        proof {
            lemma_join_edge(true, sub.edges@, part);
            lemma_shares_below(edges, i, leaves(part));
            lemma_shares_add(edges_leaves(sub.edges@), leaves(part), edges_leaves(edges));
            lemma_cut_below(edges, i, leaves(part));
        }
        sub.add_one(true, part);
    } else {
        proof {
            assert(edges[i].bytes().take(0) =~= Seq::<u8>::empty());
            assert(edges_bytes(edges).take(n as int) =~= edges_bytes(kept@));
            lemma_start_ends(edges);
            let head = edges_leaves(edges.take(i));
            lemma_first_leaf(edges, i, node.height as int);
            lemma_edges_leaves_split(edges, i);
            assert(head =~= edges_leaves(edges).subrange(0, head.len() as int));
            lemma_cut_prefix(head, edges_leaves(edges));
        }
    }
    Arc::new(CordRep::Btree(sub))
}

/// The bytes of `this` from `offset` on. Levels above the node that holds
/// all of them are dropped.
pub fn copy_suffix(this: &Arc<CordRep>, offset: usize) -> (sub: Arc<CordRep>)
    requires
        this.is_tree(this.height()),
        offset < this.bytes().len(),
    ensures
        sub.is_edge(),
        sub.height() <= this.height(),
        sub.bytes() == this.bytes().skip(offset as int),
        shares(leaves(sub), leaves(*this)),
        this.node().edges@.last().bytes().len() >= this.bytes().len() - offset ==> sub.height() < this.height(),
    decreases this.height(),
{
    let node = node_of(this);
    let ghost edges = node.edges@;
    let ghost last = edges.len() - 1;
    let len: usize = node.length - offset;
    let back = &node.edges[node.edges.len() - 1];
    proof {
        lemma_start_step(edges, last);
        lemma_start_ends(edges);
        lemma_fits_nonempty(edges[last], node.height as int);
    }
    if back.len() >= len {
        let inner: usize = back.len() - len;
        proof {
            lemma_suffix(edges, last, inner as int);
            assert(edges.skip(last + 1) =~= Seq::<Arc<CordRep>>::empty());
            assert(back.bytes().skip(inner as int) + edges_bytes(edges.skip(last + 1))
                =~= back.bytes().skip(inner as int));
        }
        let sub = if node.height == 0 {
            let sub = make_substring_from(back.clone(), inner);
            proof {
                lemma_shares_window(*back, sub);
            }
            sub
        } else {
            copy_suffix(back, inner)
        };
        proof {
            lemma_shares_below(edges, last, leaves(sub));
        }
        return sub;
    }
    if offset == 0 {
        proof {
            assert(this.bytes().skip(0) =~= this.bytes());
            lemma_shares_same(leaves(*this));
        }
        return this.clone();
    }
    suffix_at(node, offset)
}

/// The first `n` bytes of `this`. If `allow_folding`, levels above the node
/// that holds all of them are dropped.
pub fn copy_prefix(this: &Arc<CordRep>, n: usize, allow_folding: bool) -> (sub: Arc<CordRep>)
    requires
        this.is_tree(this.height()),
        0 < n <= this.bytes().len(),
    ensures
        sub.is_edge(),
        sub.height() <= this.height(),
        !allow_folding ==> sub.is_tree(this.height()),
        sub.bytes() == this.bytes().take(n as int),
        shares(leaves(sub), leaves(*this)),
        cut_back(leaves(sub), leaves(*this)),
        allow_folding && this.node().edges@[0].bytes().len() >= n ==> sub.height() < this.height(),
        this.node().edges@[0].bytes().len() < n ==> leaves(sub).len() > 1,
    decreases this.height(),
{
    let node = node_of(this);
    let ghost edges = node.edges@;
    let front = &node.edges[0];
    proof {
        lemma_start_ends(edges);
        lemma_fits_nonempty(edges[0], node.height as int);
    }
    if allow_folding && front.len() >= n {
        proof {
            lemma_prefix(edges, 0, n as int);
            assert(edges.take(0) =~= Seq::<Arc<CordRep>>::empty());
            assert(edges_bytes(edges.take(0)) + front.bytes().take(n as int) =~= front.bytes().take(n as int));
        }
        let sub = if node.height == 0 {
            assert(front.bytes().take(n as int) =~= front.bytes().subrange(0, n as int));
            let sub = make_substring(front.clone(), 0, n).unwrap();
            proof {
                lemma_shares_window(*front, sub);
                lemma_cut_edge(*front, sub);
            }
            sub
        } else {
            copy_prefix(front, n, allow_folding)
        };
        proof {
            lemma_shares_below(edges, 0, leaves(sub));
            lemma_cut_below(edges, 0, leaves(sub));
            assert(edges_leaves(edges.take(0)) + leaves(sub) =~= leaves(sub));
        }
        return sub;
    }
    if node.length == n {
        proof {
            assert(this.bytes().take(n as int) =~= this.bytes());
            lemma_shares_same(leaves(*this));
            lemma_fits_nonempty(*this, this.height() + 1);
            lemma_cut_nowhere(*this);
            if edges.len() == 1 {
                lemma_edges_bytes_one(edges[0]);
                assert(edges =~= seq![edges[0]]);
            } else {
                lemma_compact_node(*this);
            }
        }
        return this.clone();
    }
    let sub = prefix_at(node, n);
    proof {
        if edges[0].bytes().len() < n {
            lemma_compact_node(sub);
        }
    }
    sub
}

/// The front edge of the node `tree`, taken out where `tree` is held by no one else.
pub fn extract_front(tree: Arc<CordRep>) -> (edge: Arc<CordRep>)
    requires
        tree.is_tree(tree.height()),
    ensures
        edge == tree.node().edges@[0],
{
    let mut tree = tree;
    if let Some(CordRep::Btree(node)) = get_mut(&mut tree) {
        return node.edges.remove(0);
    }
    outer_edge(&tree, false)
}

/// The first edges of a node stand above a data edge.
proof fn lemma_first_leaf(edges: Seq<Arc<CordRep>>, i: int, height: int)
    requires
        0 < i <= edges.len(),
        edges[0].wf(),
        fits_below(*edges[0], height),
    ensures
        edges_leaves(edges.take(i)).len() > 0,
{
    lemma_fits_nonempty(edges[0], height);
    lemma_leaves_valid(edges[0]);
    lemma_edges_leaves_split(edges.take(i), 0);
    assert(edges.take(i)[0] == edges[0]);
}

/// A tree is its own data edges, cut off nowhere.
proof fn lemma_cut_nowhere(rep: Arc<CordRep>)
    requires
        rep.is_edge(),
    ensures
        cut_back(leaves(rep), leaves(rep)),
{
    lemma_leaves_valid(rep);
    lemma_cut_prefix(leaves(rep), leaves(rep));
}

/// Cuts `tree` down to its first `length` bytes: in place as far as its nodes
/// are held by no one else, and on copies below that.
fn crop(tree: Arc<CordRep>, length: usize) -> (cropped: Arc<CordRep>)
    requires
        tree.is_tree(tree.height()),
        0 < length <= tree.bytes().len(),
    ensures
        cropped.is_tree(tree.height()),
        cropped.bytes() == tree.bytes().take(length as int),
        cut_back(leaves(cropped), leaves(tree)),
        tree.node().edges@[0].bytes().len() < length ==> leaves(cropped).len() > 1,
    decreases tree.height(),
{
    let ghost edges = tree.node().edges@;
    let ghost height = tree.height();
    if length == tree.len() {
        proof {
            assert(tree.bytes().take(length as int) =~= tree.bytes());
            lemma_fits_nonempty(tree, height + 1);
            lemma_cut_nowhere(tree);
            if edges.len() == 1 {
                lemma_edges_bytes_one(edges[0]);
                assert(edges =~= seq![edges[0]]);
            } else {
                lemma_compact_node(tree);
            }
        }
        return tree;
    }
    let pos = node_of(&tree).index_of_length(length);
    let ghost i = pos.index as int;
    proof {
        lemma_prefix(edges, i, pos.n as int);
        lemma_fits_nonempty(edges[i], height);
    }
    let mut tree = tree;
    if let Some(CordRep::Btree(node)) = get_mut(&mut tree) {
        node.edges.truncate(pos.index + 1);
        let edge = node.edges.pop().unwrap();
        node.length = length - pos.n;
        assert(node.edges@ =~= edges.take(i));
        assert(edge == edges[i]);
        let part = if node.height == 0 {
            resize_edge(edge, pos.n)
        } else {
            crop(edge, pos.n)
        };
        proof {
            lemma_join_edge(true, edges.take(i), part);
            lemma_fits_nonempty(part, height);
            lemma_leaves_valid(part);
            if height == 0 {
                lemma_cut_edge(edges[i], part);
            }
            lemma_cut_below(edges, i, leaves(part));
            if i > 0 {
                lemma_first_leaf(edges, i, height);
            } else {
                lemma_start_ends(edges);
            }
        }
        node.add_one(true, part);
        return tree;
    }
    copy_prefix(&tree, length, false)
}

/// A range that goes beyond the edge in which it starts is held by no single edge.
proof fn lemma_not_in_one(edges: Seq<Arc<CordRep>>, i: int, offset: int, n: int)
    requires
        0 <= i < edges.len(),
        start_of(edges, i) <= offset < start_of(edges, i) + edges[i].bytes().len() < offset + n,
    ensures
        !within_one(edges, offset, n),
{
    assert forall|k: int|
        #![trigger edges[k]]
        0 <= k < edges.len() && start_of(edges, k) <= offset implies offset + n > start_of(edges, k)
        + edges[k].bytes().len() by {
        lemma_start_step(edges, k);
        lemma_start_step(edges, i);
        if k < i {
            lemma_start_order(edges, k + 1, i);
        } else if k > i {
            lemma_start_order(edges, i + 1, k);
        }
    }
}

/// A node of `n` bytes with `prefix`, the edges of `node` from `begin` to
/// `end`, and `suffix`. With edges in between its height is that of `node`;
/// otherwise the higher of the two parts decides.
fn enclose(
    node: &CordRepBtree,
    begin: usize,
    end: usize,
    prefix: Arc<CordRep>,
    suffix: Arc<CordRep>,
    n: usize,
) -> (sub: Arc<CordRep>)
    requires
        node.partial(),
        0 < begin <= end < node.edges@.len(),
        prefix.is_edge(),
        suffix.is_edge(),
        prefix.height() < node.height,
        suffix.height() < node.height,
        n == prefix.bytes().len() + edges_bytes(node.edges@.subrange(begin as int, end as int)).len()
            + suffix.bytes().len(),
    ensures
        sub.is_edge(),
        sub.height() <= node.height,
        sub.bytes() == prefix.bytes() + edges_bytes(node.edges@.subrange(begin as int, end as int)) + suffix.bytes(),
        leaves(sub) == leaves(prefix) + edges_leaves(node.edges@.subrange(begin as int, end as int)) + leaves(suffix),
        leaves(sub).len() > 1,
{
    proof {
        lemma_leaves_valid(prefix);
        lemma_leaves_valid(suffix);
    }
    let height: usize = if begin == end {
        let a: usize = levels_of(&prefix);
        let b: usize = levels_of(&suffix);
        if a >= b {
            a
        } else {
            b
        }
    } else {
        node.height
    };
    let prefix = raise(prefix, height);
    let suffix = raise(suffix, height);
    let mut kept = copy_edges(&node.edges, begin, end);
    let ghost mid = kept@;
    kept.insert(0, prefix);
    kept.push(suffix);
    proof {
        lemma_join_edge(false, mid, prefix);
        lemma_join_edge(true, seq![prefix] + mid, suffix);
        assert(kept@ =~= seq![prefix] + mid + seq![suffix]);
    }
    let sub = Arc::new(CordRep::Btree(CordRepBtree { height, length: n, edges: kept }));
    proof {
        lemma_fits_nonempty(sub, height + 1);
    }
    sub
}

impl CordRepBtree {
    /// The `n` bytes of `this` at `offset`, as the smallest tree, window or
    /// block that shares the data edges of `this`; nothing if `n` is zero.
    #[verifier::spinoff_prover]
    #[verifier::rlimit(40)]
    pub fn sub_tree(this: &Arc<CordRep>, offset: usize, n: usize) -> (sub: Option<Arc<CordRep>>)
        requires
            this.is_tree(this.height()),
            offset + n <= this.bytes().len(),
        ensures
            n == 0 <==> sub is None,
            sub matches Some(sub) ==> {
                &&& sub.is_edge()
                &&& sub.height() <= this.height()
                &&& sub.bytes() == this.bytes().subrange(offset as int, offset + n)
                &&& shares(leaves(sub), leaves(*this))
                &&& compact(sub)
                &&& within_one(this.node().edges@, offset as int, n as int) ==> sub.height() < this.height()
            },
        decreases this.height(),
    {
        if n == 0 {
            return None;
        }
        let node = node_of(this);
        let ghost edges = node.edges@;
        let front = node.index_of(offset);
        let left = &node.edges[front.index];
        let ghost i = front.index as int;
        proof {
            lemma_fits_nonempty(edges[i], node.height as int);
            lemma_start_step(edges, i);
        }
        if n <= left.len() - front.n {
            proof {
                lemma_inside(edges, i, front.n as int, n as int);
            }
            let sub = if node.height == 0 {
                let sub = make_substring(left.clone(), front.n, n);
                proof {
                    lemma_shares_window(*left, sub->0);
                }
                sub
            } else {
                Self::sub_tree(left, front.n, n)
            };
            proof {
                lemma_shares_below(edges, i, leaves(sub->0));
            }
            return sub;
        }
        proof {
            lemma_not_in_one(edges, i, offset as int, n as int);
        }
        let back = node.index_before_from(front, n);
        let right = &node.edges[back.index];
        let ghost j = back.index as int;
        proof {
            lemma_fits_nonempty(edges[j], node.height as int);
            lemma_span(edges, i, front.n as int, j, back.n as int);
        }
        assert(right.bytes().subrange(0, back.n as int) =~= right.bytes().take(back.n as int));
        let (prefix, suffix): (Arc<CordRep>, Arc<CordRep>) = if node.height > 0 {
            (copy_suffix(left, front.n), copy_prefix(right, back.n, true))
        } else {
            let prefix = make_substring_from(left.clone(), front.n);
            let suffix = make_substring(right.clone(), 0, back.n).unwrap();
            proof {
                lemma_shares_window(*left, prefix);
                lemma_shares_window(*right, suffix);
            }
            (prefix, suffix)
        };
        proof {
            lemma_shares_span(edges, i, j, leaves(prefix), leaves(suffix));
            let mid = edges_bytes(edges.subrange(i + 1, j));
            assert(this.bytes().subrange(offset as int, offset + n) == prefix.bytes() + mid + suffix.bytes());
            assert((prefix.bytes() + mid + suffix.bytes()).len() == n);
        }
        Some(enclose(node, front.index + 1, back.index, prefix, suffix, n))
    }

    /// `tree` without its last `n` bytes; nothing where those are all of them.
    pub fn remove_suffix(tree: Arc<CordRep>, n: usize) -> (r: Option<Arc<CordRep>>)
        requires
            tree.is_tree(tree.height()),
            n <= tree.bytes().len(),
        ensures
            n == tree.bytes().len() <==> r is None,
            r matches Some(rest) ==> {
                &&& rest.is_edge()
                &&& rest.height() <= tree.height()
                &&& rest.bytes() == tree.bytes().take(tree.bytes().len() - n)
                &&& cut_back(leaves(rest), leaves(tree))
                &&& n > 0 ==> compact(rest)
            },
            n == 0 ==> r == Some(tree),
    {
        let len: usize = tree.len();
        proof {
            assert(tree.bytes().take(len as int) =~= tree.bytes());
            lemma_edge_nonempty(tree.node(), 0);
            lemma_edges_bytes_split(tree.node().edges@, 0);
        }
        if n == 0 {
            proof {
                lemma_fits_nonempty(tree, tree.height() + 1);
                lemma_cut_nowhere(tree);
            }
            return Some(tree);
        }
        if n >= len {
            return None;
        }
        let length: usize = len - n;
        assert(leaves(tree) =~= leaves(tree).subrange(0, leaves(tree).len() as int));
        let mut current = tree;
        let mut pos = node_of(&current).index_of_length(length);
        while pos.index == 0
            invariant
                current.is_tree(current.height()),
                current.height() <= tree.height(),
                0 < length <= current.bytes().len(),
                length == tree.bytes().len() - n,
                n > 0,
                current.bytes().take(length as int) == tree.bytes().take(length as int),
                leaves(current).is_prefix_of(leaves(tree)),
                pos.index < current.node().edges@.len(),
                start_of(current.node().edges@, pos.index as int) + pos.n == length,
                0 < pos.n <= current.node().edges@[pos.index as int].bytes().len(),
            decreases current.height(),
        {
            let ghost edges = current.node().edges@;
            let height: usize = node_of(&current).height;
            proof {
                lemma_start_ends(edges);
                lemma_prefix(edges, 0, length as int);
                assert(edges.take(0) =~= Seq::<Arc<CordRep>>::empty());
                assert(edges_bytes(edges.take(0)) + edges[0].bytes().take(length as int)
                    =~= edges[0].bytes().take(length as int));
                lemma_fits_nonempty(edges[0], height as int);
                lemma_edges_leaves_split(edges, 0);
                assert(leaves(edges[0]) =~= leaves(tree).subrange(0, leaves(edges[0]).len() as int));
            }
            let edge = extract_front(current);
            if height == 0 {
                let rest = resize_edge(edge, length);
                proof {
                    lemma_cut_edge(edge, rest);
                    lemma_cut_longer(leaves(rest), leaves(edge), leaves(tree));
                }
                return Some(rest);
            }
            current = edge;
            pos = node_of(&current).index_of_length(length);
        }
        proof {
            let edges = current.node().edges@;
            lemma_start_ends(edges);
            lemma_start_step(edges, 0);
            lemma_start_order(edges, 1, pos.index as int);
        }
        let rest = crop(current, length);
        proof {
            lemma_cut_longer(leaves(rest), leaves(current), leaves(tree));
        }
        Some(rest)
    }

    /// The bytes of `this` where one data edge holds them all.
    pub fn as_flat(this: &Arc<CordRep>) -> (r: Option<&[u8]>)
        requires
            this.is_tree(this.height()),
        ensures
            r is Some <==> this.height() == 0 && this.node().edges@.len() == 1,
            r matches Some(data) ==> data@ == this.bytes(),
    {
        let node = node_of(this);
        if node.height == 0 && node.edges.len() == 1 {
            proof {
                lemma_edges_bytes_one(node.edges@[0]);
                assert(node.edges@ =~= seq![node.edges@[0]]);
            }
            Some(edge_data(&node.edges[0]))
        } else {
            None
        }
    }

    /// The byte of `this` at `offset`.
    pub fn get_byte(this: &Arc<CordRep>, offset: usize) -> (byte: u8)
        requires
            this.is_tree(this.height()),
            offset < this.bytes().len(),
        ensures
            byte == this.bytes()[offset as int],
        decreases this.height(),
    {
        let node = node_of(this);
        let front = node.index_of(offset);
        let edge = &node.edges[front.index];
        proof {
            lemma_edges_bytes_split(node.edges@, front.index as int);
        }
        if node.height == 0 {
            return edge_data(edge)[front.n];
        }
        Self::get_byte(edge, front.n)
    }
}

/// The `n` bytes at `offset` lie inside one of `edges`.
pub open spec fn within_one(edges: Seq<Arc<CordRep>>, offset: int, n: int) -> bool {
    exists|k: int|
        #![trigger edges[k]]
        0 <= k < edges.len() && start_of(edges, k) <= offset && offset + n <= start_of(edges, k)
            + edges[k].bytes().len()
}

/// Edges start behind the edges before their list.
proof fn lemma_start_behind(
    head: Seq<Arc<CordRep>>,
    mid: Seq<Arc<CordRep>>,
    tail: Seq<Arc<CordRep>>,
    k: int,
)
    requires
        0 <= k <= mid.len(),
    ensures
        start_of(head + mid + tail, head.len() + k) == edges_bytes(head).len() + start_of(mid, k),
{
    assert((head + mid + tail).take(head.len() + k) =~= head + mid.take(k));
    lemma_edges_bytes_add(head, mid.take(k));
}

/// A range that starts inside the edge at `i` lies inside one data edge if
/// and only if it lies inside one below that edge.
pub proof fn lemma_within_edge(edges: Seq<Arc<CordRep>>, i: int, a: int, n: int)
    requires
        0 <= i < edges.len(),
        0 <= a < edges[i].bytes().len(),
        n > 0,
    ensures
        within_one(edges_leaves(edges), start_of(edges, i) + a, n) <==> a + n <= edges[i].bytes().len()
            && within_one(leaves(edges[i]), a, n),
{
    let all = edges_leaves(edges);
    let head = edges_leaves(edges.take(i));
    let mid = leaves(edges[i]);
    let tail = edges_leaves(edges.skip(i + 1));
    let offset = start_of(edges, i) + a;
    lemma_edges_leaves_split(edges, i);
    lemma_edges_leaves_bytes(edges.take(i));
    lemma_leaves_bytes(edges[i]);
    assert(all == head + mid + tail);
    lemma_start_behind(head, mid, tail, 0);
    lemma_start_behind(head, mid, tail, mid.len() as int);
    lemma_start_ends(mid);
    if within_one(all, offset, n) {
        let k = choose|k: int|
            #![trigger all[k]]
            0 <= k < all.len() && start_of(all, k) <= offset && offset + n <= start_of(all, k)
                + all[k].bytes().len();
        lemma_start_step(all, k);
        if k < head.len() {
            lemma_start_order(all, k + 1, head.len() as int);
            assert(false);
        }
        if k >= head.len() + mid.len() {
            lemma_start_order(all, (head.len() + mid.len()) as int, k);
            assert(false);
        }
        let m = k - head.len();
        assert(all[k] == mid[m]);
        lemma_start_behind(head, mid, tail, m);
        lemma_start_step(mid, m);
    }
    if a + n <= edges[i].bytes().len() && within_one(mid, a, n) {
        let m = choose|m: int|
            #![trigger mid[m]]
            0 <= m < mid.len() && start_of(mid, m) <= a && a + n <= start_of(mid, m) + mid[m].bytes().len();
        assert(all[head.len() + m] == mid[m]);
        lemma_start_behind(head, mid, tail, m);
    }
}

impl CordRepBtree {
    /// The `n` bytes of `this` at `offset` where one data edge holds them all;
    /// nothing if `n` is zero.
    pub fn as_flat_range(this: &Arc<CordRep>, offset: usize, n: usize) -> (r: Option<&[u8]>)
        requires
            this.is_tree(this.height()),
            offset + n <= this.bytes().len(),
        ensures
            r is Some <==> n > 0 && within_one(leaves(*this), offset as int, n as int),
            r matches Some(data) ==> data@ == this.bytes().subrange(offset as int, offset + n),
        decreases this.height(),
    {
        if n == 0 {
            return None;
        }
        let node = node_of(this);
        let front = node.index_of(offset);
        let edge = &node.edges[front.index];
        let ghost i = front.index as int;
        proof {
            lemma_within_edge(node.edges@, i, front.n as int, n as int);
            lemma_fits_nonempty(node.edges@[i], node.height as int);
        }
        if edge.len() - front.n < n {
            return None;
        }
        proof {
            lemma_inside(node.edges@, i, front.n as int, n as int);
        }
        if node.height == 0 {
            proof {
                let one = leaves(node.edges@[i]);
                lemma_start_ends(one);
                assert(one[0] == node.edges@[i]);
                assert(within_one(one, front.n as int, n as int));
            }
            return Some(slice_subrange(edge_data(edge), front.n, front.n + n));
        }
        Self::as_flat_range(edge, front.n, n)
    }
}

/// The room in the data edge `edge`: what a flat block can still take.
pub open spec fn room_of(edge: CordRep) -> int {
    match edge {
        CordRep::Flat(flat) => flat.spec_capacity() - flat.data@.len(),
        _ => 0,
    }
}

/// The room in the last data edge below `rep`.
pub open spec fn last_room(rep: Arc<CordRep>) -> int {
    room_of(*leaves(rep).last())
}

/// The last data edge of a list of edges is the last one below its last edge.
pub proof fn lemma_last_leaf(node: CordRepBtree)
    requires
        node.partial(),
        node.edges@.len() > 0,
    ensures
        leaves(node.edges@.last()).len() > 0,
        edges_leaves(node.edges@).last() == leaves(node.edges@.last()).last(),
{
    lemma_edge_nonempty(node, node.edges@.len() - 1);
    lemma_leaves_valid(node.edges@.last());
    assert(edges_leaves(node.edges@) == edges_leaves(node.edges@.drop_last()) + leaves(node.edges@.last()));
}

/// How many of `len` bytes fit into the last data edge below `rep`.
pub open spec fn fitting(rep: Arc<CordRep>, len: int) -> int {
    if len <= last_room(rep) {
        len
    } else {
        last_room(rep)
    }
}

/// Whether the last data edge below `rep` and all nodes above it are held by no
/// one else just now.
fn held_alone(rep: &Arc<CordRep>) -> (alone: bool)
    requires
        rep.is_edge(),
    ensures
        !alone ==> leg_held_twice(*rep),
    decreases rep.height() + 1,
{
    if strong_count(rep) != 1 {
        return false;
    }
    match &**rep {
        CordRep::Btree(node) => {
            let last: usize = node.edges.len() - 1;
            proof {
                lemma_edge_nonempty(*node, last as int);
            }
            held_alone(&node.edges[last])
        },
        _ => true,
    }
}

/// Appends as much of `data` as fits to the last data edge below `rep`, where
/// that is a flat block and it and all nodes above it are held by no one else.
/// Returns the number of bytes appended.
pub fn append_in_place(rep: &mut Arc<CordRep>, data: &[u8]) -> (n: usize)
    requires
        old(rep).is_edge(),
        old(rep).bytes().len() + data@.len() <= usize::MAX,
    ensures
        n == fitting(*old(rep), data@.len() as int) || n == 0 && leg_held_twice(*old(rep)),
        n <= data@.len(),
        final(rep).is_edge(),
        final(rep).height() == old(rep).height(),
        final(rep).bytes() == old(rep).bytes() + data@.take(n as int),
        leaves(*final(rep)).len() == leaves(*old(rep)).len(),
        leaves(*final(rep)).drop_last() == leaves(*old(rep)).drop_last(),
{
    let private: bool = held_alone(rep);
    append_to_last(rep, data, private)
}

/// Appends as much of `data` as fits to the last data edge below `rep`, where
/// that is a flat block, if it is `private`: it and all nodes above it are held
/// by no one else. Returns the number of bytes appended.
pub fn append_to_last(rep: &mut Arc<CordRep>, data: &[u8], private: bool) -> (n: usize)
    requires
        old(rep).is_edge(),
        old(rep).bytes().len() + data@.len() <= usize::MAX,
    ensures
        n as int == if private {
            fitting(*old(rep), data@.len() as int)
        } else {
            0
        },
        0 <= fitting(*old(rep), data@.len() as int) <= data@.len(),
        final(rep).is_edge(),
        final(rep).height() == old(rep).height(),
        final(rep).bytes() == old(rep).bytes() + data@.take(n as int),
        leaves(*final(rep)).len() == leaves(*old(rep)).len(),
        leaves(*final(rep)).drop_last() == leaves(*old(rep)).drop_last(),
    decreases old(rep).height() + 1, 1int,
{
    let ghost before = *rep;
    proof {
        lemma_leaves_valid(before);
        assert(before.bytes() + data@.take(0) =~= before.bytes());
        assert(leaves(before)[leaves(before).len() - 1].is_leaf_edge());
    }
    if !private {
        return 0;
    }
    match get_mut(rep) {
        Some(CordRep::Flat(flat)) => return flat.fill(data),
        Some(CordRep::Btree(node)) => return node.append_to_last_edge(data),
        _ => {},
    }
    let (copy, n): (CordRep, usize) = match &**rep {
        CordRep::Flat(flat) => {
            let mut copy = flat.copy();
            let n: usize = copy.fill(data);
            (CordRep::Flat(copy), n)
        },
        CordRep::Btree(node) => {
            let mut copy = node.copy();
            let n: usize = copy.append_to_last_edge(data);
            (CordRep::Btree(copy), n)
        },
        _ => return 0,
    };
    *rep = Arc::new(copy);
    n
}

impl CordRepBtree {
    /// Appends as much of `data` as fits to the last data edge below this node,
    /// where that is a flat block. Returns the number of bytes appended.
    fn append_to_last_edge(&mut self, data: &[u8]) -> (n: usize)
        requires
            old(self).partial(),
            old(self).edges@.len() > 0,
            old(self).length + data@.len() <= usize::MAX,
        ensures
            n as int == if data@.len() <= room_of(*edges_leaves(old(self).edges@).last()) {
                data@.len() as int
            } else {
                room_of(*edges_leaves(old(self).edges@).last())
            },
            final(self).partial(),
            final(self).edges@.len() == old(self).edges@.len(),
            final(self).height == old(self).height,
            n <= data@.len(),
            edges_bytes(final(self).edges@) == edges_bytes(old(self).edges@) + data@.take(n as int),
            edges_leaves(final(self).edges@).len() == edges_leaves(old(self).edges@).len(),
            edges_leaves(final(self).edges@).drop_last() == edges_leaves(old(self).edges@).drop_last(),
        decreases old(self).height + 1, 0int,
    {
        let last: usize = self.edges.len() - 1;
        let ghost edges = self.edges@;
        proof {
            lemma_last_leaf(*self);
            lemma_fits_nonempty(edges[last as int], self.height as int);
            lemma_edges_bytes_split(edges, last as int);
            assert(edges.skip(last + 1) =~= Seq::<Arc<CordRep>>::empty());
        }
        let n: usize = append_to_last(&mut self.edges[last], data, true);
        self.length = self.length + n;
        proof {
            let now = self.edges@;
            assert(now.drop_last() =~= edges.drop_last());
            assert(now.last() == now[last as int]);
            assert(edges.last() == edges[last as int]);
            assert(edges_bytes(now) =~= edges_bytes(edges) + data@.take(n as int));
            let head = edges_leaves(edges.drop_last());
            assert((head + leaves(now.last())).drop_last() =~= head + leaves(now.last()).drop_last());
            assert((head + leaves(edges.last())).drop_last() =~= head + leaves(edges.last()).drop_last());
        }
        n
    }
}

} // verus!
