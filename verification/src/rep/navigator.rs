//! A position in a tree, which can be moved along its data edges.

use super::btree::{lemma_join_edge, node_of, CordRepBtree, MAX_CAPACITY};
use super::edge::{make_substring, make_substring_from};
use super::shared::{
    lemma_shares_add, lemma_shares_part, lemma_shares_same, lemma_shares_through, lemma_shares_window, shares,
};
use super::stack::lemma_fits_nonempty;
use super::subtree::{prefix_at, start_of};
use super::{
    compact, edges_bytes, edges_leaves, leaves, lemma_edge_nonempty, lemma_edges_bytes_add,
    lemma_edges_leaves_bytes, lemma_edges_leaves_split, lemma_leaves_bytes, lemma_leaves_valid,
    lemma_len_fits, CordRep,
};
use std::sync::Arc;
use vstd::prelude::*;

verus! {

/// A node on the way from the root to a data edge, and the edge to follow there.
#[derive(Clone, Copy)]
pub struct Step<'a> {
    /// The node.
    pub rep: &'a Arc<CordRep>,
    /// The index of the edge.
    pub index: usize,
}

impl<'a> Step<'a> {
    /// The edges of the node.
    pub open spec fn edges(self) -> Seq<Arc<CordRep>> {
        self.rep.node().edges@
    }

    /// The edge to follow.
    pub open spec fn edge(self) -> Arc<CordRep> {
        self.edges()[self.index as int]
    }
}

/// `path` leads from the root of `tree` downwards.
pub open spec fn valid_path(path: Seq<Step>, tree: Arc<CordRep>) -> bool {
    &&& tree.is_tree(tree.height())
    &&& path.len() <= tree.height() + 1
    &&& path.len() > 0 ==> *path[0].rep == tree
    &&& forall|k: int|
        #![trigger path[k]]
        0 <= k < path.len() ==> path[k].rep.is_tree(tree.height() - k) && path[k].index < path[k].edges().len()
    &&& forall|k: int| 0 < k < path.len() ==> #[trigger] linked(path, k)
}

/// The node at `k` is the one that the edge above it leads to.
pub open spec fn linked(path: Seq<Step>, k: int) -> bool {
    *path[k].rep == path[k - 1].edge()
}

/// The data edges of the tree before those below the last edge of `path`.
pub open spec fn before(path: Seq<Step>) -> Seq<Arc<CordRep>>
    decreases path.len(),
{
    if path.len() == 0 {
        Seq::empty()
    } else {
        before(path.drop_last()) + edges_leaves(path.last().edges().take(path.last().index as int))
    }
}

/// The data edges of the tree after those below the last edge of `path`.
pub open spec fn after(path: Seq<Step>) -> Seq<Arc<CordRep>>
    decreases path.len(),
{
    if path.len() == 0 {
        Seq::empty()
    } else {
        edges_leaves(path.last().edges().skip(path.last().index + 1)) + after(path.drop_last())
    }
}

/// A part of a path that starts at the root is a path.
pub proof fn lemma_path_up(path: Seq<Step>, tree: Arc<CordRep>)
    requires
        valid_path(path, tree),
        path.len() > 0,
    ensures
        valid_path(path.drop_last(), tree),
{
    let up = path.drop_last();
    assert forall|k: int| #![trigger up[k]] 0 <= k < up.len() implies up[k].rep.is_tree(tree.height() - k) && up[k].index
        < up[k].edges().len() by {
        assert(up[k] == path[k]);
    }
    assert forall|k: int| 0 < k < up.len() implies #[trigger] linked(up, k) by {
        assert(linked(path, k));
        assert(up[k] == path[k]);
        assert(up[k - 1] == path[k - 1]);
    }
}

/// The data edges of a tree around the last edge of a path.
pub proof fn lemma_path_split(path: Seq<Step>, tree: Arc<CordRep>)
    requires
        valid_path(path, tree),
        path.len() > 0,
    ensures
        leaves(tree) == before(path) + leaves(path.last().edge()) + after(path),
    decreases path.len(),
{
    let last = path.last();
    let up = path.drop_last();
    assert(path[path.len() - 1] == last);
    lemma_edges_leaves_split(last.edges(), last.index as int);
    if path.len() == 1 {
        assert(leaves(tree) == edges_leaves(last.edges()));
        assert(before(up) =~= Seq::<Arc<CordRep>>::empty());
        assert(after(up) =~= Seq::<Arc<CordRep>>::empty());
    } else {
        lemma_path_up(path, tree);
        lemma_path_split(up, tree);
        assert(linked(path, path.len() - 1));
        assert(*last.rep == up.last().edge());
        assert(leaves(up.last().edge()) == edges_leaves(last.edges()));
    }
    assert(leaves(tree) =~= before(path) + leaves(last.edge()) + after(path));
}

/// A path followed down one level.
pub proof fn lemma_path_down(path: Seq<Step>, tree: Arc<CordRep>, step: Step)
    requires
        valid_path(path, tree),
        path.len() <= tree.height(),
        path.len() > 0 ==> *step.rep == path.last().edge(),
        path.len() == 0 ==> *step.rep == tree,
        step.index < step.edges().len(),
    ensures
        valid_path(path.push(step), tree),
        before(path.push(step)) == before(path) + edges_leaves(step.edges().take(step.index as int)),
{
    let down = path.push(step);
    assert(down.drop_last() =~= path);
    if path.len() > 0 {
        let last = path[path.len() - 1];
        assert(path.last() == last);
        assert(last.rep.is_tree(tree.height() - (path.len() - 1)));
        assert(super::fits_below(*last.edges()[last.index as int], last.rep.height()));
    }
    assert(step.rep.is_tree(tree.height() - path.len()));
    assert forall|k: int| #![trigger down[k]] 0 <= k < down.len() implies down[k].rep.is_tree(tree.height() - k)
        && down[k].index < down[k].edges().len() by {
        if k < path.len() {
            assert(down[k] == path[k]);
        }
    }
    assert forall|k: int| 0 < k < down.len() implies #[trigger] linked(down, k) by {
        assert(down[k - 1] == path[k - 1]);
        if k < path.len() {
            assert(linked(path, k));
            assert(down[k] == path[k]);
        }
    }
}

/// The edge of `step`.
pub fn step_edge<'a>(step: Step<'a>) -> (edge: &'a Arc<CordRep>)
    requires
        **step.rep is Btree,
        step.index < step.edges().len(),
    ensures
        *edge == step.edge(),
{
    &node_of(step.rep).edges[step.index]
}

/// Moving to the next edge of the lowest node.
proof fn lemma_path_next(path: Seq<Step>, tree: Arc<CordRep>, next: Step)
    requires
        valid_path(path, tree),
        path.len() > 0,
        next.rep == path.last().rep,
        next.index == path.last().index + 1,
        next.index < next.edges().len(),
    ensures
        valid_path(path.drop_last().push(next), tree),
        before(path.drop_last().push(next)) == before(path) + leaves(path.last().edge()),
{
    let up = path.drop_last();
    let step = path.last();
    assert(path[path.len() - 1] == step);
    lemma_path_up(path, tree);
    lemma_edges_leaves_split(step.edges(), step.index as int);
    if path.len() > 1 {
        assert(linked(path, path.len() - 1));
    }
    lemma_path_down(up, tree, next);
    assert(before(up.push(next)) =~= before(path) + leaves(step.edge()));
}

/// Leaving the lowest node at its end.
proof fn lemma_path_end(path: Seq<Step>, tree: Arc<CordRep>)
    requires
        valid_path(path, tree),
        path.len() > 0,
        path.last().index + 1 == path.last().edges().len(),
    ensures
        path.len() == 1 ==> leaves(tree) == before(path) + leaves(path.last().edge()),
        path.len() > 1 ==> before(path.drop_last()) + leaves(path.drop_last().last().edge()) == before(path)
            + leaves(path.last().edge()),
{
    let up = path.drop_last();
    let step = path.last();
    let edges = step.edges();
    assert(path[path.len() - 1] == step);
    lemma_edges_leaves_split(edges, step.index as int);
    assert(edges.take(step.index + 1) =~= edges);
    if path.len() == 1 {
        assert(before(up) =~= Seq::<Arc<CordRep>>::empty());
        assert(leaves(tree) =~= before(path) + leaves(step.edge()));
    } else {
        assert(linked(path, path.len() - 1));
        assert(leaves(up.last().edge()) == edges_leaves(edges));
        assert(before(up) + leaves(up.last().edge()) =~= before(path) + leaves(step.edge()));
    }
}

/// Moves `path` to the next edge on its lowest level that has one, dropping the
/// levels below. Where there is none, `path` becomes empty.
fn advance<'a>(path: &mut Vec<Step<'a>>, tree: &'a Arc<CordRep>)
    requires
        valid_path(old(path)@, *tree),
        old(path)@.len() > 0,
    ensures
        valid_path(final(path)@, *tree),
        final(path)@.len() == 0 ==> leaves(*tree) == before(old(path)@) + leaves(old(path)@.last().edge()),
        final(path)@.len() > 0 ==> before(final(path)@) == before(old(path)@) + leaves(old(path)@.last().edge()),
        final(path)@.len() <= old(path)@.len(),
{
    let ghost target = before(path@) + leaves(path@.last().edge());
    let ghost count = path@.len();
    while path.len() > 0
        invariant
            valid_path(path@, *tree),
            path@.len() <= count,
            count == old(path)@.len(),
            target == before(old(path)@) + leaves(old(path)@.last().edge()),
            path@.len() == 0 ==> leaves(*tree) == target,
            path@.len() > 0 ==> before(path@) + leaves(path@.last().edge()) == target,
        decreases path@.len(),
    {
        let ghost now = path@;
        let step = path[path.len() - 1];
        proof {
            lemma_path_up(now, *tree);
            assert(now.last() == step);
            assert(now[now.len() - 1] == step);
        }
        path.pop();
        assert(path@ =~= now.drop_last());
        if step.index + 1 < node_of(step.rep).edges.len() {
            let next = Step { rep: step.rep, index: step.index + 1 };
            proof {
                lemma_path_next(now, *tree, next);
            }
            path.push(next);
            return;
        }
        proof {
            lemma_path_end(now, *tree);
        }
    }
}

/// Moving to the previous edge of the lowest node.
proof fn lemma_path_previous(path: Seq<Step>, tree: Arc<CordRep>, previous: Step)
    requires
        valid_path(path, tree),
        path.len() > 0,
        previous.rep == path.last().rep,
        previous.index + 1 == path.last().index,
    ensures
        valid_path(path.drop_last().push(previous), tree),
        before(path) == before(path.drop_last().push(previous)) + leaves(previous.edge()),
{
    let up = path.drop_last();
    let step = path.last();
    assert(path[path.len() - 1] == step);
    lemma_path_up(path, tree);
    lemma_edges_leaves_split(step.edges(), previous.index as int);
    if path.len() > 1 {
        assert(linked(path, path.len() - 1));
    }
    lemma_path_down(up, tree, previous);
    assert(before(path) =~= before(up.push(previous)) + leaves(previous.edge()));
}

/// Leaving the lowest node at its start.
proof fn lemma_path_start(path: Seq<Step>)
    requires
        path.len() > 0,
        path.last().index == 0,
    ensures
        before(path) == before(path.drop_last()),
{
    assert(path.last().edges().take(0) =~= Seq::<Arc<CordRep>>::empty());
    assert(before(path) =~= before(path.drop_last()));
}

/// Moves `path` to the previous edge on its lowest level that has one, dropping
/// the levels below. Where there is none, `path` becomes empty.
fn retreat<'a>(path: &mut Vec<Step<'a>>, tree: &'a Arc<CordRep>)
    requires
        valid_path(old(path)@, *tree),
        old(path)@.len() > 0,
    ensures
        valid_path(final(path)@, *tree),
        final(path)@.len() == 0 ==> before(old(path)@).len() == 0,
        final(path)@.len() > 0 ==> before(old(path)@) == before(final(path)@) + leaves(
            final(path)@.last().edge(),
        ),
        final(path)@.len() <= old(path)@.len(),
{
    while path.len() > 0
        invariant
            valid_path(path@, *tree),
            path@.len() <= old(path)@.len(),
            before(path@) == before(old(path)@),
        decreases path@.len(),
    {
        let ghost now = path@;
        let step = path[path.len() - 1];
        proof {
            lemma_path_up(now, *tree);
            assert(now.last() == step);
            assert(now[now.len() - 1] == step);
        }
        path.pop();
        assert(path@ =~= now.drop_last());
        if step.index > 0 {
            let previous = Step { rep: step.rep, index: step.index - 1 };
            proof {
                lemma_path_previous(now, *tree, previous);
            }
            path.push(previous);
            return;
        }
        proof {
            lemma_path_start(now);
        }
    }
}

/// Follows `path` down to a data edge, along the first or last edges.
fn descend<'a>(path: &mut Vec<Step<'a>>, tree: &'a Arc<CordRep>, back: bool)
    requires
        valid_path(old(path)@, *tree),
        old(path)@.len() > 0,
    ensures
        valid_path(final(path)@, *tree),
        final(path)@.len() == tree.height() + 1,
        !back ==> before(final(path)@) == before(old(path)@),
        back ==> before(final(path)@) + leaves(final(path)@.last().edge()) == before(old(path)@) + leaves(
            old(path)@.last().edge(),
        ),
{
    let height: usize = node_of(tree).height;
    while path.len() <= height
        invariant
            valid_path(path@, *tree),
            path@.len() > 0,
            height == tree.height(),
            !back ==> before(path@) == before(old(path)@),
            back ==> before(path@) + leaves(path@.last().edge()) == before(old(path)@) + leaves(
                old(path)@.last().edge(),
            ),
        decreases height + 1 - path@.len(),
    {
        let ghost now = path@;
        let step = path[path.len() - 1];
        assert(now[now.len() - 1] == step);
        let rep = step_edge(step);
        proof {
            assert(super::fits_below(*step.edges()[step.index as int], step.rep.height()));
            lemma_below_nonempty(now, *tree);
        }
        let size: usize = node_of(rep).edges.len();
        let index: usize = if back {
            size - 1
        } else {
            0
        };
        let next = Step { rep, index };
        proof {
            lemma_path_down(now, *tree, next);
            lemma_edges_leaves_split(next.edges(), index as int);
            if back {
                assert(next.edges().take(index + 1) =~= next.edges());
                assert(before(now.push(next)) + leaves(next.edge()) =~= before(now) + leaves(step.edge()));
            } else {
                assert(next.edges().take(0) =~= Seq::<Arc<CordRep>>::empty());
                assert(before(now.push(next)) =~= before(now));
            }
        }
        path.push(next);
    }
}

/// Follows `path` down to the data edge that holds the byte at `offset` of its last edge.
/// Returns the offset inside that data edge.
fn descend_to<'a>(path: &mut Vec<Step<'a>>, tree: &'a Arc<CordRep>, offset: usize) -> (inner: usize)
    requires
        valid_path(old(path)@, *tree),
        old(path)@.len() > 0,
        offset < old(path)@.last().edge().bytes().len(),
    ensures
        valid_path(final(path)@, *tree),
        final(path)@.len() == tree.height() + 1,
        edges_bytes(before(final(path)@)).len() + inner == edges_bytes(before(old(path)@)).len() + offset,
        inner < final(path)@.last().edge().bytes().len(),
{
    let height: usize = node_of(tree).height;
    let mut inner: usize = offset;
    while path.len() <= height
        invariant
            valid_path(path@, *tree),
            path@.len() > 0,
            height == tree.height(),
            edges_bytes(before(path@)).len() + inner == edges_bytes(before(old(path)@)).len() + offset,
            inner < path@.last().edge().bytes().len(),
        decreases height + 1 - path@.len(),
    {
        let ghost now = path@;
        let step = path[path.len() - 1];
        assert(now[now.len() - 1] == step);
        let rep = step_edge(step);
        proof {
            assert(super::fits_below(*step.edges()[step.index as int], step.rep.height()));
            lemma_below_nonempty(now, *tree);
        }
        let pos = node_of(rep).index_of(inner);
        let next = Step { rep, index: pos.index };
        proof {
            lemma_path_down(now, *tree, next);
            lemma_edges_bytes_add(before(now), edges_leaves(next.edges().take(pos.index as int)));
            lemma_edges_leaves_bytes(next.edges().take(pos.index as int));
        }
        inner = pos.n;
        path.push(next);
    }
    inner
}

/// A data edge and an offset inside it.
pub struct NavPosition<'a> {
    /// The edge, or nothing if the requested position is beyond the tree.
    pub edge: Option<&'a Arc<CordRep>>,
    /// The offset inside the edge.
    pub offset: usize,
}

/// Result of `CordRepBtreeNavigator::read`.
pub struct ReadResult {
    /// The bytes that were read, or nothing if the read exceeded the tree or read nothing.
    pub tree: Option<Arc<CordRep>>,
    /// Bytes used from the last navigated-to edge.
    pub n: usize,
}

/// A position at one of the data edges of a tree.
pub struct CordRepBtreeNavigator<'a> {
    /// The tree, if there is one.
    pub tree: Option<&'a Arc<CordRep>>,
    /// The way from the root to the current data edge.
    pub path: Vec<Step<'a>>,
}

impl<'a> Clone for CordRepBtreeNavigator<'a> {
    fn clone(&self) -> (copy: Self)
        ensures
            copy.tree == self.tree,
            copy.path@ == self.path@,
    {
        CordRepBtreeNavigator { tree: self.tree, path: copy_path(&self.path) }
    }
}

impl<'a> CordRepBtreeNavigator<'a> {
    /// The path leads to a data edge of the tree.
    pub open spec fn wf(self) -> bool {
        match self.tree {
            Some(tree) => valid_path(self.path@, *tree) && self.path@.len() == tree.height() + 1,
            None => self.path@.len() == 0,
        }
    }

    /// The data edges of the tree.
    pub open spec fn edges(self) -> Seq<Arc<CordRep>> {
        match self.tree {
            Some(tree) => leaves(*tree),
            None => Seq::empty(),
        }
    }

    /// The index of the current data edge.
    pub open spec fn position(self) -> int {
        before(self.path@).len() as int
    }

    /// The navigator is at the data edge of index `i` of `tree`.
    pub open spec fn at(self, tree: Arc<CordRep>, i: int) -> bool {
        &&& self.wf()
        &&& self.tree matches Some(own) && *own == tree
        &&& self.position() == i
        &&& 0 <= i < leaves(tree).len()
    }

    /// The number of bytes before the current data edge.
    pub open spec fn offset(self) -> int {
        start_of(self.edges(), self.position())
    }

    /// The current data edge stands at its index among the data edges of the tree.
    pub proof fn lemma_current(self)
        requires
            self.wf(),
            self.tree is Some,
        ensures
            0 <= self.position() < self.edges().len(),
            self.edges()[self.position()] == self.path@.last().edge(),
            self.edges()[self.position()].is_leaf_edge(),
            leaves(self.path@.last().edge()) == seq![self.path@.last().edge()],
            before(self.path@) == self.edges().take(self.position()),
            self.offset() == edges_bytes(before(self.path@)).len(),
    {
        let tree = *self.tree->0;
        let step = self.path@.last();
        lemma_path_split(self.path@, tree);
        assert(self.path@[self.path@.len() - 1] == step);
        assert(super::fits_below(*step.edges()[step.index as int], step.rep.height()));
        assert(leaves(step.edge()) == seq![step.edge()]);
        assert(before(self.path@) =~= self.edges().take(self.position()));
    }

    /// An empty navigator.
    pub fn new() -> (nav: CordRepBtreeNavigator<'a>)
        ensures
            nav.wf(),
            nav.tree is None,
    {
        CordRepBtreeNavigator { tree: None, path: Vec::new() }
    }

    /// Whether there is a tree.
    pub fn is_some(&self) -> (r: bool)
        ensures
            r == (self.tree is Some),
    {
        self.tree.is_some()
    }

    /// The tree, if there is one.
    pub fn btree(&self) -> (tree: Option<&'a Arc<CordRep>>)
        ensures
            tree == self.tree,
    {
        self.tree
    }

    /// The data edge at the current position.
    pub fn current(&self) -> (edge: &'a Arc<CordRep>)
        requires
            self.wf(),
            self.tree is Some,
        ensures
            *edge == self.edges()[self.position()],
            edge.is_leaf_edge(),
            0 <= self.position() < self.edges().len(),
    {
        proof {
            self.lemma_current();
        }
        step_edge(self.path[self.path.len() - 1])
    }

    /// Resets to the empty state.
    pub fn reset(&mut self)
        ensures
            final(self).wf(),
            final(self).tree is None,
    {
        self.tree = None;
        self.path = Vec::new();
    }

    /// Resets to `tree`, and returns its first data edge.
    pub fn init_first(&mut self, tree: &'a Arc<CordRep>) -> (edge: &'a Arc<CordRep>)
        requires
            tree.is_tree(tree.height()),
        ensures
            final(self).at(*tree, 0),
            *edge == leaves(*tree)[0],
            edge.is_leaf_edge(),
    {
        self.init(tree, false)
    }

    /// Resets to `tree`, and returns its last data edge.
    pub fn init_last(&mut self, tree: &'a Arc<CordRep>) -> (edge: &'a Arc<CordRep>)
        requires
            tree.is_tree(tree.height()),
        ensures
            final(self).at(*tree, leaves(*tree).len() - 1),
            *edge == leaves(*tree).last(),
            edge.is_leaf_edge(),
    {
        self.init(tree, true)
    }

    /// Resets to the first or last data edge of `tree`.
    fn init(&mut self, tree: &'a Arc<CordRep>, back: bool) -> (edge: &'a Arc<CordRep>)
        requires
            tree.is_tree(tree.height()),
        ensures
            final(self).at(*tree, if back { leaves(*tree).len() - 1 } else { 0 }),
            *edge == leaves(*tree)[if back { leaves(*tree).len() - 1 } else { 0 }],
            edge.is_leaf_edge(),
    {
        let size: usize = node_of(tree).edges.len();
        let index: usize = if back {
            size - 1
        } else {
            0
        };
        let first = Step { rep: tree, index };
        let mut path: Vec<Step<'a>> = Vec::new();
        proof {
            lemma_path_down(path@, *tree, first);
            lemma_edges_leaves_split(first.edges(), index as int);
            if back {
                assert(first.edges().take(index + 1) =~= first.edges());
            } else {
                assert(first.edges().take(0) =~= Seq::<Arc<CordRep>>::empty());
            }
        }
        path.push(first);
        assert(path@ =~= Seq::<Step<'a>>::empty().push(first));
        descend(&mut path, tree, back);
        self.tree = Some(tree);
        self.path = path;
        proof {
            self.lemma_current();
        }
        self.current()
    }

    /// Resets to the data edge of `tree` that holds the byte at `offset`. The
    /// navigator stays as it is where `offset` is beyond the tree.
    pub fn init_offset(&mut self, tree: &'a Arc<CordRep>, offset: usize) -> (pos: NavPosition<'a>)
        requires
            tree.is_tree(tree.height()),
        ensures
            offset >= tree.bytes().len() ==> pos.edge is None && pos.offset == 0 && *final(self) == *old(self),
            offset < tree.bytes().len() ==> final(self).at_offset(*tree, offset as int, pos),
    {
        if offset >= tree.len() {
            return NavPosition { edge: None, offset: 0 };
        }
        let at = node_of(tree).index_of(offset);
        let first = Step { rep: tree, index: at.index };
        let mut path: Vec<Step<'a>> = Vec::new();
        proof {
            lemma_path_down(path@, *tree, first);
            lemma_edges_leaves_bytes(first.edges().take(at.index as int));
            assert(before(path@) + edges_leaves(first.edges().take(at.index as int)) =~= edges_leaves(
                first.edges().take(at.index as int),
            ));
        }
        path.push(first);
        let inner: usize = descend_to(&mut path, tree, at.n);
        self.tree = Some(tree);
        self.path = path;
        proof {
            self.lemma_current();
        }
        NavPosition { edge: Some(self.current()), offset: inner }
    }

    /// The navigator is at the data edge of `tree` that holds the byte at
    /// `offset`, and `pos` is that byte's position.
    pub open spec fn at_offset(self, tree: Arc<CordRep>, offset: int, pos: NavPosition<'a>) -> bool {
        &&& self.at(tree, self.position())
        &&& pos.edge matches Some(edge) && *edge == leaves(tree)[self.position()] && pos.offset < edge.bytes().len()
        &&& self.offset() + pos.offset == offset
    }

    /// Moves to the data edge that holds the byte at `offset`. The navigator
    /// stays as it is where `offset` is beyond the tree.
    pub fn seek(&mut self, offset: usize) -> (pos: NavPosition<'a>)
        requires
            old(self).wf(),
            old(self).tree is Some,
        ensures
            offset >= old(self).tree->0.bytes().len() ==> pos.edge is None && pos.offset == 0 && *final(self)
                == *old(self),
            offset < old(self).tree->0.bytes().len() ==> final(self).at_offset(
                *old(self).tree->0,
                offset as int,
                pos,
            ),
    {
        let tree = self.tree.unwrap();
        self.init_offset(tree, offset)
    }

    /// Moves to the next data edge. The navigator stays as it is at the last one.
    pub fn next(&mut self) -> (edge: Option<&'a Arc<CordRep>>)
        requires
            old(self).wf(),
            old(self).tree is Some,
        ensures
            old(self).position() + 1 < old(self).edges().len() ==> {
                &&& final(self).at(*old(self).tree->0, old(self).position() + 1)
                &&& edge matches Some(edge) && *edge == old(self).edges()[old(self).position() + 1]
            },
            old(self).position() + 1 == old(self).edges().len() ==> edge is None && *final(self) == *old(self),
    {
        proof {
            self.lemma_current();
        }
        let tree = self.tree.unwrap();
        let mut path = copy_path(&self.path);
        advance(&mut path, tree);
        if path.len() == 0 {
            return None;
        }
        proof {
            lemma_path_split(path@, *tree);
            lemma_below_nonempty(path@, *tree);
        }
        descend(&mut path, tree, false);
        self.path = path;
        Some(self.current())
    }

    /// Moves to the previous data edge. The navigator stays as it is at the first one.
    pub fn previous(&mut self) -> (edge: Option<&'a Arc<CordRep>>)
        requires
            old(self).wf(),
            old(self).tree is Some,
        ensures
            old(self).position() > 0 ==> {
                &&& final(self).at(*old(self).tree->0, old(self).position() - 1)
                &&& edge matches Some(edge) && *edge == old(self).edges()[old(self).position() - 1]
            },
            old(self).position() == 0 ==> edge is None && *final(self) == *old(self),
    {
        proof {
            self.lemma_current();
        }
        let tree = self.tree.unwrap();
        let mut path = copy_path(&self.path);
        retreat(&mut path, tree);
        if path.len() == 0 {
            return None;
        }
        proof {
            lemma_below_nonempty(path@, *tree);
        }
        descend(&mut path, tree, true);
        self.path = path;
        proof {
            self.lemma_current();
        }
        Some(self.current())
    }

    /// Moves `n` bytes on from the start of the current data edge. The
    /// navigator stays as it is where that is beyond the tree; the offset
    /// is then the number of bytes that are missing.
    pub fn skip(&mut self, n: usize) -> (pos: NavPosition<'a>)
        requires
            old(self).wf(),
            old(self).tree is Some,
        ensures
            old(self).offset() + n < old(self).tree->0.bytes().len() ==> final(self).at_offset(
                *old(self).tree->0,
                old(self).offset() + n,
                pos,
            ),
            old(self).offset() + n >= old(self).tree->0.bytes().len() ==> {
                &&& pos.edge is None
                &&& pos.offset == old(self).offset() + n - old(self).tree->0.bytes().len()
                &&& *final(self) == *old(self)
            },
    {
        proof {
            self.lemma_current();
            lemma_leaves_bytes(*self.tree->0);
        }
        let ghost target = self.offset() + n;
        let tree = self.tree.unwrap();
        let mut path = copy_path(&self.path);
        let mut left: usize = n;
        let mut edge = step_edge(path[path.len() - 1]);
        while left >= edge.len()
            invariant
                valid_path(path@, *tree),
                path@.len() > 0,
                *edge == path@.last().edge(),
                edge.wf(),
                edges_bytes(before(path@)).len() + left == target,
                edges_bytes(leaves(*tree)) == tree.bytes(),
                self.tree == Some(tree),
                *self == *old(self),
                target == old(self).offset() + n,
            decreases after(path@).len(),
        {
            left = left - edge.len();
            proof {
                lemma_edges_bytes_add(before(path@), leaves(path@.last().edge()));
                lemma_leaves_bytes(*edge);
                lemma_path_split(path@, *tree);
            }
            advance(&mut path, tree);
            if path.len() == 0 {
                return NavPosition { edge: None, offset: left };
            }
            proof {
                lemma_below_nonempty(path@, *tree);
                lemma_path_split(path@, *tree);
            }
            edge = step_edge(path[path.len() - 1]);
        }
        proof {
            lemma_path_split(path@, *tree);
            lemma_edges_bytes_add(before(path@), leaves(path@.last().edge()));
            lemma_edges_bytes_add(before(path@) + leaves(path@.last().edge()), after(path@));
            lemma_leaves_bytes(*edge);
        }
        let inner: usize = descend_to(&mut path, tree, left);
        self.path = path;
        proof {
            self.lemma_current();
        }
        NavPosition { edge: Some(self.current()), offset: inner }
    }
}

/// The bytes of a tree around the last edge of a path.
proof fn lemma_path_bytes(path: Seq<Step>, tree: Arc<CordRep>)
    requires
        valid_path(path, tree),
        path.len() > 0,
    ensures
        tree.bytes() == edges_bytes(before(path)) + path.last().edge().bytes() + edges_bytes(after(path)),
        edges_bytes(before(path) + leaves(path.last().edge())) == edges_bytes(before(path))
            + path.last().edge().bytes(),
{
    let edge = path.last().edge();
    lemma_path_split(path, tree);
    lemma_leaves_bytes(tree);
    lemma_leaves_bytes(edge);
    lemma_edges_bytes_add(before(path), leaves(edge));
    lemma_edges_bytes_add(before(path) + leaves(edge), after(path));
}

/// The number of bytes of the tree up to the end of the last edge of `path`.
spec fn end_of(path: Seq<Step>) -> int {
    edges_bytes(before(path) + leaves(path.last().edge())).len() as int
}

/// `subtree` holds the bytes `[start, end)` of `tree`, where `end` is where the
/// last edge of `path` ends.
spec fn collects(subtree: CordRepBtree, path: Seq<Step>, tree: Arc<CordRep>, start: int) -> bool {
    &&& valid_path(path, tree)
    &&& path.len() > 0
    &&& subtree.partial()
    &&& subtree.edges@.len() > 0
    &&& 0 <= start < end_of(path) <= tree.bytes().len()
    &&& edges_bytes(subtree.edges@) == tree.bytes().subrange(start, end_of(path))
    &&& shares(edges_leaves(subtree.edges@), leaves(tree))
}

/// `subtree` stands on the level of the last node of `path`, and has room for
/// the edges that follow there.
spec fn level_with(subtree: CordRepBtree, path: Seq<Step>, tree: Arc<CordRep>) -> bool {
    &&& subtree.height == tree.height() + 1 - path.len()
    &&& subtree.edges@.len() <= path.last().index + 1
}

/// Goes up from the last edges of nodes to the first level of `path` with a next
/// edge, and puts a node above `subtree` for each level where there is more to read.
/// Where there is no such level, `path` becomes empty.
fn climb<'a>(
    subtree: CordRepBtree,
    path: &mut Vec<Step<'a>>,
    tree: &'a Arc<CordRep>,
    more: bool,
    Ghost(start): Ghost<int>,
) -> (raised: CordRepBtree)
    requires
        collects(subtree, old(path)@, *tree, start),
        more ==> level_with(subtree, old(path)@, *tree),
    ensures
        edges_leaves(raised.edges@) == edges_leaves(subtree.edges@),
        !more ==> raised == subtree,
        final(path)@.len() == 0 ==> {
            &&& end_of(old(path)@) == tree.bytes().len()
            &&& raised.partial()
            &&& raised.edges@.len() > 0
            &&& edges_bytes(raised.edges@) == tree.bytes().skip(start)
            &&& shares(edges_leaves(raised.edges@), leaves(*tree))
        },
        final(path)@.len() > 0 ==> {
            &&& collects(raised, final(path)@, *tree, start)
            &&& end_of(final(path)@) == end_of(old(path)@)
            &&& more ==> level_with(raised, final(path)@, *tree)
            &&& final(path)@.last().index + 1 < final(path)@.last().edges().len()
        },
{
    let ghost end = end_of(path@);
    let mut grown = subtree;
    loop
        invariant
            edges_leaves(grown.edges@) == edges_leaves(subtree.edges@),
            !more ==> grown == subtree,
            collects(grown, path@, *tree, start),
            end_of(path@) == end,
            end == end_of(old(path)@),
            more ==> level_with(grown, path@, *tree),
        decreases path@.len(),
    {
        let ghost now = path@;
        let step = path[path.len() - 1];
        assert(now[now.len() - 1] == step);
        if step.index + 1 < node_of(step.rep).edges.len() {
            return grown;
        }
        proof {
            lemma_path_up(now, *tree);
            lemma_path_end(now, *tree);
            lemma_leaves_bytes(*tree);
        }
        path.pop();
        assert(path@ =~= now.drop_last());
        if path.len() == 0 {
            assert(tree.bytes().subrange(start, end) =~= tree.bytes().skip(start));
            return grown;
        }
        if more {
            let height: usize = grown.height;
            let rep = Arc::new(CordRep::Btree(grown));
            proof {
                lemma_fits_nonempty(rep, height + 1);
                lemma_join_edge(true, Seq::empty(), rep);
                assert(path@[path@.len() - 1] == path@.last());
            }
            let mut above = CordRepBtree::new_node(height + 1);
            above.add_one(true, rep);
            assert(edges_bytes(above.edges@) =~= rep.bytes());
            assert(edges_leaves(above.edges@) =~= leaves(rep));
            grown = above;
        }
    }
}

impl<'a> CordRepBtreeNavigator<'a> {
    /// Reads `n` bytes from `edge_offset` of the current data edge on, and
    /// moves to the data edge behind them. The navigator stays as it is where
    /// there is none. There is no result where `n` is zero, or where the bytes
    /// exceed the tree: then the number of missing bytes is returned.
    pub fn read(&mut self, edge_offset: usize, n: usize) -> (r: ReadResult)
        requires
            old(self).wf(),
            old(self).tree is Some,
            edge_offset < old(self).edges()[old(self).position()].bytes().len(),
            edge_offset + n <= usize::MAX,
        ensures
            final(self).wf(),
            final(self).tree == old(self).tree,
            edge_offset + n < old(self).edges()[old(self).position()].bytes().len() ==> *final(self) == *old(
                self,
            ),
            ({
                let all = old(self).tree->0.bytes();
                let start = old(self).offset() + edge_offset;
                &&& r.tree is Some <==> n > 0 && start + n <= all.len()
                &&& r.tree matches Some(part) ==> {
                    &&& part.is_edge()
                    &&& part.bytes() == all.subrange(start, start + n)
                    &&& shares(leaves(part), old(self).edges())
                    &&& compact(part)
                    &&& part.height() <= old(self).tree->0.height()
                }
                &&& start + n < all.len() ==> {
                    &&& final(self).offset() + r.n == start + n
                    &&& r.n < final(self).edges()[final(self).position()].bytes().len()
                }
                &&& start + n >= all.len() ==> {
                    &&& r.n == start + n - all.len()
                    &&& *final(self) == *old(self)
                }
            }),
    {
        proof {
            self.lemma_current();
            lemma_path_bytes(self.path@, *self.tree->0);
        }
        let tree = self.tree.unwrap();
        let ghost all = tree.bytes();
        let ghost start = self.offset() + edge_offset;
        let edge = self.current();
        if edge_offset + n < edge.len() {
            let part = make_substring(edge.clone(), edge_offset, n);
            proof {
                if n > 0 {
                    assert(edge.bytes().subrange(edge_offset as int, edge_offset + n) =~= all.subrange(
                        start,
                        start + n,
                    ));
                    lemma_shares_window(*edge, part->0);
                    lemma_path_shares(self.path@, *tree, leaves(part->0));
                }
            }
            return ReadResult { tree: part, n: edge_offset + n };
        }
        let mut path = copy_path(&self.path);
        let first = make_substring_from(edge.clone(), edge_offset);
        let mut left: usize = edge_offset + n - edge.len();
        let mut subtree = CordRepBtree::new_node(0);
        proof {
            lemma_join_edge(true, Seq::empty(), first);
            assert(Seq::<u8>::empty() + first.bytes() =~= all.subrange(start, end_of(path@)));
            lemma_len_fits(first);
            lemma_shares_window(*edge, first);
            lemma_path_shares(path@, *tree, leaves(first));
            assert(Seq::<Arc<CordRep>>::empty() + leaves(first) =~= leaves(first));
        }
        subtree.add_one(true, first);
        let mut edge = edge;
        loop
            invariant_except_break
                collects(subtree, path@, *tree, start),
                end_of(path@) + left == start + n,
                level_with(subtree, path@, *tree),
                edges_leaves(subtree.edges@).len() > 0,
                subtree.height > 0 ==> edges_leaves(subtree.edges@).len() > 1,
                subtree.height <= tree.height(),
            invariant
                all == tree.bytes(),
                self.tree == Some(tree),
                *self == *old(self),
                self.wf(),
                start == old(self).offset() + edge_offset,
                n > 0,
            ensures
                valid_path(path@, *tree),
                path@.len() > 0,
                *edge == path@.last().edge(),
                edge.wf(),
                subtree.partial(),
                subtree.edges@.len() > 0,
                edges_bytes(subtree.edges@) == all.subrange(start, edges_bytes(before(path@)).len() as int),
                shares(edges_leaves(subtree.edges@), leaves(*tree)),
                edges_leaves(subtree.edges@).len() > 0,
                left == 0 && subtree.height > 0 ==> edges_leaves(subtree.edges@).len() > 1,
                subtree.height <= tree.height(),
                0 <= start < edges_bytes(before(path@)).len() <= all.len(),
                edges_bytes(before(path@)).len() + left == start + n,
                left < edge.bytes().len(),
                left > 0 ==> subtree.edges@.len() < MAX_CAPACITY && subtree.height == tree.height() + 1 - path@.len(),
            decreases left,
        {
            subtree = climb(subtree, &mut path, tree, left > 0, Ghost(start));
            if path.len() == 0 {
                assert(all.subrange(start, all.len() as int) =~= all.skip(start));
                if left == 0 {
                    let part = Arc::new(CordRep::Btree(subtree));
                    proof {
                        lemma_fits_nonempty(part, part.height() + 1);
                    }
                    return ReadResult { tree: Some(part), n: 0 };
                }
                return ReadResult { tree: None, n: left };
            }
            let ghost now = path@;
            let step = path[path.len() - 1];
            path.pop();
            let next = Step { rep: step.rep, index: step.index + 1 };
            proof {
                assert(now[now.len() - 1] == step);
                assert(path@ =~= now.drop_last());
                lemma_path_next(now, *tree, next);
                lemma_below_nonempty(path@.push(next), *tree);
                lemma_path_bytes(path@.push(next), *tree);
            }
            path.push(next);
            edge = step_edge(next);
            proof {
                assert(path@.last() == next);
                assert(super::fits_below(*next.edges()[next.index as int], next.rep.height()));
            }
            if left < edge.len() {
                break;
            }
            left = left - edge.len();
            proof {
                let end = end_of(now);
                lemma_join_edge(true, subtree.edges@, *edge);
                assert(all.subrange(start, end) + edge.bytes() =~= all.subrange(start, end_of(path@)));
                lemma_shares_same(leaves(*edge));
                lemma_path_shares(path@, *tree, leaves(*edge));
                lemma_shares_add(edges_leaves(subtree.edges@), leaves(*edge), leaves(*tree));
            }
            subtree.add_one(true, edge.clone());
        }
        if left > 0 {
            let ghost end = edges_bytes(before(path@)).len() as int;
            let height: usize = subtree.height;
            proof {
                assert(path@[path@.len() - 1] == path@.last());
                assert(super::fits_below(
                    *path@.last().edges()[path@.last().index as int],
                    path@.last().rep.height(),
                ));
                lemma_path_bytes(path@, *tree);
            }
            let part = if height == 0 {
                assert(edge.bytes().subrange(0, left as int) =~= edge.bytes().take(left as int));
                let part = make_substring(edge.clone(), 0, left).unwrap();
                proof {
                    lemma_shares_window(*edge, part);
                }
                part
            } else {
                prefix_at(node_of(edge), left)
            };
            proof {
                lemma_join_edge(true, subtree.edges@, part);
                assert(all.subrange(start, end) + part.bytes() =~= all.subrange(start, start + n));
                lemma_path_shares(path@, *tree, leaves(part));
                lemma_shares_add(edges_leaves(subtree.edges@), leaves(part), leaves(*tree));
                lemma_fits_nonempty(part, height as int);
                lemma_leaves_valid(part);
            }
            subtree.add_one(true, part);
        }
        let whole = Arc::new(CordRep::Btree(subtree));
        proof {
            lemma_fits_nonempty(whole, whole.height() + 1);
            lemma_path_bytes(path@, *tree);
        }
        let inner: usize = descend_to(&mut path, tree, left);
        self.path = path;
        proof {
            self.lemma_current();
        }
        ReadResult { tree: Some(whole), n: inner }
    }
}

/// What shares the blocks below the last edge of a path shares those of the tree.
proof fn lemma_path_shares(path: Seq<Step>, tree: Arc<CordRep>, parts: Seq<Arc<CordRep>>)
    requires
        valid_path(path, tree),
        path.len() > 0,
        shares(parts, leaves(path.last().edge())),
    ensures
        shares(parts, leaves(tree)),
{
    let below = leaves(path.last().edge());
    lemma_path_split(path, tree);
    lemma_shares_part(before(path), below, after(path));
    lemma_shares_through(parts, below, leaves(tree));
}

/// There is a data edge below the last edge of a path.
proof fn lemma_below_nonempty(path: Seq<Step>, tree: Arc<CordRep>)
    requires
        valid_path(path, tree),
        path.len() > 0,
    ensures
        leaves(path.last().edge()).len() > 0,
        path.last().edge().is_edge(),
{
    let step = path.last();
    assert(path[path.len() - 1] == step);
    lemma_edge_nonempty(step.rep.node(), step.index as int);
    lemma_leaves_valid(step.edge());
}

/// A copy of `path`.
fn copy_path<'a>(path: &Vec<Step<'a>>) -> (copy: Vec<Step<'a>>)
    ensures
        copy@ == path@,
{
    let mut copy: Vec<Step<'a>> = Vec::with_capacity(path.len());
    let mut i: usize = 0;
    while i < path.len()
        invariant
            i <= path@.len(),
            copy@ =~= path@.take(i as int),
        decreases path@.len() - i,
    {
        copy.push(path[i]);
        i += 1;
    }
    assert(copy@ =~= path@);
    copy
}

} // verus!
