//! The outer "leg" of a tree, taken apart for a change at its lower end.

use super::btree::{lemma_join_edge, node_of, CordRepBtree, MAX_CAPACITY, MAX_HEIGHT};
use super::rebuild::{packed, rebuild_pair};
use super::share::{get_mut, leg_held_twice};
use super::{
    edges_bytes, edges_leaves, fits_below, leaves, lemma_edge_nonempty, lemma_edges_bytes_add,
    lemma_edges_bytes_split, lemma_edges_leaves_bytes, lemma_leaves_bytes, CordRep,
};
use crate::seqs::{join, lemma_join_assoc};
use std::sync::Arc;
use vstd::prelude::*;

verus! {

/// Effect of a change of a node.
pub enum OpResult {
    /// The node holds the change, in place or as a copy.
    Updated(Arc<CordRep>),
    /// The node had no room: it is the same as before, and a new node of its
    /// height stands beside it.
    Popped(Arc<CordRep>, Arc<CordRep>),
}

impl OpResult {
    /// The data edges `ext` were added to a node of height `height` that held `inner`.
    pub open spec fn adds(
        self,
        back: bool,
        inner: Seq<Arc<CordRep>>,
        ext: Seq<Arc<CordRep>>,
        height: int,
    ) -> bool {
        match self {
            OpResult::Updated(tree) => {
                &&& tree.is_tree(height)
                &&& leaves(tree) == join(back, inner, ext)
            },
            OpResult::Popped(node, leg) => {
                &&& node.is_tree(height)
                &&& leg.is_tree(height)
                &&& leaves(node) == inner
                &&& leaves(leg) == ext
            },
        }
    }
}

/// A node above the lower end of the leg.
pub struct Level {
    /// The node. Where it is `owned`, its edge on the leg was taken out.
    pub parent: Arc<CordRep>,
    /// The node and all nodes above it are held by this tree only.
    pub owned: bool,
}

impl Level {
    /// The node.
    pub open spec fn node(self) -> CordRepBtree {
        self.parent.node()
    }

    /// The edges of the node beside the leg.
    pub open spec fn others(self, back: bool) -> Seq<Arc<CordRep>> {
        if self.owned {
            self.node().edges@
        } else if back {
            self.node().edges@.drop_last()
        } else {
            self.node().edges@.drop_first()
        }
    }

    /// The node is valid but for the edge that was taken out.
    pub open spec fn valid(self) -> bool {
        &&& *self.parent is Btree
        &&& if self.owned {
            self.node().partial() && self.node().edges@.len() < MAX_CAPACITY
        } else {
            self.parent.wf()
        }
    }
}

/// The data edges of the tree that `levels` came from, if the lower end of the
/// leg holds the data edges `inner`.
pub open spec fn whole(back: bool, levels: Seq<Level>, inner: Seq<Arc<CordRep>>) -> Seq<Arc<CordRep>>
    decreases levels.len(),
{
    if levels.len() == 0 {
        inner
    } else {
        whole(
            back,
            levels.drop_last(),
            join(back, edges_leaves(levels.last().others(back)), inner),
        )
    }
}

/// `levels` is a leg above a node of height `height` that held `inner`.
pub open spec fn leg(back: bool, levels: Seq<Level>, inner: Seq<Arc<CordRep>>, height: int) -> bool {
    forall|k: int|
        #![trigger levels[k]]
        0 <= k < levels.len() ==> {
            &&& levels[k].valid()
            &&& levels[k].node().height == height + levels.len() - k
            &&& !levels[k].owned ==> leaves(levels[k].parent) == whole(back, levels.skip(k), inner)
        }
}

/// What is added at the lower end of a leg is added to the whole tree.
pub proof fn lemma_whole_join(
    back: bool,
    levels: Seq<Level>,
    inner: Seq<Arc<CordRep>>,
    ext: Seq<Arc<CordRep>>,
)
    ensures
        whole(back, levels, join(back, inner, ext)) == join(back, whole(back, levels, inner), ext),
    decreases levels.len(),
{
    if levels.len() > 0 {
        let beside = edges_leaves(levels.last().others(back));
        lemma_whole_join(back, levels.drop_last(), join(back, beside, inner), ext);
        lemma_join_assoc(back, beside, inner, ext);
    }
}

/// A part of a tree is no longer than the tree.
pub proof fn lemma_whole_len(back: bool, levels: Seq<Level>, inner: Seq<Arc<CordRep>>)
    ensures
        edges_bytes(inner).len() <= edges_bytes(whole(back, levels, inner)).len(),
    decreases levels.len(),
{
    if levels.len() > 0 {
        let beside = edges_leaves(levels.last().others(back));
        lemma_whole_len(back, levels.drop_last(), join(back, beside, inner));
        lemma_edges_bytes_add(beside, inner);
        lemma_edges_bytes_add(inner, beside);
    }
}

/// Going up one level leaves a leg.
pub proof fn lemma_leg_up(back: bool, levels: Seq<Level>, inner: Seq<Arc<CordRep>>, height: int)
    requires
        leg(back, levels, inner, height),
        levels.len() > 0,
    ensures
        leg(
            back,
            levels.drop_last(),
            join(back, edges_leaves(levels.last().others(back)), inner),
            height + 1,
        ),
        !levels.last().owned ==> leaves(levels.last().parent) == join(
            back,
            edges_leaves(levels.last().others(back)),
            inner,
        ),
{
    let up = levels.drop_last();
    let last = levels.len() - 1;
    let beside = edges_leaves(levels.last().others(back));
    assert forall|k: int| #![trigger up[k]] 0 <= k < up.len() implies {
        &&& up[k].valid()
        &&& up[k].node().height == height + 1 + up.len() - k
        &&& !up[k].owned ==> leaves(up[k].parent) == whole(back, up.skip(k), join(back, beside, inner))
    } by {
        assert(up[k] == levels[k]);
        assert(levels.skip(k).drop_last() =~= up.skip(k));
        assert(levels.skip(k).last() == levels.last());
    }
    assert(levels[last] == levels.last());
    assert(levels.skip(last) =~= seq![levels.last()]);
    assert(levels.skip(last).drop_last() =~= Seq::<Level>::empty());
    reveal_with_fuel(whole, 2);
}

/// Going down one level leaves a leg.
pub proof fn lemma_leg_down(
    back: bool,
    levels: Seq<Level>,
    level: Level,
    inner: Seq<Arc<CordRep>>,
    height: int,
)
    requires
        level.valid(),
        level.node().height == height + 1,
        !level.owned ==> leaves(level.parent) == join(back, edges_leaves(level.others(back)), inner),
        leg(back, levels, join(back, edges_leaves(level.others(back)), inner), height + 1),
    ensures
        leg(back, levels.push(level), inner, height),
        whole(back, levels.push(level), inner) == whole(
            back,
            levels,
            join(back, edges_leaves(level.others(back)), inner),
        ),
{
    let down = levels.push(level);
    let beside = edges_leaves(level.others(back));
    assert(down.drop_last() =~= levels);
    reveal_with_fuel(whole, 2);
    assert forall|k: int| #![trigger down[k]] 0 <= k < down.len() implies {
        &&& down[k].valid()
        &&& down[k].node().height == height + down.len() - k
        &&& !down[k].owned ==> leaves(down[k].parent) == whole(back, down.skip(k), inner)
    } by {
        if k < levels.len() {
            assert(down[k] == levels[k]);
            assert(down.skip(k).drop_last() =~= levels.skip(k));
            assert(down.skip(k).last() == level);
        } else {
            assert(down.skip(k) =~= seq![level]);
            assert(down.skip(k).drop_last() =~= Seq::<Level>::empty());
        }
    }
}

/// The left-most or right-most leg of a tree, from the root downwards.
pub struct StackOperations {
    /// The leg is the right-most one.
    pub back: bool,
    /// The nodes of the leg, from the root downwards, without its lower end.
    pub stack: Vec<Level>,
}

impl StackOperations {
    /// Takes the leg of `depth` levels below the root out of `tree`, and
    /// returns it with the node at its lower end. Nodes stay in place up to
    /// the first one that someone else holds too.
    pub fn build_stack(tree: Arc<CordRep>, back: bool, depth: usize) -> (r: (StackOperations, Arc<CordRep>))
        requires
            tree.is_tree(tree.height()),
            depth <= tree.height(),
        ensures
            r.0.back == back,
            r.0.stack@.len() == depth,
            r.1.is_tree(tree.height() - depth),
            leg(back, r.0.stack@, leaves(r.1), r.1.height()),
            whole(back, r.0.stack@, leaves(r.1)) == leaves(tree),
            depth == 0 ==> r.1 == tree,
            back && leg_held_twice(r.1) ==> leg_held_twice(tree),
            back && !leg_held_twice(tree) ==> forall|k: int|
                #![trigger r.0.stack@[k]]
                0 <= k < r.0.stack@.len() ==> r.0.stack@[k].owned,
    {
        let mut stack: Vec<Level> = Vec::new();
        let mut current = tree;
        let mut left: usize = depth;
        while left > 0
            invariant
                left <= depth <= tree.height(),
                stack@.len() == depth - left,
                current.is_tree(tree.height() - (depth - left)),
                leg(back, stack@, leaves(current), current.height()),
                whole(back, stack@, leaves(current)) == leaves(tree),
                left == depth ==> current == tree,
                back && leg_held_twice(current) ==> leg_held_twice(tree),
                back && !leg_held_twice(tree) ==> forall|k: int|
                    #![trigger stack@[k]]
                    0 <= k < stack@.len() ==> stack@[k].owned,
            decreases left,
        {
            let ghost top = current;
            let ghost edges = current.node().edges@;
            let mut parent = current;
            let taken: Option<Arc<CordRep>> = match get_mut(&mut parent) {
                Some(CordRep::Btree(node)) => Some(node.take_edge(back)),
                _ => None,
            };
            let (child, owned): (Arc<CordRep>, bool) = match taken {
                Some(child) => (child, true),
                None => (outer_edge(&parent, back), false),
            };
            let level = Level { parent, owned };
            proof {
                assert(edges =~= join(back, level.others(back), seq![child]));
                lemma_join_edge(back, level.others(back), child);
                assert(child.is_tree(top.height() - 1));
                lemma_leg_down(back, stack@, level, leaves(child), child.height());
            }
            stack.push(level);
            current = child;
            left = left - 1;
        }
        (StackOperations { back, stack }, current)
    }

    /// Puts the changed node at the lower end back into the tree. `inner` is
    /// what the node held before, and `ext` what was added.
    pub fn unwind(
        self,
        result: OpResult,
        Ghost(inner): Ghost<Seq<Arc<CordRep>>>,
        Ghost(ext): Ghost<Seq<Arc<CordRep>>>,
        Ghost(height): Ghost<int>,
    ) -> (tree: Arc<CordRep>)
        requires
            leg(self.back, self.stack@, inner, height),
            result.adds(self.back, inner, ext, height),
            edges_bytes(join(self.back, whole(self.back, self.stack@, inner), ext)).len() <= usize::MAX,
        ensures
            grown(tree, height + self.stack@.len()),
            leaves(tree) == join(self.back, whole(self.back, self.stack@, inner), ext),
    {
        let back: bool = self.back;
        let mut stack = self.stack;
        let mut result = result;
        let ghost mut inner = inner;
        let ghost mut height = height;
        let ghost root = height + stack@.len();
        let ghost all = whole(back, stack@, inner);
        while stack.len() > 0
            invariant
                leg(back, stack@, inner, height),
                result.adds(back, inner, ext, height),
                height + stack@.len() == root,
                whole(back, stack@, inner) == all,
                edges_bytes(join(back, all, ext)).len() <= usize::MAX,
            decreases stack@.len(),
        {
            let ghost before = stack@;
            let level = stack.pop().unwrap();
            let ghost beside = edges_leaves(level.others(back));
            proof {
                assert(stack@ =~= before.drop_last());
                assert(level == before.last());
                lemma_leg_up(back, before, inner, height);
                lemma_room(back, before, inner, ext);
                lemma_join_assoc(back, beside, inner, ext);
                assert(before[before.len() - 1] == level);
            }
            result = match result {
                OpResult::Updated(child) => {
                    proof {
                        lemma_leaves_bytes(child);
                        lemma_edges_bytes_add(inner, ext);
                        lemma_edges_bytes_add(ext, inner);
                    }
                    OpResult::Updated(set_edge(level, back, child))
                },
                OpResult::Popped(node, leg) => {
                    proof {
                        lemma_leaves_bytes(node);
                        lemma_leaves_bytes(leg);
                    }
                    let parent = if level.owned {
                        set_edge(level, back, node)
                    } else {
                        level.parent
                    };
                    proof {
                        lemma_leaves_bytes(parent);
                        lemma_edges_leaves_bytes(before.last().others(back));
                        lemma_edges_bytes_add(beside, inner);
                        lemma_edges_bytes_add(inner, beside);
                    }
                    add_edge(parent, back, leg)
                },
            };
            proof {
                inner = join(back, beside, inner);
                height = height + 1;
            }
        }
        proof {
            lemma_edges_bytes_add(inner, ext);
            lemma_edges_bytes_add(ext, inner);
        }
        finalize(back, result, Ghost(inner), Ghost(ext), Ghost(height))
    }
}

/// `tree` came from adding to a tree of height `before`: it is one level
/// higher at most, and higher than `MAX_HEIGHT` only for the sake of data edges
/// that no lower tree holds.
pub open spec fn grown(tree: Arc<CordRep>, before: int) -> bool {
    &&& tree.is_tree(tree.height())
    &&& tree.height() <= before || tree.height() <= MAX_HEIGHT || packed(tree)
}

/// The parts of a tree that is to grow by `ext` stay within the length limit.
pub proof fn lemma_room(
    back: bool,
    levels: Seq<Level>,
    inner: Seq<Arc<CordRep>>,
    ext: Seq<Arc<CordRep>>,
)
    requires
        levels.len() > 0,
        edges_bytes(join(back, whole(back, levels, inner), ext)).len() <= usize::MAX,
    ensures
        edges_bytes(levels.last().others(back)).len() + edges_bytes(inner).len() + edges_bytes(ext).len()
            <= usize::MAX,
{
    let others = levels.last().others(back);
    let beside = edges_leaves(others);
    let deep = join(back, inner, ext);
    lemma_whole_join(back, levels, inner, ext);
    lemma_whole_len(back, levels.drop_last(), join(back, beside, deep));
    lemma_edges_bytes_add(beside, deep);
    lemma_edges_bytes_add(deep, beside);
    lemma_edges_bytes_add(inner, ext);
    lemma_edges_bytes_add(ext, inner);
    lemma_edges_leaves_bytes(others);
}

/// Processes the effect of a change at the root of a tree.
pub fn finalize(
    back: bool,
    result: OpResult,
    Ghost(inner): Ghost<Seq<Arc<CordRep>>>,
    Ghost(ext): Ghost<Seq<Arc<CordRep>>>,
    Ghost(height): Ghost<int>,
) -> (tree: Arc<CordRep>)
    requires
        result.adds(back, inner, ext, height),
        edges_bytes(inner).len() + edges_bytes(ext).len() <= usize::MAX,
    ensures
        grown(tree, height),
        leaves(tree) == join(back, inner, ext),
        result matches OpResult::Updated(updated) ==> tree == updated,
{
    match result {
        OpResult::Updated(tree) => tree,
        OpResult::Popped(node, leg) => {
            proof {
                lemma_leaves_bytes(node);
                lemma_leaves_bytes(leg);
            }
            let (first, second): (Arc<CordRep>, Arc<CordRep>) = if back {
                (node, leg)
            } else {
                (leg, node)
            };
            if node_of(&first).height >= MAX_HEIGHT {
                rebuild_pair(first, second)
            } else {
                CordRepBtree::new_pair(first, second)
            }
        },
    }
}

/// The node of `level` with `edge` as its edge on the leg: in place where the
/// node is held by no one else, and as a copy otherwise.
pub fn set_edge(level: Level, back: bool, edge: Arc<CordRep>) -> (tree: Arc<CordRep>)
    requires
        level.valid(),
        edge.wf(),
        fits_below(*edge, level.node().height as int),
        edges_bytes(level.others(back)).len() + edge.bytes().len() <= usize::MAX,
    ensures
        tree.is_tree(level.node().height as int),
        tree.node().edges@ == join(back, level.others(back), seq![edge]),
        leaves(tree) == join(back, edges_leaves(level.others(back)), leaves(edge)),
        tree.bytes() == join(back, edges_bytes(level.others(back)), edge.bytes()),
{
    let ghost others = level.others(back);
    proof {
        lemma_join_edge(back, others, edge);
    }
    let owned: bool = level.owned;
    let mut parent = level.parent;
    if owned {
        if let Some(CordRep::Btree(node)) = get_mut(&mut parent) {
            node.add_one(back, edge);
            return parent;
        }
    }
    let node = node_of(&parent);
    let mut copy = node.copy();
    if !owned {
        let _ = copy.take_edge(back);
        assert(copy.edges@ =~= others);
    }
    copy.add_one(back, edge);
    Arc::new(CordRep::Btree(copy))
}

/// Adds `edge` to the node `this` if there is room, in place where it is held
/// by no one else and as a copy otherwise; or as a new leg beside it.
pub fn add_edge(this: Arc<CordRep>, back: bool, edge: Arc<CordRep>) -> (result: OpResult)
    requires
        this.is_tree(this.height()),
        edge.wf(),
        fits_below(*edge, this.height()),
        this.bytes().len() + edge.bytes().len() <= usize::MAX,
    ensures
        result.adds(back, leaves(this), leaves(edge), this.height()),
        match result {
            OpResult::Updated(tree) => {
                &&& this.node().edges@.len() < MAX_CAPACITY
                &&& tree.node().edges@ == join(back, this.node().edges@, seq![edge])
            },
            OpResult::Popped(node, leg) => {
                &&& this.node().edges@.len() == MAX_CAPACITY
                &&& node == this
                &&& leg.node().edges@ == seq![edge]
            },
        },
{
    proof {
        lemma_join_edge(back, this.node().edges@, edge);
    }
    if node_of(&this).size() >= MAX_CAPACITY {
        proof {
            lemma_fits_nonempty(edge, this.height());
        }
        return OpResult::Popped(this, CordRepBtree::new_with(edge));
    }
    let mut this = this;
    if let Some(CordRep::Btree(node)) = get_mut(&mut this) {
        node.add_one(back, edge);
        return OpResult::Updated(this);
    }
    let mut copy = node_of(&this).copy();
    copy.add_one(back, edge);
    OpResult::Updated(Arc::new(CordRep::Btree(copy)))
}

/// A valid edge that may stand below a node is not empty.
pub proof fn lemma_fits_nonempty(edge: Arc<CordRep>, height: int)
    requires
        edge.wf(),
        fits_below(*edge, height),
    ensures
        edge.is_edge(),
{
    match *edge {
        CordRep::Btree(node) => {
            lemma_edge_nonempty(node, 0);
            lemma_edges_bytes_split(node.edges@, 0);
        },
        _ => {},
    }
}

/// The back or front edge of the node `tree`, shared.
pub fn outer_edge(tree: &Arc<CordRep>, back: bool) -> (edge: Arc<CordRep>)
    requires
        tree.is_tree(tree.height()),
    ensures
        edge.wf(),
        fits_below(*edge, tree.height()),
        edge == if back { tree.node().edges@.last() } else { tree.node().edges@.first() },
{
    match &**tree {
        CordRep::Btree(node) => {
            let index: usize = if back {
                node.edges.len() - 1
            } else {
                0
            };
            node.edges[index].clone()
        },
        _ => tree.clone(),
    }
}

} // verus!
