//! Taking the last flat block out of a tree.

use super::btree::{node_of, CordRepBtree};
use super::edge::ref_get;
use super::share::{get_mut, last_held_twice, leg_held_twice};
use super::stack::{
    leg, lemma_fits_nonempty, lemma_leg_up, lemma_room, lemma_whole_join, set_edge, whole,
    Level, StackOperations,
};
use super::subtree::{extract_front, room_of};
use super::{
    compact, edges_bytes, edges_leaves, leaves, lemma_compact_node, lemma_edges_bytes_add, lemma_edges_bytes_one,
    lemma_edges_leaves_one, lemma_leaves_bytes, lemma_len_fits, CordRep,
};
use crate::seqs::join;
use std::sync::Arc;
use vstd::prelude::*;

verus! {

/// What is left of a tree, and the flat block that was taken out of it.
pub struct ExtractResult {
    /// The rest of the tree, if there is any.
    pub tree: Option<Arc<CordRep>>,
    /// The block, if there was one to take out.
    pub extracted: Option<Arc<CordRep>>,
}

impl StackOperations {
    /// Puts the unchanged node `node` back at the lower end of the leg.
    pub fn restore(self, node: Arc<CordRep>) -> (tree: Arc<CordRep>)
        requires
            leg(self.back, self.stack@, leaves(node), node.height()),
            node.is_tree(node.height()),
            edges_bytes(whole(self.back, self.stack@, leaves(node))).len() <= usize::MAX,
        ensures
            tree.is_tree(node.height() + self.stack@.len()),
            leaves(tree) == whole(self.back, self.stack@, leaves(node)),
            self.stack@.len() == 0 ==> tree == node,
    {
        let back: bool = self.back;
        let ghost all = whole(back, self.stack@, leaves(node));
        let ghost root = node.height() + self.stack@.len();
        let ghost count = self.stack@.len();
        let mut stack = self.stack;
        let mut current = node;
        while stack.len() > 0
            invariant
                leg(back, stack@, leaves(current), current.height()),
                current.is_tree(root - stack@.len()),
                whole(back, stack@, leaves(current)) == all,
                edges_bytes(all).len() <= usize::MAX,
                count == 0 ==> current == node,
                stack@.len() <= count,
            decreases stack@.len(),
        {
            let ghost before = stack@;
            let ghost inner = leaves(current);
            let level = stack.pop().unwrap();
            proof {
                let none: Seq<Arc<CordRep>> = Seq::empty();
                assert(stack@ =~= before.drop_last());
                assert(before[before.len() - 1] == level);
                lemma_leg_up(back, before, inner, current.height());
                assert(join(back, all, none) =~= all);
                lemma_room(back, before, inner, none);
                lemma_leaves_bytes(current);
            }
            current = if level.owned {
                set_edge(level, back, current)
            } else {
                level.parent
            };
        }
        current
    }

    /// Whether all nodes of the leg are held by this tree only.
    fn all_owned(&self) -> (r: bool)
        ensures
            r == (forall|k: int| #![trigger self.stack@[k]] 0 <= k < self.stack@.len() ==> self.stack@[k].owned),
    {
        let mut i: usize = 0;
        while i < self.stack.len()
            invariant
                i <= self.stack@.len(),
                forall|k: int| #![trigger self.stack@[k]] 0 <= k < i ==> self.stack@[k].owned,
            decreases self.stack@.len() - i,
        {
            if !self.stack[i].owned {
                return false;
            }
            i += 1;
        }
        true
    }
}

/// The node `tree` without its last edge, unless that was the only one, and that edge.
fn split_last(tree: Arc<CordRep>) -> (r: (Option<Arc<CordRep>>, Arc<CordRep>))
    requires
        tree.is_tree(tree.height()),
    ensures
        r.1 == tree.node().edges@.last(),
        r.0 is None <==> tree.node().edges@.len() == 1,
        r.0 matches Some(rest) ==> {
            &&& rest.is_tree(tree.height())
            &&& rest.node().edges@ == tree.node().edges@.drop_last()
        },
{
    let ghost edges = tree.node().edges@;
    if node_of(&tree).edges.len() == 1 {
        return (None, extract_front(tree));
    }
    let mut tree = tree;
    if let Some(CordRep::Btree(node)) = get_mut(&mut tree) {
        let edge = node.take_edge(true);
        assert(node.edges@ =~= edges.drop_last());
        return (Some(tree), edge);
    }
    let mut copy = node_of(&tree).copy();
    let edge = copy.take_edge(true);
    assert(copy.edges@ =~= edges.drop_last());
    (Some(Arc::new(CordRep::Btree(copy))), edge)
}

/// Drops the nodes with a single edge at the top of `tree`.
fn fold_top(tree: Arc<CordRep>) -> (folded: Arc<CordRep>)
    requires
        tree.is_tree(tree.height()),
    ensures
        folded.is_edge(),
        folded.height() <= tree.height(),
        leaves(folded) == leaves(tree),
        compact(folded),
    decreases tree.height(),
{
    proof {
        lemma_fits_nonempty(tree, tree.height() + 1);
    }
    let node = node_of(&tree);
    if node.edges.len() != 1 {
        proof {
            lemma_compact_node(tree);
        }
        return tree;
    }
    let height: usize = node.height;
    proof {
        let edge = node.edges@[0];
        lemma_edges_leaves_one(edge);
        assert(node.edges@ =~= seq![edge]);
        lemma_fits_nonempty(edge, height as int);
    }
    let edge = extract_front(tree);
    if height == 0 {
        return edge;
    }
    fold_top(edge)
}

/// What was made of a tree with the data edges `all` and the height `height`:
/// its last data edge was taken out, and what is left was folded; or it was
/// left as it is.
pub open spec fn extracts(r: ExtractResult, all: Seq<Arc<CordRep>>, height: int) -> bool {
    match r.extracted {
        Some(flat) => {
            &&& flat == all.last()
            &&& flat.is_leaf_edge()
            &&& match r.tree {
                Some(rest) => {
                    &&& rest.is_edge()
                    &&& rest.height() <= height
                    &&& compact(rest)
                    &&& all == leaves(rest).push(flat)
                    &&& edges_bytes(all) == rest.bytes() + flat.bytes()
                },
                None => all == seq![flat] && edges_bytes(all) == flat.bytes(),
            }
        },
        None => {
            &&& r.tree matches Some(same)
            &&& same.is_edge()
            &&& same.height() == height
            &&& leaves(same) == all
            &&& same.bytes() == edges_bytes(all)
        },
    }
}

/// A data edge is taken out of a tree with the data edges `all` if and only if
/// it is `private`, a flat block, and has room for `extra_capacity` more bytes.
pub open spec fn owed(all: Seq<Arc<CordRep>>, private: bool, extra_capacity: usize) -> bool {
    private && *all.last() is Flat && room_of(*all.last()) >= extra_capacity
}

/// Takes the single data edge `rep` out, if it is `private` (held by no one
/// else) and a flat block with room for `extra_capacity` more bytes.
pub fn extract_block(rep: Arc<CordRep>, private: bool, extra_capacity: usize) -> (r: ExtractResult)
    requires
        rep.is_leaf_edge(),
    ensures
        r.extracted is Some <==> owed(leaves(rep), private, extra_capacity),
        extracts(r, leaves(rep), -1),
        r.extracted is None ==> r.tree == Some(rep),
{
    proof {
        lemma_leaves_bytes(rep);
    }
    let fits: bool = match &*rep {
        CordRep::Flat(flat) => flat.capacity() - flat.len() >= extra_capacity,
        _ => false,
    };
    if private && fits {
        return ExtractResult { tree: None, extracted: Some(rep) };
    }
    ExtractResult { tree: Some(rep), extracted: None }
}

impl StackOperations {
    /// Takes the last data edge of the leaf node `leaf`, which stands at the
    /// lower end of the leg, out of the tree, if it is a flat block with room
    /// for `extra_capacity` more bytes, and `private`: it, the leaf node and all
    /// nodes of the leg are held by no one else. Otherwise the tree is put
    /// together again.
    pub fn extract_last(self, leaf: Arc<CordRep>, private: bool, extra_capacity: usize) -> (r: ExtractResult)
        requires
            self.back,
            leaf.is_tree(0),
            leg(true, self.stack@, leaves(leaf), 0),
            edges_bytes(whole(true, self.stack@, leaves(leaf))).len() <= usize::MAX,
            private ==> forall|k: int| #![trigger self.stack@[k]] 0 <= k < self.stack@.len() ==> self.stack@[k].owned,
        ensures
            r.extracted is Some <==> owed(whole(true, self.stack@, leaves(leaf)), private, extra_capacity),
            extracts(r, whole(true, self.stack@, leaves(leaf)), self.stack@.len() as int),
    {
        let ops = self;
        let ghost all = whole(true, ops.stack@, leaves(leaf));
        let ghost top_height = ops.stack@.len() as int;
        let last: usize = node_of(&leaf).edges.len() - 1;
        let edge = &node_of(&leaf).edges[last];
        assert(leaf.node().edges@[last as int].wf());
        let fits: bool = match &**edge {
            CordRep::Flat(flat) => extra_capacity <= flat.capacity() - flat.len(),
            _ => false,
        };
        let ghost node = leaf.node();
        let ghost mut inner: Seq<Arc<CordRep>> = edges_leaves(node.edges@.drop_last());
        proof {
            let flat = node.edges@.last();
            assert(super::fits_below(*node.edges@[node.edges@.len() - 1], 0));
            assert(node.edges@[node.edges@.len() - 1] == flat);
            assert(leaves(flat) == seq![flat]);
            assert(edges_leaves(node.edges@) == inner + leaves(flat));
            lemma_whole_join(true, ops.stack@, inner, leaves(flat));
            assert(all.last() == flat);
        }
        if !(private && fits) {
            let same = ops.restore(leaf);
            proof {
                lemma_leaves_bytes(same);
                lemma_fits_nonempty(same, same.height() + 1);
            }
            return ExtractResult { tree: Some(same), extracted: None };
        }
        let (rest, flat) = split_last(leaf);
        proof {
            if node.edges@.len() == 1 {
                assert(node.edges@.drop_last() =~= Seq::<Arc<CordRep>>::empty());
            }
        }
        let mut stack = ops.stack;
        let mut current = rest;
        let ghost mut height: int = 0;
        while stack.len() > 0
            invariant
                *flat is Flat,
                forall|k: int| #![trigger stack@[k]] 0 <= k < stack@.len() ==> {
                    &&& stack@[k].owned
                    &&& stack@[k].valid()
                    &&& stack@[k].node().height == height + stack@.len() - k
                },
                height + stack@.len() == top_height,
                match current {
                    Some(current) => current.is_tree(height) && leaves(current) == inner,
                    None => inner.len() == 0,
                },
                all == whole(true, stack@, inner) + leaves(flat),
                edges_bytes(all).len() <= usize::MAX,
            decreases stack@.len(),
        {
            let ghost before = stack@;
            let level = stack.pop().unwrap();
            let ghost beside = edges_leaves(level.others(true));
            proof {
                assert(stack@ =~= before.drop_last());
                assert(before[before.len() - 1] == level);
                lemma_room(true, before, inner, leaves(flat));
                assert forall|k: int| #![trigger stack@[k]] 0 <= k < stack@.len() implies {
                    &&& stack@[k].owned
                    &&& stack@[k].valid()
                    &&& stack@[k].node().height == height + 1 + stack@.len() - k
                } by {
                    assert(stack@[k] == before[k]);
                }
                assert(beside + Seq::<Arc<CordRep>>::empty() =~= beside);
            }
            current = match current {
                Some(child) => {
                    proof {
                        lemma_leaves_bytes(child);
                    }
                    Some(set_edge(level, true, child))
                },
                None => {
                    assert(inner =~= Seq::<Arc<CordRep>>::empty());
                    if node_of(&level.parent).edges.len() == 0 {
                        None
                    } else {
                        Some(level.parent)
                    }
                },
            };
            proof {
                inner = beside + inner;
                height = height + 1;
            }
        }
        proof {
            lemma_leaves_bytes(flat);
            lemma_edges_bytes_add(inner, leaves(flat));
        }
        match current {
            Some(top) => {
                let folded = fold_top(top);
                proof {
                    lemma_leaves_bytes(folded);
                    assert(all =~= leaves(folded).push(flat));
                }
                ExtractResult { tree: Some(folded), extracted: Some(flat) }
            },
            None => {
                proof {
                    assert(all =~= seq![flat]);
                    lemma_edges_bytes_one(flat);
                }
                ExtractResult { tree: None, extracted: Some(flat) }
            },
        }
    }
}

/// All nodes of a leg, the leaf node at its end and the last data edge of
/// that are held by no one else, if the latter two have `leaf_count` and
/// `edge_count` handles.
pub open spec fn all_private(stack: Seq<Level>, leaf_count: usize, edge_count: usize) -> bool {
    &&& forall|k: int| #![trigger stack[k]] 0 <= k < stack.len() ==> stack[k].owned
    &&& leaf_count == 1
    &&& edge_count == 1
}

impl StackOperations {
    /// Takes the last data edge of the leaf node `leaf` out of the tree, like
    /// `extract_last`, where the leaf node has `leaf_count` handles and its last
    /// edge `edge_count`: they are private if that is one each, and all nodes of
    /// the leg are held by this tree only.
    pub fn extract_counted(
        self,
        leaf: Arc<CordRep>,
        leaf_count: usize,
        edge_count: usize,
        extra_capacity: usize,
    ) -> (r: ExtractResult)
        requires
            self.back,
            leaf.is_tree(0),
            leg(true, self.stack@, leaves(leaf), 0),
            edges_bytes(whole(true, self.stack@, leaves(leaf))).len() <= usize::MAX,
        ensures
            r.extracted is Some <==> owed(
                whole(true, self.stack@, leaves(leaf)),
                all_private(self.stack@, leaf_count, edge_count),
                extra_capacity,
            ),
            extracts(r, whole(true, self.stack@, leaves(leaf)), self.stack@.len() as int),
    {
        let private: bool = self.all_owned() && leaf_count == 1 && edge_count == 1;
        self.extract_last(leaf, private, extra_capacity)
    }
}

impl CordRepBtree {
    /// Takes the last data edge out of `tree` if it is a flat block with room
    /// for `extra_capacity` more bytes, and it and all nodes above it are held
    /// by no one else. Otherwise the tree stays as it is.
    pub fn extract_append_buffer(tree: Arc<CordRep>, extra_capacity: usize) -> (r: ExtractResult)
        requires
            tree.is_tree(tree.height()),
        ensures
            r.extracted is Some ==> owed(leaves(tree), true, extra_capacity),
            r.extracted is None && owed(leaves(tree), true, extra_capacity) ==> leg_held_twice(tree),
            extracts(r, leaves(tree), tree.height()),
    {
        let depth: usize = node_of(&tree).height;
        let (ops, leaf) = StackOperations::build_stack(tree, true, depth);
        proof {
            lemma_leaves_bytes(tree);
            lemma_len_fits(tree);
        }
        let last: usize = node_of(&leaf).edges.len() - 1;
        let leaf_count: usize = ref_get(&leaf);
        let edge_count: usize = ref_get(&node_of(&leaf).edges[last]);
        proof {
            let edges = leaf.node().edges@;
            assert(edges.last() == edges[last as int]);
            if edge_count != 1 {
                assert(leg_held_twice(edges.last()));
                assert(last_held_twice(edges));
            }
        }
        ops.extract_counted(leaf, leaf_count, edge_count, extra_capacity)
    }
}

} // verus!
