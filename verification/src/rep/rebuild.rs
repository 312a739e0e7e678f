//! Rebuilding a tree into the lowest tree that holds its data edges.

use super::btree::{lemma_join_edge, node_of, CordRepBtree, HEIGHT_LIMIT, MAX_CAPACITY};
use super::{
    edges_bytes, edges_leaves, fits_below, leaves, lemma_edge_nonempty, lemma_edges_bytes_add,
    lemma_edges_bytes_split, lemma_edges_leaves_bytes, lemma_edges_leaves_split,
    lemma_leaves_bytes, lemma_leaves_valid, lemma_len_fits, CordRep,
};
use core::mem::swap;
use std::sync::Arc;
use vstd::prelude::*;

verus! {

/// The number of data edges below an edge of a node of height `height`, where
/// all nodes below it are full.
pub open spec fn full_count(height: nat) -> nat
    decreases height,
{
    if height == 0 {
        1
    } else {
        MAX_CAPACITY as nat * full_count((height - 1) as nat)
    }
}

/// Higher trees hold more.
pub proof fn lemma_full_count_order(a: nat, b: nat)
    requires
        a <= b,
    ensures
        1 <= full_count(a) <= full_count(b),
    decreases b,
{
    if a < b {
        lemma_full_count_order(a, (b - 1) as nat);
    } else if a > 0 {
        lemma_full_count_order((a - 1) as nat, (a - 1) as nat);
    }
}

/// No tree stands above more data edges than a full one of its height.
pub proof fn lemma_leaves_bound(rep: Arc<CordRep>)
    requires
        rep.is_edge(),
    ensures
        leaves(rep).len() <= full_count((rep.height() + 1) as nat),
    decreases rep,
{
    match *rep {
        CordRep::Btree(node) => {
            lemma_edges_leaves_bound(node.edges@, node.height as int);
            assert(node.edges@.len() * full_count(node.height as nat) <= MAX_CAPACITY * full_count(
                node.height as nat,
            )) by (nonlinear_arith)
                requires
                    node.edges@.len() <= MAX_CAPACITY,
            ;
        },
        _ => {
            reveal_with_fuel(full_count, 1);
        },
    }
}

/// No list of edges stands above more data edges than one of full trees.
proof fn lemma_edges_leaves_bound(edges: Seq<Arc<CordRep>>, height: int)
    requires
        height >= 0,
        forall|i: int|
            #![trigger edges[i]]
            0 <= i < edges.len() ==> edges[i].wf() && fits_below(*edges[i], height),
    ensures
        edges_leaves(edges).len() <= edges.len() * full_count(height as nat),
    decreases edges,
{
    if edges.len() > 0 {
        let init = edges.drop_last();
        assert forall|i: int| #![trigger init[i]] 0 <= i < init.len() implies init[i].wf() && fits_below(
            *init[i],
            height,
        ) by {
            assert(init[i] == edges[i]);
        }
        lemma_edges_leaves_bound(init, height);
        assert(edges[edges.len() - 1].wf());
        super::stack::lemma_fits_nonempty(edges.last(), height);
        lemma_leaves_bound(edges.last());
        lemma_full_count_order(0, height as nat);
        let n = full_count(height as nat);
        assert(init.len() * n + n == edges.len() * n) by (nonlinear_arith)
            requires
                init.len() + 1 == edges.len(),
        ;
    }
}

/// A full tree at the height limit holds more data edges than a machine integer counts.
pub proof fn lemma_full_count_limit()
    ensures
        full_count(HEIGHT_LIMIT as nat) > usize::MAX,
{
    reveal_with_fuel(full_count, 27);
    assert(full_count(25) == 28430288029929701376);
}

/// Non-empty edges hold at least as many bytes as there are edges.
pub proof fn lemma_count_bytes(edges: Seq<Arc<CordRep>>)
    requires
        forall|i: int| #![trigger edges[i]] 0 <= i < edges.len() ==> edges[i].bytes().len() > 0,
    ensures
        edges.len() <= edges_bytes(edges).len(),
    decreases edges.len(),
{
    if edges.len() > 0 {
        let init = edges.drop_last();
        assert forall|i: int| #![trigger init[i]] 0 <= i < init.len() implies init[i].bytes().len() > 0 by {
            assert(init[i] == edges[i]);
        }
        lemma_count_bytes(init);
        assert(edges.last() == edges[edges.len() - 1]);
    }
}

/// A tree under construction: for each height the node that grows there. The
/// node at `levels[k - 1]` is to become the last edge of the one at `levels[k]`.
pub struct Builder {
    /// The growing nodes, from the leaf level upwards.
    pub levels: Vec<CordRepBtree>,
}

/// The data edges of a tree under construction.
pub open spec fn built_leaves(levels: Seq<CordRepBtree>) -> Seq<Arc<CordRep>>
    decreases levels.len(),
{
    if levels.len() == 0 {
        Seq::empty()
    } else {
        built_leaves(levels.drop_first()) + edges_leaves(levels.first().edges@)
    }
}

/// The growing node of height `k`: everything below its edges is full.
pub open spec fn growing(node: CordRepBtree, k: int) -> bool {
    &&& node.partial()
    &&& node.height == k
    &&& forall|j: int|
        #![trigger node.edges@[j]]
        0 <= j < node.edges@.len() ==> leaves(node.edges@[j]).len() == full_count(k as nat)
}

/// Growing nodes at the heights `base`, `base + 1`, and so on, with room above the lowest one.
pub open spec fn growing_from(levels: Seq<CordRepBtree>, base: int) -> bool {
    forall|k: int|
        #![trigger levels[k]]
        0 <= k < levels.len() ==> {
            &&& growing(levels[k], base + k)
            &&& base + k > 0 ==> levels[k].edges@.len() < MAX_CAPACITY
        }
}

/// The growing nodes below `i` are empty, so they add nothing.
pub proof fn lemma_built_skip(levels: Seq<CordRepBtree>, i: int)
    requires
        0 <= i <= levels.len(),
        forall|k: int| #![trigger levels[k]] 0 <= k < i ==> levels[k].edges@.len() == 0,
    ensures
        built_leaves(levels) == built_leaves(levels.skip(i)),
    decreases i,
{
    if i == 0 {
        assert(levels.skip(0) =~= levels);
    } else {
        let up = levels.drop_first();
        assert forall|k: int| #![trigger up[k]] 0 <= k < i - 1 implies up[k].edges@.len() == 0 by {
            assert(up[k] == levels[k + 1]);
        }
        lemma_built_skip(up, i - 1);
        assert(up.skip(i - 1) =~= levels.skip(i));
        assert(levels.first() == levels[0]);
        assert(edges_leaves(levels.first().edges@) =~= Seq::<Arc<CordRep>>::empty());
        assert(built_leaves(levels) =~= built_leaves(up));
    }
}

/// The lowest growing node is no longer than the whole tree.
pub proof fn lemma_built_room(levels: Seq<CordRepBtree>)
    requires
        levels.len() > 0,
    ensures
        edges_bytes(levels[0].edges@).len() <= edges_bytes(built_leaves(levels)).len(),
        levels[0].edges@.len() == 0 ==> built_leaves(levels) == built_leaves(levels.drop_first()),
{
    let above = built_leaves(levels.drop_first());
    assert(levels.first() == levels[0]);
    lemma_edges_bytes_add(above, edges_leaves(levels[0].edges@));
    lemma_edges_leaves_bytes(levels[0].edges@);
    if levels[0].edges@.len() == 0 {
        assert(built_leaves(levels) =~= above);
    }
}

/// The number of data edges below a node whose edges are full.
pub proof fn lemma_growing_count(edges: Seq<Arc<CordRep>>, count: nat)
    requires
        forall|j: int| #![trigger edges[j]] 0 <= j < edges.len() ==> leaves(edges[j]).len() == count,
    ensures
        edges_leaves(edges).len() == edges.len() * count,
    decreases edges.len(),
{
    if edges.len() > 0 {
        let init = edges.drop_last();
        assert forall|j: int| #![trigger init[j]] 0 <= j < init.len() implies leaves(init[j]).len() == count by {
            assert(init[j] == edges[j]);
        }
        lemma_growing_count(init, count);
        assert(edges.last() == edges[edges.len() - 1]);
        assert(edges.len() * count == init.len() * count + count) by (nonlinear_arith)
            requires
                edges.len() == init.len() + 1,
        ;
    }
}

/// `tree` is no higher than its data edges demand.
pub open spec fn packed(tree: Arc<CordRep>) -> bool {
    tree.height() > 0 ==> leaves(tree).len() > full_count(tree.height() as nat)
}

impl Builder {
    /// The parts fit together, and the tree is as low as it can be.
    pub open spec fn wf(self) -> bool {
        &&& self.levels@.len() > 0
        &&& growing_from(self.levels@, 0)
        &&& self.leaves().len() > 0 ==> self.levels@[0].edges@.len() > 0
        &&& self.levels@.len() > 1 ==> self.leaves().len() > full_count((self.levels@.len() - 1) as nat)
        &&& forall|i: int| #![trigger self.leaves()[i]] 0 <= i < self.leaves().len() ==> self.leaves()[i].is_leaf_edge()
    }

    /// The data edges added so far.
    pub open spec fn leaves(self) -> Seq<Arc<CordRep>> {
        built_leaves(self.levels@)
    }

    /// A tree without data edges.
    pub fn new() -> (builder: Builder)
        ensures
            builder.wf(),
            builder.leaves() == Seq::<Arc<CordRep>>::empty(),
    {
        let mut levels: Vec<CordRepBtree> = Vec::new();
        levels.push(CordRepBtree::new_node(0));
        let builder = Builder { levels };
        proof {
            reveal_with_fuel(built_leaves, 2);
            assert(builder.leaves() =~= Seq::<Arc<CordRep>>::empty());
        }
        builder
    }

    /// Adds the data edge `edge` at the back.
    pub fn push(&mut self, edge: Arc<CordRep>)
        requires
            old(self).wf(),
            edge.is_leaf_edge(),
            edges_bytes(old(self).leaves()).len() + edge.bytes().len() <= usize::MAX,
        ensures
            final(self).wf(),
            final(self).leaves() == old(self).leaves().push(edge),
    {
        let ghost before = self.leaves();
        if self.levels[0].edges.len() >= MAX_CAPACITY {
            self.carry();
        }
        let ghost levels = self.levels@;
        proof {
            lemma_built_room(levels);
            lemma_join_edge(true, levels[0].edges@, edge);
        }
        self.levels[0].add_one(true, edge);
        proof {
            let now = self.levels@;
            assert(now.drop_first() =~= levels.drop_first());
            assert(now.first() == now[0]);
            assert(levels.first() == levels[0]);
            assert(self.leaves() =~= before.push(edge));
            assert(now[0].edges@ =~= levels[0].edges@.push(edge));
            assert forall|k: int| #![trigger now[k]] 0 <= k < now.len() implies {
                &&& growing(now[k], k)
                &&& k > 0 ==> now[k].edges@.len() < MAX_CAPACITY
            } by {
                if k > 0 {
                    assert(now[k] == levels[k]);
                }
            }
            assert forall|i: int| #![trigger self.leaves()[i]] 0 <= i < self.leaves().len() implies self.leaves()[i].is_leaf_edge() by {
                if i < before.len() {
                    assert(self.leaves()[i] == before[i]);
                }
            }
        }
    }

    /// Moves the full leaf node up to the first level with room.
    fn carry(&mut self)
        requires
            old(self).wf(),
            old(self).levels@[0].edges@.len() == MAX_CAPACITY,
            edges_bytes(old(self).leaves()).len() < usize::MAX,
        ensures
            final(self).levels@.len() > 0,
            growing_from(final(self).levels@, 0),
            final(self).leaves() == old(self).leaves(),
            final(self).levels@[0].edges@.len() == 0,
            final(self).levels@.len() > 1 ==> final(self).leaves().len() >= full_count(
                (final(self).levels@.len() - 1) as nat,
            ),
    {
        let ghost all = self.leaves();
        let ghost start = self.levels@;
        let mut full = CordRepBtree::new_node(0);
        swap(&mut self.levels[0], &mut full);
        let mut carry = Arc::new(CordRep::Btree(full));
        proof {
            lemma_growing_count(full.edges@, 1);
            reveal_with_fuel(full_count, 2);
            assert(self.levels@.drop_first() =~= start.drop_first());
            assert(start.first() == start[0]);
            lemma_built_room(self.levels@);
            assert forall|k: int| #![trigger self.levels@[k]] 0 <= k < self.levels@.len() implies {
                &&& growing(self.levels@[k], k)
                &&& k > 0 ==> self.levels@[k].edges@.len() < MAX_CAPACITY
            } by {
                if k > 0 {
                    assert(self.levels@[k] == start[k]);
                }
            }
        }
        let mut i: usize = 1;
        while i < self.levels.len()
            invariant
                1 <= i <= self.levels@.len(),
                growing_from(self.levels@, 0),
                forall|k: int| #![trigger self.levels@[k]] 0 <= k < i ==> self.levels@[k].edges@.len() == 0,
                carry.is_tree(i - 1),
                leaves(carry).len() == full_count(i as nat),
                built_leaves(self.levels@) + leaves(carry) == all,
                self.levels@.len() > 1 ==> all.len() > full_count((self.levels@.len() - 1) as nat),
                edges_bytes(all).len() < usize::MAX,
                all == old(self).leaves(),
                old(self).wf(),
            decreases self.levels@.len() - i,
        {
            let ghost levels = self.levels@;
            proof {
                lemma_built_skip(levels, i as int);
                lemma_built_room(levels.skip(i as int));
                lemma_edges_bytes_add(built_leaves(levels), leaves(carry));
                lemma_leaves_bytes(carry);
                lemma_join_edge(true, levels[i as int].edges@, carry);
            }
            self.levels[i].add_one(true, carry);
            let ghost mid = self.levels@;
            proof {
                lemma_built_skip(mid, i as int);
                assert(mid.skip(i as int).drop_first() =~= levels.skip(i as int).drop_first());
                assert(mid.skip(i as int).first() == mid[i as int]);
                assert(levels.skip(i as int).first() == levels[i as int]);
                assert(built_leaves(mid) =~= all);
                assert(mid[i as int].edges@ =~= levels[i as int].edges@.push(carry));
                assert forall|k: int| #![trigger mid[k]] 0 <= k < mid.len() implies {
                    &&& growing(mid[k], k)
                    &&& k > 0 && k != i ==> mid[k].edges@.len() < MAX_CAPACITY
                } by {
                    if k != i {
                        assert(mid[k] == levels[k]);
                    }
                }
            }
            if self.levels[i].edges.len() < MAX_CAPACITY {
                return;
            }
            let mut full = CordRepBtree::new_node(i);
            swap(&mut self.levels[i], &mut full);
            carry = Arc::new(CordRep::Btree(full));
            proof {
                let now = self.levels@;
                lemma_growing_count(full.edges@, full_count(i as nat));
                lemma_built_skip(now, i as int);
                lemma_built_room(now.skip(i as int));
                assert(mid.skip(i as int).drop_first() =~= now.skip(i as int).drop_first());
                assert forall|k: int| #![trigger now[k]] 0 <= k < now.len() implies {
                    &&& growing(now[k], k)
                    &&& k > 0 ==> now[k].edges@.len() < MAX_CAPACITY
                } by {
                    if k != i {
                        assert(now[k] == mid[k]);
                    }
                }
            }
            i += 1;
        }
        let ghost levels = self.levels@;
        proof {
            lemma_edges_bytes_add(built_leaves(levels), leaves(carry));
            lemma_leaves_bytes(carry);
            lemma_built_skip(levels, i as int);
            assert(built_leaves(levels) =~= Seq::<Arc<CordRep>>::empty());
            assert(all =~= leaves(carry));
            lemma_full_count_limit();
            lemma_count_bytes(all);
            if i > HEIGHT_LIMIT {
                lemma_full_count_order(HEIGHT_LIMIT as nat, (i - 1) as nat);
            }
        }
        let mut node = CordRepBtree::new_node(i);
        node.add_one(true, carry);
        self.levels.push(node);
        proof {
            let now = self.levels@;
            lemma_built_skip(now, i as int);
            assert(now.skip(i as int) =~= seq![node]);
            reveal_with_fuel(built_leaves, 2);
            lemma_join_edge(true, Seq::empty(), carry);
            assert(node.edges@ =~= seq![carry]);
            assert(built_leaves(seq![node]) =~= leaves(carry));
            assert forall|k: int| #![trigger now[k]] 0 <= k < now.len() implies {
                &&& growing(now[k], k)
                &&& k > 0 ==> now[k].edges@.len() < MAX_CAPACITY
            } by {
                if k < i {
                    assert(now[k] == levels[k]);
                }
            }
        }
    }

    /// The finished tree.
    pub fn finish(self) -> (tree: Arc<CordRep>)
        requires
            self.wf(),
            self.leaves().len() > 0,
            edges_bytes(self.leaves()).len() <= usize::MAX,
        ensures
            tree.is_tree(tree.height()),
            leaves(tree) == self.leaves(),
            packed(tree),
    {
        let ghost all = self.leaves();
        let ghost top = self.levels@.len() - 1;
        let mut levels = self.levels;
        let node = levels.remove(0);
        let mut current = Arc::new(CordRep::Btree(node));
        proof {
            assert(levels@ =~= self.levels@.drop_first());
            assert(self.levels@.first() == self.levels@[0]);
            assert(growing_from(levels@, 1)) by {
                assert forall|k: int| #![trigger levels@[k]] 0 <= k < levels@.len() implies growing(levels@[k], 1 + k)
                    && levels@[k].edges@.len() < MAX_CAPACITY by {
                    assert(levels@[k] == self.levels@[k + 1]);
                }
            }
        }
        let mut height: usize = 0;
        while levels.len() > 0
            invariant
                height + levels@.len() == top,
                growing_from(levels@, height + 1),
                current.is_tree(height as int),
                built_leaves(levels@) + leaves(current) == all,
                edges_bytes(all).len() <= usize::MAX,
            decreases levels@.len(),
        {
            let ghost above = levels@;
            let mut node = levels.remove(0);
            proof {
                assert(levels@ =~= above.drop_first());
                assert(above.first() == above[0]);
                assert(node == above[0]);
                lemma_built_room(above);
                lemma_edges_bytes_add(built_leaves(above), leaves(current));
                lemma_leaves_bytes(current);
                lemma_join_edge(true, node.edges@, current);
            }
            node.add_one(true, current);
            current = Arc::new(CordRep::Btree(node));
            proof {
                assert(growing_from(levels@, height + 2)) by {
                    assert forall|k: int| #![trigger levels@[k]] 0 <= k < levels@.len() implies growing(
                        levels@[k],
                        height + 2 + k,
                    ) && levels@[k].edges@.len() < MAX_CAPACITY by {
                        assert(levels@[k] == above[k + 1]);
                    }
                }
                assert(built_leaves(levels@) + leaves(current) =~= all);
            }
            height = height + 1;
        }
        proof {
            assert(leaves(current) =~= all);
        }
        current
    }
}

/// Adds the data edges of `tree` at the back of `builder`.
fn rebuild_into(builder: &mut Builder, tree: &Arc<CordRep>)
    requires
        old(builder).wf(),
        tree.is_tree(tree.height()),
        edges_bytes(old(builder).leaves()).len() + tree.bytes().len() <= usize::MAX,
    ensures
        final(builder).wf(),
        final(builder).leaves() == old(builder).leaves() + leaves(*tree),
    decreases tree.height(),
{
    let ghost before = builder.leaves();
    let node = node_of(tree);
    let ghost edges = node.edges@;
    let mut i: usize = 0;
    proof {
        assert(edges.take(0) =~= Seq::<Arc<CordRep>>::empty());
        assert(before + edges_leaves(edges.take(0)) =~= before);
    }
    while i < node.edges.len()
        invariant
            0 <= i <= edges.len(),
            edges == node.edges@,
            *node == tree.node(),
            tree.is_tree(node.height as int),
            builder.wf(),
            builder.leaves() == before + edges_leaves(edges.take(i as int)),
            edges_bytes(before).len() + tree.bytes().len() <= usize::MAX,
        decreases edges.len() - i,
    {
        proof {
            lemma_edge_nonempty(*node, i as int);
            lemma_edges_leaves_split(edges, i as int);
            lemma_edges_bytes_split(edges, i as int);
            lemma_edges_bytes_add(before, edges_leaves(edges.take(i as int)));
            lemma_edges_leaves_bytes(edges.take(i as int));
        }
        if node.height == 0 {
            builder.push(node.edges[i].clone());
        } else {
            rebuild_into(builder, &node.edges[i]);
        }
        proof {
            assert(builder.leaves() =~= before + edges_leaves(edges.take(i + 1)));
        }
        i += 1;
    }
    proof {
        assert(edges.take(i as int) =~= edges);
    }
}

/// The lowest tree with the data edges of `tree`.
pub fn rebuild(tree: Arc<CordRep>) -> (rebuilt: Arc<CordRep>)
    requires
        tree.is_tree(tree.height()),
    ensures
        rebuilt.is_tree(rebuilt.height()),
        leaves(rebuilt) == leaves(tree),
        rebuilt.bytes() == tree.bytes(),
        packed(rebuilt),
{
    let mut builder = Builder::new();
    proof {
        lemma_leaves_bytes(tree);
        lemma_len_fits(tree);
        lemma_edge_nonempty(tree.node(), 0);
        lemma_edges_bytes_split(tree.node().edges@, 0);
        lemma_leaves_valid(tree);
    }
    rebuild_into(&mut builder, &tree);
    assert(builder.leaves() =~= leaves(tree));
    let rebuilt = builder.finish();
    proof {
        lemma_leaves_bytes(rebuilt);
    }
    rebuilt
}

/// The lowest tree with the data edges of `front` followed by those of `back`.
pub fn rebuild_pair(front: Arc<CordRep>, back: Arc<CordRep>) -> (rebuilt: Arc<CordRep>)
    requires
        front.is_tree(front.height()),
        back.is_tree(back.height()),
        front.bytes().len() + back.bytes().len() <= usize::MAX,
    ensures
        rebuilt.is_tree(rebuilt.height()),
        leaves(rebuilt) == leaves(front) + leaves(back),
        packed(rebuilt),
{
    let mut builder = Builder::new();
    proof {
        lemma_leaves_bytes(front);
        lemma_leaves_bytes(back);
        lemma_edges_bytes_add(leaves(front), leaves(back));
        lemma_edge_nonempty(front.node(), 0);
        lemma_edges_bytes_split(front.node().edges@, 0);
        lemma_leaves_valid(front);
    }
    rebuild_into(&mut builder, &front);
    assert(builder.leaves() =~= leaves(front));
    rebuild_into(&mut builder, &back);
    builder.finish()
}

} // verus!
