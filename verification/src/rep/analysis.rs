//! Accounting for the memory that a tree holds.

use super::btree::BTREE_REP_SIZE;
use super::external::EXTERNAL_REP_SIZE;
use super::flat::size_of_tag;
use super::share::{held_by, lies_at, node_address, strong_count};
use super::{fits_below, CordRep, SUBSTRING_REP_SIZE};
use std::collections::BTreeSet;
use std::sync::Arc;
use vstd::prelude::*;

verus! {

/// A node as accounting sees it.
pub struct MemoryNode {
    /// What tells the node apart from all others.
    pub address: usize,
    /// The number of handles on the node.
    pub refcount: usize,
    /// The number of nodes above it.
    pub depth: usize,
    /// The bytes that the node itself accounts for.
    pub size: usize,
}

/// The nearest machine integer.
pub open spec fn saturated(n: int) -> int {
    if n <= usize::MAX {
        n
    } else {
        usize::MAX as int
    }
}

/// The bytes that the node `rep` itself accounts for.
pub open spec fn node_size(rep: CordRep) -> int {
    match rep {
        CordRep::Flat(flat) => size_of_tag(flat.tag as int),
        CordRep::External(ext) => saturated(ext.bytes().len() + EXTERNAL_REP_SIZE),
        CordRep::Substring(_) => SUBSTRING_REP_SIZE as int,
        CordRep::Btree(_) => BTREE_REP_SIZE as int,
    }
}

/// The depth and size of `rep` and of all nodes below it, where each node comes
/// before those below it.
pub open spec fn node_list(rep: CordRep, depth: int) -> Seq<(int, int)>
    decreases rep,
{
    seq![(depth, node_size(rep))] + match rep {
        CordRep::Substring(sub) => node_list(*sub.child, depth + 1),
        CordRep::Btree(node) => edge_list(node.edges@, depth + 1),
        _ => Seq::empty(),
    }
}

/// The depths and sizes of `edges` and of all nodes below them.
pub open spec fn edge_list(edges: Seq<Arc<CordRep>>, depth: int) -> Seq<(int, int)>
    decreases edges,
{
    if edges.len() == 0 {
        Seq::empty()
    } else {
        edge_list(edges.drop_last(), depth) + node_list(*edges.last(), depth)
    }
}

/// The depths and sizes of `nodes`.
pub open spec fn listed(nodes: Seq<MemoryNode>) -> Seq<(int, int)> {
    Seq::new(nodes.len(), |i: int| (nodes[i].depth as int, nodes[i].size as int))
}

/// The sum of the sizes in `list`.
pub open spec fn list_total(list: Seq<(int, int)>) -> int
    decreases list.len(),
{
    if list.len() == 0 {
        0
    } else {
        list_total(list.drop_last()) + list.last().1
    }
}

/// The sum of the sizes of `nodes`, where a node that comes again does not count.
pub open spec fn distinct_total(nodes: Seq<MemoryNode>) -> int
    decreases nodes.len(),
{
    if nodes.len() == 0 {
        0
    } else {
        let init = nodes.drop_last();
        distinct_total(init) + if addresses(init).contains(nodes.last().address) {
            0
        } else {
            nodes.last().size as int
        }
    }
}

/// The addresses of `nodes`.
pub open spec fn addresses(nodes: Seq<MemoryNode>) -> Set<usize>
    decreases nodes.len(),
{
    if nodes.len() == 0 {
        Set::empty()
    } else {
        addresses(nodes.drop_last()).insert(nodes.last().address)
    }
}

/// The number of levels of nodes below `rep`.
pub open spec fn levels_below(rep: CordRep) -> int {
    match rep {
        CordRep::Substring(_) => 1,
        CordRep::Btree(node) => node.height + 2,
        _ => 0,
    }
}

/// `rep` and all nodes below it, each before those below it.
pub open spec fn walk(rep: Arc<CordRep>) -> Seq<Arc<CordRep>>
    decreases rep,
{
    seq![rep] + match *rep {
        CordRep::Substring(sub) => walk(sub.child),
        CordRep::Btree(node) => walk_edges(node.edges@),
        _ => Seq::empty(),
    }
}

/// `edges` and all nodes below them, each before those below it.
pub open spec fn walk_edges(edges: Seq<Arc<CordRep>>) -> Seq<Arc<CordRep>>
    decreases edges,
{
    if edges.len() == 0 {
        Seq::empty()
    } else {
        walk_edges(edges.drop_last()) + walk(edges.last())
    }
}

/// What `node` says was read from `rep`: its number of handles, its address and its size.
pub open spec fn read_from(node: MemoryNode, rep: Arc<CordRep>) -> bool {
    &&& held_by(rep, node.refcount)
    &&& lies_at(rep, node.address)
    &&& node.size == node_size(*rep)
}

/// Each of `nodes` was read from the one of `reps` at its place.
pub open spec fn all_read(nodes: Seq<MemoryNode>, reps: Seq<Arc<CordRep>>) -> bool {
    &&& nodes.len() == reps.len()
    &&& forall|i: int| 0 <= i < nodes.len() ==> read_from(#[trigger] nodes[i], reps[i])
}

/// Every node has a handle.
pub open spec fn counted(nodes: Seq<MemoryNode>) -> bool {
    forall|i: int| 0 <= i < nodes.len() ==> #[trigger] nodes[i].refcount >= 1
}

/// Adds `rep` and all nodes below it to `nodes`.
fn collect_nodes(rep: &Arc<CordRep>, depth: usize, nodes: &mut Vec<MemoryNode>)
    requires
        rep.wf(),
        depth + levels_below(**rep) <= 30,
    ensures
        listed(final(nodes)@) == listed(old(nodes)@) + node_list(**rep, depth as int),
        counted(old(nodes)@) ==> counted(final(nodes)@),
        final(nodes)@.len() == old(nodes)@.len() + walk(*rep).len(),
        final(nodes)@.take(old(nodes)@.len() as int) == old(nodes)@,
        all_read(final(nodes)@.skip(old(nodes)@.len() as int), walk(*rep)),
    decreases rep,
{
    let ghost before = nodes@;
    let size: usize = match &**rep {
        CordRep::Flat(flat) => flat.allocated_size(),
        CordRep::External(ext) => ext.allocated_size(),
        CordRep::Substring(_) => SUBSTRING_REP_SIZE,
        CordRep::Btree(_) => BTREE_REP_SIZE,
    };
    nodes.push(MemoryNode { address: node_address(rep), refcount: strong_count(rep), depth, size });
    let ghost base = nodes@;
    let ghost start = before.len() as int;
    proof {
        assert(listed(base) =~= listed(before) + seq![(depth as int, node_size(**rep))]);
        assert(base.take(start) =~= before);
        assert(read_from(base[start], *rep));
        assert(all_read(base.skip(start), seq![*rep]));
    }
    match &**rep {
        CordRep::Substring(sub) => {
            collect_nodes(&sub.child, depth + 1, nodes);
            proof {
                assert(listed(nodes@) =~= listed(before) + node_list(**rep, depth as int));
                lemma_read_more(base, nodes@, start, seq![*rep], walk(sub.child));
            }
        },
        CordRep::Btree(node) => {
            let ghost edges = node.edges@;
            let mut i: usize = 0;
            proof {
                assert(edges.take(0) =~= Seq::<Arc<CordRep>>::empty());
                assert(listed(nodes@) =~= listed(base) + edge_list(edges.take(0), depth + 1));
                assert(seq![*rep] + walk_edges(edges.take(0)) =~= seq![*rep]);
            }
            while i < node.edges.len()
                invariant
                    i <= edges.len(),
                    edges == node.edges@,
                    **rep == CordRep::Btree(*node),
                    rep.wf(),
                    depth + levels_below(**rep) <= 30,
                    listed(nodes@) == listed(base) + edge_list(edges.take(i as int), depth + 1),
                    counted(before) ==> counted(nodes@),
                    start == before.len(),
                    nodes@.len() >= start,
                    nodes@.take(start) == before,
                    all_read(nodes@.skip(start), seq![*rep] + walk_edges(edges.take(i as int))),
                decreases edges.len() - i,
            {
                let ghost now = nodes@;
                proof {
                    assert(decreases_to!(**rep => (**rep)->Btree_0));
                    assert(decreases_to!(node.edges@ => node.edges@[i as int]));
                    assert(fits_below(*edges[i as int], node.height as int));
                    assert(edges.take(i + 1).drop_last() =~= edges.take(i as int));
                    assert(edges.take(i + 1).last() == edges[i as int]);
                }
                collect_nodes(&node.edges[i], depth + 1, nodes);
                proof {
                    assert(listed(nodes@) =~= listed(base) + edge_list(edges.take(i + 1), depth + 1));
                    let done = seq![*rep] + walk_edges(edges.take(i as int));
                    lemma_read_more(now, nodes@, start, done, walk(edges[i as int]));
                    assert(seq![*rep] + walk_edges(edges.take(i + 1)) =~= done + walk(edges[i as int]));
                }
                i += 1;
            }
            proof {
                assert(edges.take(i as int) =~= edges);
                assert(listed(nodes@) =~= listed(before) + node_list(**rep, depth as int));
            }
        },
        _ => {
            assert(listed(nodes@) =~= listed(before) + node_list(**rep, depth as int));
            assert(walk(*rep) =~= seq![*rep]);
        },
    }
}

/// What was read from `reps` stays, and what was added was read from `more`.
proof fn lemma_read_more(
    held: Seq<MemoryNode>,
    now: Seq<MemoryNode>,
    start: int,
    reps: Seq<Arc<CordRep>>,
    more: Seq<Arc<CordRep>>,
)
    requires
        0 <= start <= held.len(),
        all_read(held.skip(start), reps),
        now.len() == held.len() + more.len(),
        now.take(held.len() as int) == held,
        all_read(now.skip(held.len() as int), more),
    ensures
        now.take(start) == held.take(start),
        all_read(now.skip(start), reps + more),
{
    assert(now.take(start) =~= now.take(held.len() as int).take(start));
    assert forall|i: int| 0 <= i < now.skip(start).len() implies read_from(
        #[trigger] now.skip(start)[i],
        (reps + more)[i],
    ) by {
        if i < reps.len() {
            assert(now.skip(start)[i] == now.take(held.len() as int)[start + i]);
            assert(held.skip(start)[i] == held[start + i]);
        } else {
            assert(now.skip(start)[i] == now.skip(held.len() as int)[i - reps.len()]);
        }
    }
}

/// The node `rep` and all nodes below it, each before those below it.
pub fn memory_nodes(rep: &Arc<CordRep>) -> (nodes: Vec<MemoryNode>)
    requires
        rep.wf(),
    ensures
        listed(nodes@) == node_list(**rep, 0),
        counted(nodes@),
        all_read(nodes@, walk(*rep)),
{
    let mut nodes: Vec<MemoryNode> = Vec::new();
    collect_nodes(rep, 0, &mut nodes);
    assert(nodes@.skip(0) =~= nodes@);
    assert(listed(nodes@) =~= node_list(**rep, 0));
    nodes
}

/// The sum of the sizes of `nodes`.
pub fn sum_all(nodes: &Vec<MemoryNode>) -> (total: usize)
    ensures
        total == saturated(list_total(listed(nodes@))),
{
    let mut total: usize = 0;
    let mut i: usize = 0;
    let ghost list = listed(nodes@);
    assert(list.take(0) =~= Seq::<(int, int)>::empty());
    while i < nodes.len()
        invariant
            i <= nodes@.len(),
            list == listed(nodes@),
            total == saturated(list_total(list.take(i as int))),
            list_total(list.take(i as int)) >= 0,
        decreases nodes@.len() - i,
    {
        proof {
            assert(list.take(i + 1).drop_last() =~= list.take(i as int));
        }
        total = total.saturating_add(nodes[i].size);
        i += 1;
    }
    assert(list.take(i as int) =~= list);
    total
}

/// The sum of the sizes of `nodes`, where a node that comes again does not count.
pub fn sum_distinct(nodes: &Vec<MemoryNode>) -> (total: usize)
    ensures
        total == saturated(distinct_total(nodes@)),
{
    let mut seen: BTreeSet<usize> = BTreeSet::new();
    let mut total: usize = 0;
    let mut i: usize = 0;
    assert(nodes@.take(0) =~= Seq::<MemoryNode>::empty());
    while i < nodes.len()
        invariant
            i <= nodes@.len(),
            seen@ == addresses(nodes@.take(i as int)),
            total == saturated(distinct_total(nodes@.take(i as int))),
            distinct_total(nodes@.take(i as int)) >= 0,
        decreases nodes@.len() - i,
    {
        proof {
            assert(nodes@.take(i + 1).drop_last() =~= nodes@.take(i as int));
        }
        if seen.insert(nodes[i].address) {
            total = total.saturating_add(nodes[i].size);
        }
        i += 1;
    }
    assert(nodes@.take(i as int) =~= nodes@);
    total
}

/// The bytes that `rep` and all nodes below it account for. A node that is
/// reached more than once counts each time.
pub fn estimated_memory_usage(rep: &Arc<CordRep>) -> (total: usize)
    requires
        rep.wf(),
    ensures
        total == saturated(list_total(node_list(**rep, 0))),
{
    sum_all(&memory_nodes(rep))
}

/// The bytes that `rep` and all nodes below it account for. A node that is
/// reached more than once counts once: which nodes are the same is known only
/// when the tree is walked, so the result is that for some addresses of the
/// nodes here, and given by `sum_distinct` for the nodes found.
pub fn more_precise_memory_usage(rep: &Arc<CordRep>) -> (total: usize)
    requires
        rep.wf(),
    ensures
        exists|nodes: Seq<MemoryNode>|
            {
                &&& listed(nodes) == node_list(**rep, 0)
                &&& all_read(nodes, walk(*rep))
                &&& total == saturated(#[trigger] distinct_total(nodes))
            },
        saturated(node_size(**rep)) <= total <= saturated(list_total(node_list(**rep, 0))),
{
    let nodes = memory_nodes(rep);
    proof {
        law_distinct_bounds(nodes@);
        assert(listed(nodes@)[0] == node_list(**rep, 0)[0]);
    }
    sum_distinct(&nodes)
}

/// Counting nodes once gives no more than counting them each time, and at least the first node.
pub proof fn law_distinct_bounds(nodes: Seq<MemoryNode>)
    ensures
        0 <= distinct_total(nodes) <= list_total(listed(nodes)),
        nodes.len() > 0 ==> nodes[0].size <= distinct_total(nodes),
    decreases nodes.len(),
{
    if nodes.len() > 0 {
        law_distinct_bounds(nodes.drop_last());
        assert(listed(nodes).drop_last() =~= listed(nodes.drop_last()));
        if nodes.len() == 1 {
            assert(nodes.drop_last() =~= Seq::<MemoryNode>::empty());
        }
    }
}

/// Where all nodes differ, counting them once is counting them each time.
pub proof fn law_distinct_all(nodes: Seq<MemoryNode>)
    requires
        forall|i: int, j: int|
            0 <= i < j < nodes.len() ==> #[trigger] nodes[i].address != #[trigger] nodes[j].address,
    ensures
        distinct_total(nodes) == list_total(listed(nodes)),
    decreases nodes.len(),
{
    if nodes.len() > 0 {
        let init = nodes.drop_last();
        assert forall|i: int, j: int| 0 <= i < j < init.len() implies #[trigger] init[i].address
            != #[trigger] init[j].address by {
            assert(init[i] == nodes[i] && init[j] == nodes[j]);
        }
        law_distinct_all(init);
        assert(listed(nodes).drop_last() =~= listed(init));
        lemma_addresses(init);
        if addresses(init).contains(nodes.last().address) {
            let i = choose|i: int| 0 <= i < init.len() && #[trigger] init[i].address == nodes.last().address;
            assert(init[i] == nodes[i]);
            assert(nodes[nodes.len() - 1] == nodes.last());
        }
    }
}

/// An address belongs to one of the nodes.
proof fn lemma_addresses(nodes: Seq<MemoryNode>)
    ensures
        forall|a: usize|
            #[trigger] addresses(nodes).contains(a) ==> exists|i: int|
                0 <= i < nodes.len() && #[trigger] nodes[i].address == a,
    decreases nodes.len(),
{
    if nodes.len() > 0 {
        let init = nodes.drop_last();
        lemma_addresses(init);
        assert forall|a: usize| #[trigger] addresses(nodes).contains(a) implies exists|i: int|
            0 <= i < nodes.len() && #[trigger] nodes[i].address == a by {
            if addresses(init).contains(a) {
                let i = choose|i: int| 0 <= i < init.len() && #[trigger] init[i].address == a;
                assert(nodes[i] == init[i]);
            } else {
                assert(nodes[nodes.len() - 1].address == a);
            }
        }
    }
}

} // verus!
