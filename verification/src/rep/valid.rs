//! Checking the structure of a tree.

use super::btree::{CordRepBtree, MAX_CAPACITY, MAX_HEIGHT};
use super::edge::is_data_edge;
use super::{edges_bytes, fits_below, CordRep};
use std::sync::Arc;
use vstd::prelude::*;

verus! {

/// What is wrong with a tree node.
#[derive(Clone, Copy, Debug, PartialEq, Eq, Structural)]
pub enum Invalid {
    /// The node is no tree node.
    NotTree,
    /// The node is higher than `MAX_HEIGHT`.
    TooHigh,
    /// The node has more than `MAX_CAPACITY` edges.
    TooManyEdges,
    /// An edge of an inner node is no tree node.
    EdgeNotTree,
    /// An edge of an inner node is not one level below it.
    EdgeHeight,
    /// An edge of a leaf node is no data edge.
    EdgeNotData,
    /// The lengths of the edges do not sum up to that of the node.
    Length,
}

impl CordRep {
    /// The length that the node states.
    pub open spec fn spec_stored_len(&self) -> nat {
        match *self {
            CordRep::Flat(flat) => flat.data@.len(),
            CordRep::External(ext) => ext.bytes().len(),
            CordRep::Substring(sub) => sub.length as nat,
            CordRep::Btree(node) => node.length as nat,
        }
    }

    /// The length that the node states.
    pub fn stored_len(&self) -> (len: usize)
        ensures
            len == self.spec_stored_len(),
    {
        match self {
            CordRep::Flat(flat) => flat.len(),
            CordRep::External(ext) => ext.len(),
            CordRep::Substring(sub) => sub.length,
            CordRep::Btree(node) => node.length,
        }
    }
}

/// The sum of the lengths that `edges` state.
pub open spec fn stored_total(edges: Seq<Arc<CordRep>>) -> nat
    decreases edges.len(),
{
    if edges.len() == 0 {
        0
    } else {
        stored_total(edges.drop_last()) + edges.last().spec_stored_len()
    }
}

/// What is wrong with `edge` below a node of height `height`.
pub open spec fn edge_fault(edge: CordRep, height: usize) -> Option<Invalid> {
    if height == 0 {
        if edge.data_edge() {
            None
        } else {
            Some(Invalid::EdgeNotData)
        }
    } else if !(edge is Btree) {
        Some(Invalid::EdgeNotTree)
    } else if edge.height() != height - 1 {
        Some(Invalid::EdgeHeight)
    } else {
        None
    }
}

/// What is wrong with the first faulty one of `edges` below a node of height `height`.
pub open spec fn edges_fault(edges: Seq<Arc<CordRep>>, height: usize) -> Option<Invalid>
    decreases edges.len(),
{
    if edges.len() == 0 {
        None
    } else if edges_fault(edges.drop_last(), height) is Some {
        edges_fault(edges.drop_last(), height)
    } else {
        edge_fault(*edges.last(), height)
    }
}

/// What is wrong with the node `node` and the kinds, heights and lengths of its edges.
pub open spec fn node_fault(node: CordRepBtree) -> Option<Invalid> {
    if node.height > MAX_HEIGHT {
        Some(Invalid::TooHigh)
    } else if node.edges@.len() > MAX_CAPACITY {
        Some(Invalid::TooManyEdges)
    } else if edges_fault(node.edges@, node.height) is Some {
        edges_fault(node.edges@, node.height)
    } else if stored_total(node.edges@) != node.length {
        Some(Invalid::Length)
    } else {
        None
    }
}

/// What is wrong with the tree node `rep`, or with the first faulty node below
/// it if the check is `deep`.
pub open spec fn tree_fault(rep: CordRep, deep: bool) -> Option<Invalid>
    decreases rep,
{
    match rep {
        CordRep::Btree(node) => {
            if node_fault(node) is Some || !deep || node.height == 0 {
                node_fault(node)
            } else {
                below_fault(node.edges@)
            }
        },
        _ => Some(Invalid::NotTree),
    }
}

/// What is wrong with the first faulty one of the tree nodes `edges`, or below it.
pub open spec fn below_fault(edges: Seq<Arc<CordRep>>) -> Option<Invalid>
    decreases edges,
{
    if edges.len() == 0 {
        None
    } else if below_fault(edges.drop_last()) is Some {
        below_fault(edges.drop_last())
    } else {
        tree_fault(*edges.last(), true)
    }
}

/// The result of a check that found `fault`.
pub open spec fn outcome(fault: Option<Invalid>) -> Result<(), Invalid> {
    match fault {
        None => Ok(()),
        Some(fault) => Err(fault),
    }
}

/// The settings of checks.
pub struct Validation {
    /// All nodes are checked, whatever the caller asks for.
    pub exhaustive: bool,
}

impl Validation {
    /// Checks go as deep as the caller asks for.
    pub fn new() -> (r: Validation)
        ensures
            !r.exhaustive,
    {
        Validation { exhaustive: false }
    }

    /// Sets whether all nodes are checked, whatever the caller asks for.
    pub fn set_exhaustive_validation(&mut self, enabled: bool)
        ensures
            final(self).exhaustive == enabled,
    {
        self.exhaustive = enabled;
    }

    /// Whether all nodes are checked, whatever the caller asks for.
    pub fn is_exhaustive_validation_enabled(&self) -> (r: bool)
        ensures
            r == self.exhaustive,
    {
        self.exhaustive
    }

    /// Checks the tree node `rep`. If `shallow`, only the node and the kinds,
    /// heights and lengths of its edges are checked.
    pub fn check_valid(&self, rep: &CordRep, shallow: bool) -> (r: Result<(), Invalid>)
        ensures
            r == outcome(tree_fault(*rep, !shallow || self.exhaustive)),
    {
        check_tree(rep, !shallow || self.exhaustive)
    }

    /// Whether the tree node `rep` is valid.
    pub fn is_valid(&self, rep: &CordRep, shallow: bool) -> (r: bool)
        ensures
            r == (tree_fault(*rep, !shallow || self.exhaustive) is None),
    {
        self.check_valid(rep, shallow).is_ok()
    }
}

/// Checks the node `node` and the kinds, heights and lengths of its edges.
fn check_node(node: &CordRepBtree) -> (r: Result<(), Invalid>)
    ensures
        r == outcome(node_fault(*node)),
{
    if node.height > MAX_HEIGHT {
        return Err(Invalid::TooHigh);
    }
    if node.edges.len() > MAX_CAPACITY {
        return Err(Invalid::TooManyEdges);
    }
    let ghost edges = node.edges@;
    let mut fault: Option<Invalid> = None;
    let mut sum: Option<usize> = Some(0);
    let mut i: usize = 0;
    assert(edges.take(0) =~= Seq::<Arc<CordRep>>::empty());
    while i < node.edges.len()
        invariant
            i <= edges.len(),
            edges == node.edges@,
            fault == edges_fault(edges.take(i as int), node.height),
            match sum {
                Some(sum) => sum == stored_total(edges.take(i as int)),
                None => stored_total(edges.take(i as int)) > usize::MAX,
            },
        decreases edges.len() - i,
    {
        let edge = &node.edges[i];
        proof {
            assert(edges.take(i + 1).drop_last() =~= edges.take(i as int));
            assert(edges.take(i + 1).last() == edges[i as int]);
        }
        if fault.is_none() {
            fault = check_edge(edge, node.height);
        }
        sum = match sum {
            Some(sum) => sum.checked_add(edge.stored_len()),
            None => None,
        };
        i += 1;
    }
    assert(edges.take(i as int) =~= edges);
    if let Some(fault) = fault {
        return Err(fault);
    }
    match sum {
        Some(sum) => {
            if sum == node.length {
                Ok(())
            } else {
                Err(Invalid::Length)
            }
        },
        None => Err(Invalid::Length),
    }
}

/// Checks the kind and height of `edge` below a node of height `height`.
fn check_edge(edge: &CordRep, height: usize) -> (fault: Option<Invalid>)
    ensures
        fault == edge_fault(*edge, height),
{
    if height == 0 {
        return if is_data_edge(edge) {
            None
        } else {
            Some(Invalid::EdgeNotData)
        };
    }
    match edge {
        CordRep::Btree(child) => {
            if child.height != height - 1 {
                Some(Invalid::EdgeHeight)
            } else {
                None
            }
        },
        _ => Some(Invalid::EdgeNotTree),
    }
}

/// Checks the tree node `rep`, and all nodes below it if the check is `deep`.
fn check_tree(rep: &CordRep, deep: bool) -> (r: Result<(), Invalid>)
    ensures
        r == outcome(tree_fault(*rep, deep)),
    decreases rep,
{
    match rep {
        CordRep::Btree(node) => {
            let checked = check_node(node);
            if checked.is_err() || !deep || node.height == 0 {
                return checked;
            }
            let ghost edges = node.edges@;
            let mut result: Result<(), Invalid> = Ok(());
            let mut i: usize = 0;
            assert(edges.take(0) =~= Seq::<Arc<CordRep>>::empty());
            while i < node.edges.len()
                invariant
                    i <= edges.len(),
                    edges == node.edges@,
                    *rep == CordRep::Btree(*node),
                    result == outcome(below_fault(edges.take(i as int))),
                decreases edges.len() - i,
            {
                proof {
                    assert(decreases_to!(*rep => (*rep)->Btree_0));
                    assert(decreases_to!(node.edges@ => node.edges@[i as int]));
                    assert(edges.take(i + 1).drop_last() =~= edges.take(i as int));
                    assert(edges.take(i + 1).last() == edges[i as int]);
                }
                if result.is_ok() {
                    result = check_tree(&node.edges[i], true);
                }
                i += 1;
            }
            assert(edges.take(i as int) =~= edges);
            result
        },
        _ => Err(Invalid::NotTree),
    }
}

/// A node states the length that it has.
proof fn lemma_stored_len(rep: Arc<CordRep>)
    requires
        rep.wf(),
    ensures
        rep.spec_stored_len() == rep.bytes().len(),
{
}

/// Valid edges state the lengths that they have.
proof fn lemma_stored_total(edges: Seq<Arc<CordRep>>)
    requires
        forall|i: int| #![trigger edges[i]] 0 <= i < edges.len() ==> edges[i].wf(),
    ensures
        stored_total(edges) == edges_bytes(edges).len(),
    decreases edges.len(),
{
    if edges.len() > 0 {
        let init = edges.drop_last();
        assert forall|i: int| #![trigger init[i]] 0 <= i < init.len() implies init[i].wf() by {
            assert(init[i] == edges[i]);
        }
        lemma_stored_total(init);
        assert(edges[edges.len() - 1].wf());
        lemma_stored_len(edges.last());
    }
}

/// Edges of the right kind have no fault.
proof fn lemma_no_edges_fault(edges: Seq<Arc<CordRep>>, height: usize)
    requires
        forall|i: int| #![trigger edges[i]] 0 <= i < edges.len() ==> fits_below(*edges[i], height as int),
    ensures
        edges_fault(edges, height) is None,
    decreases edges.len(),
{
    if edges.len() > 0 {
        let init = edges.drop_last();
        assert forall|i: int| #![trigger init[i]] 0 <= i < init.len() implies fits_below(*init[i], height as int) by {
            assert(init[i] == edges[i]);
        }
        lemma_no_edges_fault(init, height);
        assert(fits_below(*edges[edges.len() - 1], height as int));
    }
}

/// Valid trees have no fault below them.
proof fn lemma_no_below_fault(edges: Seq<Arc<CordRep>>, height: int)
    requires
        0 <= height <= MAX_HEIGHT,
        forall|i: int| #![trigger edges[i]] 0 <= i < edges.len() ==> edges[i].is_tree(height),
    ensures
        below_fault(edges) is None,
    decreases edges,
{
    if edges.len() > 0 {
        let init = edges.drop_last();
        assert forall|i: int| #![trigger init[i]] 0 <= i < init.len() implies init[i].is_tree(height) by {
            assert(init[i] == edges[i]);
        }
        lemma_no_below_fault(init, height);
        assert(edges[edges.len() - 1].is_tree(height));
        law_trees_are_valid(edges.last(), true);
    }
}

/// Every tree that the operations make passes the deepest check, as long as it
/// is not higher than `MAX_HEIGHT`.
pub proof fn law_trees_are_valid(rep: Arc<CordRep>, deep: bool)
    requires
        rep.is_tree(rep.height()),
        rep.height() <= MAX_HEIGHT,
    ensures
        tree_fault(*rep, deep) is None,
    decreases rep,
{
    match *rep {
        CordRep::Btree(node) => {
            lemma_stored_total(node.edges@);
            lemma_no_edges_fault(node.edges@, node.height);
            if node.height > 0 {
                assert forall|i: int| #![trigger node.edges@[i]] 0 <= i < node.edges@.len() implies node.edges@[i].is_tree(
                    node.height - 1,
                ) by {
                    assert(fits_below(*node.edges@[i], node.height as int));
                }
                lemma_no_below_fault(node.edges@, node.height - 1);
            }
        },
        _ => {},
    }
}

} // verus!
