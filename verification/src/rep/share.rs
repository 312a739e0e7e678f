//! Sharing of nodes through `Arc`.

use super::CordRep;
use std::sync::Arc;
use vstd::prelude::*;

verus! {

/// The node of `rep` may be held by `count` handles. By how many it is held is
/// known only to whoever reads the count, so which numbers these are is known
/// only here.
pub closed spec fn held_by(rep: Arc<CordRep>, count: usize) -> bool {
    count >= 1
}

/// The node of `rep` may lie at `address`. Where it lies is known only to
/// whoever asks for the address, so which addresses these are is known only here.
pub closed spec fn lies_at(rep: Arc<CordRep>, address: usize) -> bool {
    0 <= address
}

/// `a` and `b` may be handles on two nodes. Whether they are, is known only to
/// whoever asks.
pub closed spec fn lie_apart(a: Arc<CordRep>, b: Arc<CordRep>) -> bool {
    exists|x: usize, y: usize| x != y && #[trigger] lies_at(a, x) && #[trigger] lies_at(b, y)
}

/// The node of `rep` may be held by another handle too. Whether it is, is known
/// only to whoever asks, so which nodes these are is known only here.
pub closed spec fn held_twice(rep: Arc<CordRep>) -> bool {
    exists|count: usize| count > 1 && held_by(rep, count)
}

/// The last data edge below `rep`, or a node above it, may be held by another
/// handle too.
pub open spec fn leg_held_twice(rep: Arc<CordRep>) -> bool
    decreases rep,
{
    held_twice(rep) || match *rep {
        CordRep::Btree(node) => last_held_twice(node.edges@),
        _ => false,
    }
}

/// The same of the last one of `edges`.
pub open spec fn last_held_twice(edges: Seq<Arc<CordRep>>) -> bool
    decreases edges,
{
    edges.len() > 0 && leg_held_twice(edges.last())
}

/// `Arc::get_mut`: hands out the node for changing where `rep` is its only
/// holder, and nothing otherwise. The node handed out is the one that `rep`
/// held, and `rep` holds whatever it is changed to. Which of the two happens
/// is left open: it depends on who else holds the node.
#[verifier::external_body]
pub(crate) fn get_mut(rep: &mut Arc<CordRep>) -> (node: Option<&mut CordRep>)
    ensures
        match node {
            Some(node) => *node == **old(rep) && **final(rep) == *final(node),
            None => *final(rep) == *old(rep) && held_twice(*old(rep)),
        },
{
    Arc::get_mut(rep)
}

/// `Arc::strong_count`: how many handles hold the node of `rep` just now, at
/// least one. The number itself depends on who else holds the node, so all that
/// is said of it is that it was read from this node.
#[verifier::external_body]
pub(crate) fn strong_count(rep: &Arc<CordRep>) -> (count: usize)
    ensures
        count >= 1,
        held_by(*rep, count),
        count != 1 ==> held_twice(*rep),
{
    Arc::strong_count(rep)
}

/// `Arc::ptr_eq`: whether two handles hold one node, which then is the same
/// value through both. Distinct nodes may hold equal values.
#[verifier::external_body]
pub(crate) fn same_node(a: &Arc<CordRep>, b: &Arc<CordRep>) -> (same: bool)
    ensures
        same ==> *a == *b,
        !same ==> lie_apart(*a, *b),
{
    Arc::ptr_eq(a, b)
}

/// `Arc::as_ptr`: the address of the node of `rep`. It depends on the machine,
/// so all that is said of it is that it was read from this node.
#[verifier::external_body]
pub(crate) fn node_address(rep: &Arc<CordRep>) -> (address: usize)
    ensures
        lies_at(*rep, address),
{
    Arc::as_ptr(rep).addr()
}

} // verus!
