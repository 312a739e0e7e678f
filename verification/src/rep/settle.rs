//! Trees as cords hold them: no higher than needed.

use super::btree::MAX_HEIGHT;
use super::rebuild::{full_count, lemma_full_count_order, lemma_leaves_bound, packed, rebuild};
use super::stack::grown;
use super::{compact, leaves, CordRep};
use std::sync::Arc;
use vstd::prelude::*;

verus! {

/// What the tree of a cord is: a node above the leaf level stands above more
/// than one data edge, and the tree is higher than `MAX_HEIGHT` only for the
/// sake of data edges that no lower tree holds.
pub open spec fn settled(rep: Arc<CordRep>) -> bool {
    &&& compact(rep)
    &&& rep.height() <= MAX_HEIGHT || packed(rep)
}

/// The tree `rep`, rebuilt where it is higher than `MAX_HEIGHT`.
pub fn settle(rep: Arc<CordRep>) -> (r: Arc<CordRep>)
    requires
        rep.is_edge(),
        compact(rep),
    ensures
        r.is_edge(),
        settled(r),
        leaves(r) == leaves(rep),
        r.bytes() == rep.bytes(),
        rep.height() <= MAX_HEIGHT ==> r == rep,
{
    let high: bool = match &*rep {
        CordRep::Btree(node) => node.height > MAX_HEIGHT,
        _ => false,
    };
    if !high {
        return rep;
    }
    let r = rebuild(rep);
    proof {
        if r.height() > 0 {
            lemma_full_count_order(0, r.height() as nat);
        }
    }
    r
}

/// A tree of the height and number of data edges of a settled one is settled.
pub proof fn lemma_settled_same(a: Arc<CordRep>, b: Arc<CordRep>)
    requires
        settled(a),
        a.height() == b.height(),
        leaves(a).len() == leaves(b).len(),
    ensures
        settled(b),
{
}

/// A settled tree to which data edges are added is settled.
pub proof fn lemma_settled_grown(before: Arc<CordRep>, tree: Arc<CordRep>)
    requires
        settled(before),
        grown(tree, before.height()),
        leaves(before).len() <= leaves(tree).len(),
        leaves(tree).len() > 1,
    ensures
        settled(tree),
{
    if MAX_HEIGHT < tree.height() <= before.height() {
        lemma_full_count_order(tree.height() as nat, before.height() as nat);
    }
}

/// A settled tree is higher than `MAX_HEIGHT` if and only if it holds more
/// data edges than the largest tree of that height.
pub proof fn lemma_settled_height(rep: Arc<CordRep>)
    requires
        rep.is_edge(),
        settled(rep),
    ensures
        rep.height() <= MAX_HEIGHT <==> leaves(rep).len() <= full_count((MAX_HEIGHT + 1) as nat),
{
    if rep.height() > MAX_HEIGHT {
        lemma_full_count_order((MAX_HEIGHT + 1) as nat, rep.height() as nat);
    } else {
        lemma_leaves_bound(rep);
        lemma_full_count_order((rep.height() + 1) as nat, (MAX_HEIGHT + 1) as nat);
    }
}

} // verus!
