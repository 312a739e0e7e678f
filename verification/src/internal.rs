//! Inspection of how a cord holds its bytes.

use crate::cord::Cord;
use crate::edit::data_edges;
use crate::inline_data::InlineData;
use crate::rep::analysis::{
    all_read, distinct_total, estimated_memory_usage, list_total, listed, memory_nodes, more_precise_memory_usage,
    node_list, node_size, saturated, walk, MemoryNode,
};
use crate::rep::btree::{CordRepBtree, MAX_DEPTH, MAX_HEIGHT};
use crate::rep::edge::ref_get;
use crate::rep::external::Owner;
use crate::rep::flat::size_of_tag;
use crate::rep::rebuild::full_count;
use crate::rep::render::{describes, start_with, text};
use crate::rep::settle::lemma_settled_height;
use crate::rep::share::held_by;
use crate::rep::valid::{law_trees_are_valid, outcome, tree_fault, Invalid, Validation};
use crate::rep::{CordRep, CordRepSubstring};
use std::sync::Arc;
use vstd::prelude::*;
use vstd::slice::slice_to_vec;

verus! {

/// The size that a cord itself accounts for.
pub const CORD_SIZE: usize = 16;

/// How memory is counted.
#[derive(Clone, Copy, Debug, PartialEq, Eq, Structural)]
pub enum MemoryAccounting {
    /// What the cord reaches, each time it reaches it.
    Total,
    /// What the cord reaches, once.
    TotalMorePrecise,
    /// What the cord reaches, shared among all that hold it.
    FairShare,
}

impl Default for MemoryAccounting {
    fn default() -> (r: MemoryAccounting)
        ensures
            r == MemoryAccounting::Total,
    {
        MemoryAccounting::Total
    }
}

/// Every cord passes the deepest check, unless it has more data edges than
/// any tree that passes can hold. All cords, whatever operations they come
/// from, hold their bytes in such valid contents.
pub proof fn law_cords_are_valid(data: InlineData)
    requires
        data.wf(),
    ensures
        data matches InlineData::Tree(tree) ==> {
            &&& tree.height() <= MAX_HEIGHT <==> data_edges(data).len() <= full_count(MAX_DEPTH as nat)
            &&& *tree is Btree ==> (tree_fault(*tree, true) is None <==> data_edges(data).len() <= full_count(
                MAX_DEPTH as nat,
            ))
        },
{
    if let InlineData::Tree(tree) = data {
        lemma_settled_height(tree);
        match *tree {
            CordRep::Btree(node) => {
                if node.height <= MAX_HEIGHT {
                    law_trees_are_valid(tree, true);
                }
            },
            _ => {},
        }
    }
}

/// The root of the tree, if the cord holds one.
pub fn root(cord: &Cord) -> (r: Option<&Arc<CordRep>>)
    ensures
        match r {
            Some(tree) => cord.contents() == InlineData::Tree(*tree) && tree.is_edge(),
            None => cord.contents() is Inline,
        },
{
    cord.data().tree()
}

/// Whether the cord holds a tree, rather than bytes in place.
pub fn is_tree(cord: &Cord) -> (r: bool)
    ensures
        r == (cord.contents() is Tree),
{
    cord.data().is_tree()
}

/// Whether the cord holds a tree node.
pub fn is_btree(cord: &Cord) -> (r: bool)
    ensures
        r == (cord.contents() matches InlineData::Tree(tree) && *tree is Btree),
{
    match root(cord) {
        Some(tree) => tree.is_btree(),
        None => false,
    }
}

/// Whether the cord holds a single flat block.
pub fn is_flat(cord: &Cord) -> (r: bool)
    ensures
        r == (cord.contents() matches InlineData::Tree(tree) && *tree is Flat),
{
    match root(cord) {
        Some(tree) => tree.is_flat(),
        None => false,
    }
}

/// Whether the cord holds a single external block.
pub fn is_external(cord: &Cord) -> (r: bool)
    ensures
        r == (cord.contents() matches InlineData::Tree(tree) && *tree is External),
{
    match root(cord) {
        Some(tree) => tree.is_external(),
        None => false,
    }
}

/// Whether the cord holds a single window.
pub fn is_substring(cord: &Cord) -> (r: bool)
    ensures
        r == (cord.contents() matches InlineData::Tree(tree) && *tree is Substring),
{
    match root(cord) {
        Some(tree) => tree.is_substring(),
        None => false,
    }
}

/// The height of the tree node, if the cord holds one.
pub fn btree_height(cord: &Cord) -> (r: Option<usize>)
    ensures
        match cord.contents() {
            InlineData::Tree(tree) => match *tree {
                CordRep::Btree(node) => r == Some(node.height),
                _ => r is None,
            },
            InlineData::Inline(_) => r is None,
        },
{
    match root(cord) {
        Some(tree) => match &**tree {
            CordRep::Btree(node) => Some(node.height),
            _ => None,
        },
        None => None,
    }
}

/// The number of handles on the root of the tree: none if the cord holds its
/// bytes in place, and otherwise at least its own.
pub fn root_refcount(cord: &Cord) -> (n: usize)
    ensures
        cord.contents() is Inline <==> n == 0,
        cord.contents() matches InlineData::Tree(tree) ==> held_by(tree, n),
{
    match root(cord) {
        Some(tree) => ref_get(tree),
        None => 0,
    }
}

/// Checks the structure of the tree. Bytes in place and data edges are always valid.
pub fn validate(cord: &Cord) -> (r: Result<(), Invalid>)
    ensures
        match cord.contents() {
            InlineData::Tree(tree) => r == if *tree is Btree { outcome(tree_fault(*tree, true)) } else { Ok(()) },
            InlineData::Inline(_) => r is Ok,
        },
        r is Ok <==> cord.edges().len() <= full_count(MAX_DEPTH as nat),
{
    let data = cord.data();
    proof {
        law_cords_are_valid(*data);
    }
    match root(cord) {
        Some(tree) => {
            if tree.is_btree() {
                Validation::new().check_valid(tree, false)
            } else {
                Ok(())
            }
        },
        None => Ok(()),
    }
}

/// The description of the tree as text, with the first bytes of data edges if `include_contents`.
pub fn dump(cord: &Cord, include_contents: bool) -> (out: Vec<u8>)
    ensures
        match cord.contents() {
            InlineData::Tree(tree) => describes(out@, Some(&tree), "", include_contents),
            InlineData::Inline(_) => out@ == text("(inline)\n"),
        },
{
    match root(cord) {
        Some(tree) => CordRepBtree::dump(Some(tree), "", include_contents),
        None => start_with("(inline)\n"),
    }
}

/// Sets whether all nodes are checked, whatever the caller asks for.
pub fn set_exhaustive_validation(validation: &mut Validation, enabled: bool)
    ensures
        final(validation).exhaustive == enabled,
{
    validation.set_exhaustive_validation(enabled);
}

/// A cord that holds `data` in a single external block, whatever its size.
pub fn make_external(data: &[u8]) -> (cord: Cord)
    ensures
        cord@ == data@,
        data@.len() > 0 ==> (cord.contents() matches InlineData::Tree(tree) && *tree is External),
{
    if data.len() == 0 {
        assert(data@ =~= Seq::<u8>::empty());
        return Cord::new();
    }
    Cord::from_data(InlineData::Tree(CordRep::external(Owner::Vector(slice_to_vec(data)))))
}

/// A cord that holds the `len` bytes at `offset` of the block of `src`, as a window.
pub fn make_substring(src: &Cord, offset: usize, len: usize) -> (cord: Cord)
    requires
        src.contents() matches InlineData::Tree(tree) && tree.is_block(),
        0 < len,
        offset + len <= src@.len(),
    ensures
        cord@ == src@.subrange(offset as int, offset + len),
        cord.contents() matches InlineData::Tree(tree) && *tree is Substring && (*tree)->Substring_0.start == offset
            && (*tree)->Substring_0.child == src.contents()->Tree_0,
{
    match root(src) {
        Some(tree) => Cord::from_data(InlineData::Tree(CordRepSubstring::create(tree.clone(), offset, len))),
        None => Cord::new(),
    }
}

/// The accounted size of the flat block, if the cord holds one.
pub fn flat_allocated_size(cord: &Cord) -> (r: Option<usize>)
    ensures
        match cord.contents() {
            InlineData::Tree(tree) => match *tree {
                CordRep::Flat(flat) => r matches Some(size) && size == size_of_tag(flat.tag as int),
                _ => r is None,
            },
            InlineData::Inline(_) => r is None,
        },
{
    match root(cord) {
        Some(tree) => match &**tree {
            CordRep::Flat(flat) => Some(flat.allocated_size()),
            _ => None,
        },
        None => None,
    }
}

impl Cord {
    /// The bytes that the cord accounts for. The fair share of a tree is a
    /// weighted sum of what `memory_nodes` lists, and not computed here.
    pub fn estimated_memory_usage(&self, accounting: MemoryAccounting) -> (r: Option<usize>)
        ensures
            accounting == MemoryAccounting::FairShare && self.contents() is Tree <==> r is None,
            match self.contents() {
                InlineData::Inline(_) => r matches Some(size) ==> size == CORD_SIZE,
                InlineData::Tree(tree) => r matches Some(size) ==> {
                    let total = saturated(CORD_SIZE + saturated(list_total(node_list(*tree, 0))));
                    &&& accounting == MemoryAccounting::Total ==> size == total
                    &&& accounting == MemoryAccounting::TotalMorePrecise ==> exists|nodes: Seq<MemoryNode>|
                        {
                            &&& listed(nodes) == node_list(*tree, 0)
                            &&& all_read(nodes, walk(tree))
                            &&& size == saturated(CORD_SIZE + saturated(#[trigger] distinct_total(nodes)))
                        }
                    &&& accounting == MemoryAccounting::TotalMorePrecise ==> saturated(
                        CORD_SIZE + saturated(node_size(*tree)),
                    ) <= size <= total
                },
            },
    {
        match root(self) {
            None => Some(CORD_SIZE),
            Some(tree) => match accounting {
                MemoryAccounting::Total => Some(CORD_SIZE.saturating_add(estimated_memory_usage(tree))),
                MemoryAccounting::TotalMorePrecise => Some(
                    CORD_SIZE.saturating_add(more_precise_memory_usage(tree)),
                ),
                MemoryAccounting::FairShare => None,
            },
        }
    }

    /// The nodes of the tree as accounting sees them, each before those below it.
    pub fn memory_nodes(&self) -> (nodes: Vec<MemoryNode>)
        ensures
            match self.contents() {
                InlineData::Inline(_) => nodes@.len() == 0,
                InlineData::Tree(tree) => listed(nodes@) == node_list(*tree, 0) && all_read(nodes@, walk(tree)),
            },
            crate::rep::analysis::counted(nodes@),
    {
        match root(self) {
            None => Vec::new(),
            Some(tree) => memory_nodes(tree),
        }
    }
}

} // verus!
