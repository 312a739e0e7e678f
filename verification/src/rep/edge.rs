//! Data edges: blocks and windows onto blocks.

use super::external::{CordRepExternal, Owner, EXTERNAL_REP_SIZE};
use super::flat::{is_flat_tag, CordRepFlat};
use super::share::{get_mut, held_by, held_twice, strong_count};
use super::{lemma_len_fits, CordRep, CordRepSubstring, BTREE, EXTERNAL, SUBSTRING};
use std::sync::Arc;
use super::shared::{block_of, trimmed};
use vstd::prelude::*;

verus! {

impl CordRep {
    /// The number of bytes that this node stands for.
    pub fn len(&self) -> (len: usize)
        requires
            self.wf(),
        ensures
            len == self.bytes().len(),
    {
        match self {
            CordRep::Flat(flat) => flat.len(),
            CordRep::External(ext) => ext.len(),
            CordRep::Substring(sub) => sub.length,
            CordRep::Btree(node) => node.length,
        }
    }

    /// The byte that tells the kinds of nodes apart, and for a flat block its size class.
    pub open spec fn spec_tag(self) -> u8 {
        match self {
            CordRep::Flat(flat) => flat.tag,
            CordRep::External(_) => EXTERNAL,
            CordRep::Substring(_) => SUBSTRING,
            CordRep::Btree(_) => BTREE,
        }
    }

    /// The byte that tells the kinds of nodes apart, and for a flat block its size class.
    pub fn tag(&self) -> (tag: u8)
        ensures
            tag == self.spec_tag(),
            self.wf() ==> (self is Flat <==> is_flat_tag(tag)),
    {
        match self {
            CordRep::Flat(flat) => flat.tag,
            CordRep::External(_) => EXTERNAL,
            CordRep::Substring(_) => SUBSTRING,
            CordRep::Btree(_) => BTREE,
        }
    }

    /// This node is a window.
    pub fn is_substring(&self) -> (r: bool)
        ensures
            r == (self is Substring),
    {
        matches!(self, CordRep::Substring(_))
    }

    /// This node is a tree node.
    pub fn is_btree(&self) -> (r: bool)
        ensures
            r == (self is Btree),
    {
        matches!(self, CordRep::Btree(_))
    }

    /// This node is an external block.
    pub fn is_external(&self) -> (r: bool)
        ensures
            r == (self is External),
    {
        matches!(self, CordRep::External(_))
    }

    /// This node is a flat block.
    pub fn is_flat(&self) -> (r: bool)
        ensures
            r == (self is Flat),
    {
        matches!(self, CordRep::Flat(_))
    }

    /// Makes an external block that holds `owner`.
    pub fn external(owner: Owner) -> (rep: Arc<CordRep>)
        ensures
            rep.wf(),
            *rep == CordRep::External(CordRepExternal { owner }),
            rep.bytes() == owner.bytes(),
    {
        let _whole: usize = owner.as_bytes().len();
        Arc::new(CordRep::External(CordRepExternal { owner }))
    }

    /// Makes a node of the flat block `flat`.
    pub fn flat(flat: CordRepFlat) -> (rep: Arc<CordRep>)
        requires
            flat.wf(),
        ensures
            rep.wf(),
            *rep is Flat,
            (*rep)->Flat_0 == flat,
            rep.bytes() == flat.data@,
    {
        Arc::new(CordRep::Flat(flat))
    }
}

impl CordRepExternal {
    /// The accounted size, bytes and bookkeeping; the largest integer where
    /// the sum is beyond it.
    pub fn allocated_size(&self) -> (size: usize)
        ensures
            self.bytes().len() + EXTERNAL_REP_SIZE <= usize::MAX ==> size == self.bytes().len()
                + EXTERNAL_REP_SIZE,
            self.bytes().len() + EXTERNAL_REP_SIZE > usize::MAX ==> size == usize::MAX,
    {
        self.len().saturating_add(EXTERNAL_REP_SIZE)
    }
}

/// The number of handles on the node of `rep`, at least one.
pub fn ref_get(rep: &Arc<CordRep>) -> (count: usize)
    ensures
        count >= 1,
        held_by(*rep, count),
        count != 1 ==> held_twice(*rep),
{
    strong_count(rep)
}

/// Whether `edge` is a block or a window onto one.
pub fn is_data_edge(edge: &CordRep) -> (r: bool)
    ensures
        r == edge.data_edge(),
{
    match edge {
        CordRep::Flat(_) => true,
        CordRep::External(_) => true,
        CordRep::Substring(sub) => match &*sub.child {
            CordRep::Flat(_) => true,
            CordRep::External(_) => true,
            _ => false,
        },
        CordRep::Btree(_) => false,
    }
}

/// The bytes of a flat or external block.
fn block_data(block: &CordRep) -> (data: &[u8])
    requires
        block.is_block(),
    ensures
        data@ == block.bytes(),
{
    match block {
        CordRep::Flat(flat) => flat.data(),
        CordRep::External(ext) => ext.data(),
        _ => {
            proof { assert(false); }
            &[]
        },
    }
}

/// The bytes of the data edge `edge`.
pub fn edge_data(edge: &CordRep) -> (data: &[u8])
    requires
        edge.data_edge(),
        edge.wf(),
    ensures
        data@ == edge.bytes(),
{
    match edge {
        CordRep::Substring(sub) => {
            let data = block_data(&sub.child);
            let _whole: usize = data.len();
            vstd::slice::slice_subrange(data, sub.start, sub.start + sub.length)
        },
        _ => block_data(edge),
    }
}

/// Makes a window of `n` bytes at `offset` onto the data edge `rep`. A window
/// onto a window becomes a window onto the block behind it.
pub fn create_substring(rep: Arc<CordRep>, offset: usize, n: usize) -> (sub: Arc<CordRep>)
    requires
        rep.data_edge(),
        rep.wf(),
        n != 0,
        offset + n <= rep.bytes().len(),
    ensures
        sub.is_leaf_edge(),
        *sub is Substring,
        sub.bytes() == rep.bytes().subrange(offset as int, offset + n),
        match *rep {
            CordRep::Substring(outer) => {
                &&& (*sub)->Substring_0.start == outer.start + offset
                &&& (*sub)->Substring_0.child == outer.child
            },
            _ => (*sub)->Substring_0.start == offset && (*sub)->Substring_0.child == rep,
        },
{
    let result = match &*rep {
        CordRep::Substring(outer) => {
            proof {
                lemma_len_fits(outer.child);
            }
            CordRepSubstring { start: outer.start + offset, length: n, child: outer.child.clone() }
        },
        _ => CordRepSubstring { start: offset, length: n, child: rep.clone() },
    };
    let sub = Arc::new(CordRep::Substring(result));
    assert(sub.bytes() =~= rep.bytes().subrange(offset as int, offset + n));
    sub
}

/// `rep` if `n` is its length, nothing if `n` is zero, and otherwise the
/// window of `n` bytes at `offset`.
pub fn make_substring(rep: Arc<CordRep>, offset: usize, n: usize) -> (sub: Option<Arc<CordRep>>)
    requires
        rep.data_edge(),
        rep.wf(),
        offset + n <= rep.bytes().len(),
    ensures
        n == rep.bytes().len() ==> sub == Some(rep),
        n == 0 && rep.bytes().len() > 0 ==> sub is None,
        n > 0 ==> {
            &&& sub is Some
            &&& sub->0.is_leaf_edge()
            &&& sub->0.bytes() == rep.bytes().subrange(offset as int, offset + n)
            &&& block_of(sub->0) == block_of(rep)
        },
{
    if n == rep.len() {
        assert(rep.bytes().subrange(offset as int, offset + n) =~= rep.bytes());
        return Some(rep);
    }
    if n == 0 {
        return None;
    }
    Some(create_substring(rep, offset, n))
}

/// The bytes of `rep` from `offset` on.
pub fn make_substring_from(rep: Arc<CordRep>, offset: usize) -> (sub: Arc<CordRep>)
    requires
        rep.data_edge(),
        rep.wf(),
        offset < rep.bytes().len(),
    ensures
        sub.is_leaf_edge(),
        sub.bytes() == rep.bytes().skip(offset as int),
        offset == 0 ==> sub == rep,
        block_of(sub) == block_of(rep),
{
    proof {
        assert(rep.bytes().skip(offset as int) =~= rep.bytes().subrange(
            offset as int,
            rep.bytes().len() as int,
        ));
    }
    if offset == 0 {
        assert(rep.bytes().skip(0) =~= rep.bytes());
        return rep;
    }
    let n: usize = rep.len() - offset;
    create_substring(rep, offset, n)
}

/// Cuts `edge` down to its first `length` bytes: in place where a flat block
/// or a window is held by no one else, and by a new window otherwise.
pub fn resize_edge(edge: Arc<CordRep>, length: usize) -> (resized: Arc<CordRep>)
    requires
        edge.data_edge(),
        edge.wf(),
        0 < length <= edge.bytes().len(),
    ensures
        resized.is_leaf_edge(),
        resized.bytes() == edge.bytes().take(length as int),
        length == edge.bytes().len() ==> resized == edge,
        trimmed(resized, edge),
        *resized is Substring || *resized is Flat || *resized is External,
        *edge is Flat && !(*resized is Flat) ==> held_twice(edge),
        *edge is External && length < edge.bytes().len() ==> *resized is Substring,
{
    proof {
        assert(edge.bytes().take(length as int) =~= edge.bytes().subrange(0, length as int));
    }
    if length >= edge.len() {
        assert(edge.bytes().take(length as int) =~= edge.bytes());
        return edge;
    }
    let ghost whole = edge;
    let mut edge = edge;
    let resized: bool = match get_mut(&mut edge) {
        Some(CordRep::Flat(flat)) => {
            flat.data.truncate(length);
            true
        },
        Some(CordRep::Substring(sub)) => {
            sub.length = length;
            true
        },
        _ => false,
    };
    if resized {
        proof {
            assert(edge.bytes() =~= whole.bytes().take(length as int));
            if let CordRep::Flat(flat) = *whole {
                assert(flat.data@.take(length as int) =~= flat.data@.subrange(0, length as int));
            }
        }
        return edge;
    }
    create_substring(edge, 0, length)
}

impl CordRepSubstring {
    /// Makes a window of `n` bytes at `pos` onto the block `child`.
    pub fn create(child: Arc<CordRep>, pos: usize, n: usize) -> (sub: Arc<CordRep>)
        requires
            child.is_block(),
            child.wf(),
            n > 0,
            pos + n <= child.bytes().len(),
        ensures
            sub.is_leaf_edge(),
            *sub is Substring,
            (*sub)->Substring_0.start == pos,
            (*sub)->Substring_0.child == child,
            sub.bytes() == child.bytes().subrange(pos as int, pos + n),
    {
        create_substring(child, pos, n)
    }

    /// The `n` bytes at `pos` of the data edge `rep`: `rep` itself where that is all of it.
    pub fn substring(rep: &Arc<CordRep>, pos: usize, n: usize) -> (sub: Arc<CordRep>)
        requires
            rep.data_edge(),
            rep.wf(),
            n > 0,
            pos + n <= rep.bytes().len(),
        ensures
            sub.is_leaf_edge(),
            n == rep.bytes().len() ==> sub == *rep,
            n < rep.bytes().len() ==> *sub is Substring,
            block_of(sub) == block_of(*rep),
            sub.bytes() == rep.bytes().subrange(pos as int, pos + n),
    {
        if n == rep.len() {
            assert(rep.bytes().subrange(pos as int, pos + n) =~= rep.bytes());
            return rep.clone();
        }
        create_substring(rep.clone(), pos, n)
    }
}

} // verus!
