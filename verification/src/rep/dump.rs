//! The structure of a tree, line by line.

use super::edge::edge_data;
use super::share::{held_by, lies_at, node_address, strong_count};
use super::analysis::{levels_below, walk, walk_edges};
use super::{fits_below, CordRep};
use std::sync::Arc;
use vstd::prelude::*;
use vstd::slice::{slice_subrange, slice_to_vec};

verus! {

/// The number of bytes of a data edge that are shown.
pub const MAX_DATA_LENGTH: usize = 60;

/// What a line says of the kind of its node.
#[derive(Clone, Copy, Debug, PartialEq, Eq, Structural)]
pub enum DumpLabel {
    /// A tree node of the given height and number of edges.
    Node(usize, usize),
    /// A window that starts at the given offset.
    Substring(usize),
    /// A flat block of the given capacity.
    Flat(usize),
    /// An external block.
    External,
}

/// What is said of a node.
pub struct DumpLine {
    /// The number of nodes above.
    pub depth: usize,
    /// The number of handles on the node.
    pub refcount: usize,
    /// The address of the node.
    pub address: usize,
    /// The kind of the node.
    pub label: DumpLabel,
    /// The length of the node.
    pub len: usize,
    /// The first bytes of a data edge, if contents are shown.
    pub data: Option<Vec<u8>>,
}

/// The part of a line that the tree alone determines.
pub struct DumpEntry {
    /// The number of nodes above.
    pub depth: int,
    /// The kind of the node.
    pub label: DumpLabel,
    /// The length of the node.
    pub len: int,
    /// The first bytes of a data edge, if contents are shown.
    pub data: Option<Seq<u8>>,
}

/// The kind of the node `rep`.
pub open spec fn label_of(rep: CordRep) -> DumpLabel {
    match rep {
        CordRep::Btree(node) => DumpLabel::Node(node.height, node.edges@.len() as usize),
        CordRep::Substring(sub) => DumpLabel::Substring(sub.start),
        CordRep::Flat(flat) => DumpLabel::Flat(flat.spec_capacity() as usize),
        CordRep::External(_) => DumpLabel::External,
    }
}

/// The first bytes of the data edge `rep`, if contents are shown.
pub open spec fn shown_data(rep: CordRep, include_contents: bool) -> Option<Seq<u8>> {
    if include_contents && !(rep is Btree) {
        if rep.bytes().len() <= MAX_DATA_LENGTH {
            Some(rep.bytes())
        } else {
            Some(rep.bytes().take(MAX_DATA_LENGTH as int))
        }
    } else {
        None
    }
}

/// The entries of `rep` and of all nodes below it, each before those below it.
pub open spec fn dump_list(rep: CordRep, include_contents: bool, depth: int) -> Seq<DumpEntry>
    decreases rep,
{
    seq![DumpEntry {
        depth,
        label: label_of(rep),
        len: rep.bytes().len() as int,
        data: shown_data(rep, include_contents),
    }] + match rep {
        CordRep::Substring(sub) => dump_list(*sub.child, include_contents, depth + 1),
        CordRep::Btree(node) => dump_edges(node.edges@, include_contents, depth + 1),
        _ => Seq::empty(),
    }
}

/// The entries of `edges` and of all nodes below them.
pub open spec fn dump_edges(edges: Seq<Arc<CordRep>>, include_contents: bool, depth: int) -> Seq<DumpEntry>
    decreases edges,
{
    if edges.len() == 0 {
        Seq::empty()
    } else {
        dump_edges(edges.drop_last(), include_contents, depth) + dump_list(*edges.last(), include_contents, depth)
    }
}

/// The part of `line` that the tree alone determines.
pub open spec fn entry_of(line: DumpLine) -> DumpEntry {
    DumpEntry {
        depth: line.depth as int,
        label: line.label,
        len: line.len as int,
        data: match line.data {
            Some(data) => Some(data@),
            None => None,
        },
    }
}

/// The entries of `lines`.
pub open spec fn entries_of(lines: Seq<DumpLine>) -> Seq<DumpEntry> {
    Seq::new(lines.len(), |i: int| entry_of(lines[i]))
}

/// The number of handles and the address in `line` were read from `rep`.
pub open spec fn line_read(line: DumpLine, rep: Arc<CordRep>) -> bool {
    held_by(rep, line.refcount) && lies_at(rep, line.address)
}

/// Each of `lines` was read from the one of `reps` at its place.
pub open spec fn lines_read(lines: Seq<DumpLine>, reps: Seq<Arc<CordRep>>) -> bool {
    &&& lines.len() == reps.len()
    &&& forall|i: int| 0 <= i < lines.len() ==> line_read(#[trigger] lines[i], reps[i])
}

/// What was read from `reps` stays, and what was added was read from `more`.
proof fn lemma_lines_more(
    held: Seq<DumpLine>,
    now: Seq<DumpLine>,
    start: int,
    reps: Seq<Arc<CordRep>>,
    more: Seq<Arc<CordRep>>,
)
    requires
        0 <= start <= held.len(),
        lines_read(held.skip(start), reps),
        now.len() == held.len() + more.len(),
        now.take(held.len() as int) == held,
        lines_read(now.skip(held.len() as int), more),
    ensures
        now.take(start) == held.take(start),
        lines_read(now.skip(start), reps + more),
{
    assert(now.take(start) =~= now.take(held.len() as int).take(start));
    assert forall|i: int| 0 <= i < now.skip(start).len() implies line_read(
        #[trigger] now.skip(start)[i],
        (reps + more)[i],
    ) by {
        if i < reps.len() {
            assert(now.skip(start)[i] == now.take(held.len() as int)[start + i]);
            assert(held.skip(start)[i] == held[start + i]);
        } else {
            assert(now.skip(start)[i] == now.skip(held.len() as int)[i - reps.len()]);
        }
    }
}

/// The line of the node `rep`.
fn line_of(rep: &Arc<CordRep>, include_contents: bool, depth: usize) -> (line: DumpLine)
    requires
        rep.wf(),
    ensures
        entry_of(line) == (DumpEntry {
            depth: depth as int,
            label: label_of(**rep),
            len: rep.bytes().len() as int,
            data: shown_data(**rep, include_contents),
        }),
        line.refcount >= 1,
        line_read(line, *rep),
{
    let label = match &**rep {
        CordRep::Btree(node) => DumpLabel::Node(node.height, node.edges.len()),
        CordRep::Substring(sub) => DumpLabel::Substring(sub.start),
        CordRep::Flat(flat) => DumpLabel::Flat(flat.capacity()),
        CordRep::External(_) => DumpLabel::External,
    };
    let data: Option<Vec<u8>> = if include_contents && !rep.is_btree() {
        let bytes = edge_data(rep);
        let n: usize = if bytes.len() <= MAX_DATA_LENGTH {
            bytes.len()
        } else {
            MAX_DATA_LENGTH
        };
        let part = slice_to_vec(slice_subrange(bytes, 0, n));
        proof {
            assert(rep.bytes().subrange(0, n as int) =~= rep.bytes().take(n as int));
            assert(n == rep.bytes().len() ==> rep.bytes().take(n as int) =~= rep.bytes());
        }
        Some(part)
    } else {
        None
    };
    DumpLine { depth, refcount: strong_count(rep), address: node_address(rep), label, len: rep.len(), data }
}

/// Adds the lines of `rep` and of all nodes below it to `lines`.
fn dump_all(rep: &Arc<CordRep>, include_contents: bool, depth: usize, lines: &mut Vec<DumpLine>)
    requires
        rep.wf(),
        depth + levels_below(**rep) <= 30,
    ensures
        entries_of(final(lines)@) == entries_of(old(lines)@) + dump_list(**rep, include_contents, depth as int),
        final(lines)@.len() == old(lines)@.len() + walk(*rep).len(),
        final(lines)@.take(old(lines)@.len() as int) == old(lines)@,
        lines_read(final(lines)@.skip(old(lines)@.len() as int), walk(*rep)),
    decreases rep,
{
    let ghost before = lines@;
    lines.push(line_of(rep, include_contents, depth));
    let ghost base = lines@;
    let ghost start = before.len() as int;
    proof {
        assert(entries_of(base) =~= entries_of(before).push(entry_of(base.last())));
        assert(base.take(start) =~= before);
        assert(line_read(base[start], *rep));
        assert(lines_read(base.skip(start), seq![*rep]));
    }
    match &**rep {
        CordRep::Substring(sub) => {
            dump_all(&sub.child, include_contents, depth + 1, lines);
            proof {
                assert(entries_of(lines@) =~= entries_of(before) + dump_list(**rep, include_contents, depth as int));
                lemma_lines_more(base, lines@, start, seq![*rep], walk(sub.child));
            }
        },
        CordRep::Btree(node) => {
            let ghost edges = node.edges@;
            let mut i: usize = 0;
            proof {
                assert(edges.take(0) =~= Seq::<Arc<CordRep>>::empty());
                assert(entries_of(lines@) =~= entries_of(base) + dump_edges(
                    edges.take(0),
                    include_contents,
                    depth + 1,
                ));
                assert(seq![*rep] + walk_edges(edges.take(0)) =~= seq![*rep]);
            }
            while i < node.edges.len()
                invariant
                    i <= edges.len(),
                    edges == node.edges@,
                    **rep == CordRep::Btree(*node),
                    rep.wf(),
                    depth + levels_below(**rep) <= 30,
                    entries_of(lines@) == entries_of(base) + dump_edges(
                        edges.take(i as int),
                        include_contents,
                        depth + 1,
                    ),
                    start == before.len(),
                    lines@.len() >= start,
                    lines@.take(start) == before,
                    lines_read(lines@.skip(start), seq![*rep] + walk_edges(edges.take(i as int))),
                decreases edges.len() - i,
            {
                let ghost now = lines@;
                proof {
                    assert(decreases_to!(**rep => (**rep)->Btree_0));
                    assert(decreases_to!(node.edges@ => node.edges@[i as int]));
                    assert(fits_below(*edges[i as int], node.height as int));
                    assert(edges.take(i + 1).drop_last() =~= edges.take(i as int));
                    assert(edges.take(i + 1).last() == edges[i as int]);
                }
                dump_all(&node.edges[i], include_contents, depth + 1, lines);
                proof {
                    assert(entries_of(lines@) =~= entries_of(base) + dump_edges(
                        edges.take(i + 1),
                        include_contents,
                        depth + 1,
                    ));
                    let done = seq![*rep] + walk_edges(edges.take(i as int));
                    lemma_lines_more(now, lines@, start, done, walk(edges[i as int]));
                    assert(seq![*rep] + walk_edges(edges.take(i + 1)) =~= done + walk(edges[i as int]));
                }
                i += 1;
            }
            proof {
                assert(edges.take(i as int) =~= edges);
                assert(entries_of(lines@) =~= entries_of(before) + dump_list(**rep, include_contents, depth as int));
            }
        },
        _ => {
            assert(entries_of(lines@) =~= entries_of(before) + dump_list(**rep, include_contents, depth as int));
            assert(walk(*rep) =~= seq![*rep]);
        },
    }
}

/// The lines of `rep` and of all nodes below it, each before those below it.
pub fn dump(rep: &Arc<CordRep>, include_contents: bool) -> (lines: Vec<DumpLine>)
    requires
        rep.wf(),
    ensures
        entries_of(lines@) == dump_list(**rep, include_contents, 0),
        lines_read(lines@, walk(*rep)),
{
    let mut lines: Vec<DumpLine> = Vec::new();
    dump_all(rep, include_contents, 0, &mut lines);
    assert(entries_of(lines@) =~= dump_list(**rep, include_contents, 0));
    assert(lines@.skip(0) =~= lines@);
    lines
}

} // verus!
