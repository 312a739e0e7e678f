//! The description of a tree as text.

use super::analysis::walk;
use super::btree::CordRepBtree;
use super::dump::{dump, dump_list, entries_of, lines_read, DumpLabel, DumpLine};
use super::CordRep;
use crate::text::{escape_into, escaped, hex_digit};
use std::sync::Arc;
use vstd::prelude::*;
use vstd::utf8::encode_utf8;

verus! {

/// The bytes of the text `s`.
pub open spec fn text(s: &str) -> Seq<u8> {
    encode_utf8(s@)
}

/// The decimal digits of `n`.
pub open spec fn decimal(n: nat) -> Seq<u8>
    decreases n,
{
    if n < 10 {
        seq![(48 + n) as u8]
    } else {
        decimal(n / 10).push((48 + n % 10) as u8)
    }
}

/// The hexadecimal digits of `n`.
pub open spec fn hexadecimal(n: nat) -> Seq<u8>
    decreases n,
{
    if n < 16 {
        seq![hex_digit(n as int)]
    } else {
        hexadecimal(n / 16).push(hex_digit(n as int % 16))
    }
}

/// Two spaces for each node above.
pub open spec fn indent(depth: nat) -> Seq<u8> {
    Seq::new(2 * depth, |i: int| 32u8)
}

/// Whether a node is shared, and among how many handles.
pub open spec fn sharing(refcount: usize) -> Seq<u8> {
    if refcount == 1 {
        text("Private")
    } else {
        text("Shared(") + decimal(refcount as nat) + text(")")
    }
}

/// The kind, the length and the other numbers of a node.
pub open spec fn kind(line: DumpLine) -> Seq<u8> {
    let len = text(", len = ") + decimal(line.len as nat);
    match line.label {
        DumpLabel::Node(height, edges) => {
            let name = if height == 0 {
                text("Leaf")
            } else {
                text("Node(") + decimal(height as nat) + text(")")
            };
            name + len + text(", begin = 0, end = ") + decimal(edges as nat)
        },
        DumpLabel::Substring(start) => text("Substring") + len + text(", start = ") + decimal(start as nat),
        DumpLabel::Flat(capacity) => text("Flat") + len + text(", cap = ") + decimal(capacity as nat),
        DumpLabel::External => text("Extn") + len,
    }
}

/// The bytes that are shown of a node, and dots if there are more.
pub open spec fn shown(line: DumpLine) -> Seq<u8> {
    match line.data {
        Some(data) => text(", data = \"") + escaped(data@) + if data@.len() < line.len {
            text("\"...")
        } else {
            text("\"")
        },
        None => Seq::empty(),
    }
}

/// The text of a line.
pub open spec fn line_text(line: DumpLine) -> Seq<u8> {
    indent(line.depth as nat) + sharing(line.refcount) + text(" (0x") + hexadecimal(line.address as nat) + text(") ")
        + kind(line) + shown(line) + text("\n")
}

/// The text of `lines`, in order.
pub open spec fn lines_text(lines: Seq<DumpLine>) -> Seq<u8>
    decreases lines.len(),
{
    if lines.len() == 0 {
        Seq::empty()
    } else {
        lines_text(lines.drop_last()) + line_text(lines.last())
    }
}

/// The lines above a description: a rule, and the label between rules if there is one.
pub open spec fn heading(label: &str) -> Seq<u8> {
    if text(label).len() == 0 {
        text("===================================\n")
    } else {
        text("===================================\n") + text(label) + text("\n-----------------------------------\n")
    }
}

/// Appends the text `s` to `out`.
fn put(out: &mut Vec<u8>, s: &str)
    ensures
        final(out)@ == old(out)@ + text(s),
{
    let data = s.as_bytes();
    out.extend_from_slice(data);
    assert(out@ =~= old(out)@ + data@);
}

/// The text `s` by itself.
pub(crate) fn start_with(s: &str) -> (out: Vec<u8>)
    ensures
        out@ == text(s),
{
    let mut out: Vec<u8> = Vec::new();
    put(&mut out, s);
    assert(out@ =~= text(s));
    out
}

/// Appends `data` to `out`.
fn put_all(out: &mut Vec<u8>, data: &Vec<u8>)
    ensures
        final(out)@ == old(out)@ + data@,
{
    out.extend_from_slice(data.as_slice());
    assert(out@ =~= old(out)@ + data@);
}

/// Appends the decimal digits of `n` to `out`.
fn put_decimal(out: &mut Vec<u8>, n: usize)
    ensures
        final(out)@ == old(out)@ + decimal(n as nat),
    decreases n,
{
    if n >= 10 {
        put_decimal(out, n / 10);
    }
    let digit: u8 = (n % 10) as u8;
    out.push(48 + digit);
    assert(out@ =~= old(out)@ + decimal(n as nat));
}

/// Appends the hexadecimal digits of `n` to `out`.
fn put_hexadecimal(out: &mut Vec<u8>, n: usize)
    ensures
        final(out)@ == old(out)@ + hexadecimal(n as nat),
    decreases n,
{
    if n >= 16 {
        put_hexadecimal(out, n / 16);
    }
    let digit: u8 = (n % 16) as u8;
    out.push(if digit < 10 { 48 + digit } else { 87 + digit });
    assert(out@ =~= old(out)@ + hexadecimal(n as nat));
}

/// Two spaces for each node above.
fn indent_of(depth: usize) -> (out: Vec<u8>)
    ensures
        out@ == indent(depth as nat),
{
    let mut out: Vec<u8> = Vec::new();
    let mut i: usize = 0;
    while i < depth
        invariant
            i <= depth,
            out@ =~= indent(i as nat),
        decreases depth - i,
    {
        out.push(32);
        out.push(32);
        i += 1;
    }
    out
}

/// Whether a node is shared, and among how many handles.
fn sharing_of(refcount: usize) -> (out: Vec<u8>)
    ensures
        out@ == sharing(refcount),
{
    if refcount == 1 {
        return start_with("Private");
    }
    let mut out = start_with("Shared(");
    put_decimal(&mut out, refcount);
    put(&mut out, ")");
    out
}

/// Appends the length of a node to `out`.
fn put_len(out: &mut Vec<u8>, len: usize)
    ensures
        final(out)@ == old(out)@ + (text(", len = ") + decimal(len as nat)),
{
    let mut part = start_with(", len = ");
    put_decimal(&mut part, len);
    put_all(out, &part);
}

/// The kind, the length and the other numbers of a node.
fn kind_of(line: &DumpLine) -> (out: Vec<u8>)
    ensures
        out@ == kind(*line),
{
    match line.label {
        DumpLabel::Node(height, edges) => {
            let mut out = if height == 0 {
                start_with("Leaf")
            } else {
                let mut name = start_with("Node(");
                put_decimal(&mut name, height);
                put(&mut name, ")");
                name
            };
            put_len(&mut out, line.len);
            put(&mut out, ", begin = 0, end = ");
            put_decimal(&mut out, edges);
            out
        },
        DumpLabel::Substring(start) => {
            let mut out = start_with("Substring");
            put_len(&mut out, line.len);
            put(&mut out, ", start = ");
            put_decimal(&mut out, start);
            out
        },
        DumpLabel::Flat(capacity) => {
            let mut out = start_with("Flat");
            put_len(&mut out, line.len);
            put(&mut out, ", cap = ");
            put_decimal(&mut out, capacity);
            out
        },
        DumpLabel::External => {
            let mut out = start_with("Extn");
            put_len(&mut out, line.len);
            out
        },
    }
}

/// The bytes that are shown of a node, and dots if there are more.
fn shown_of(line: &DumpLine) -> (out: Vec<u8>)
    ensures
        out@ == shown(*line),
{
    match &line.data {
        Some(data) => {
            let mut out = start_with(", data = \"");
            escape_into(data.as_slice(), &mut out);
            if data.len() < line.len {
                put(&mut out, "\"...");
            } else {
                put(&mut out, "\"");
            }
            out
        },
        None => {
            let out: Vec<u8> = Vec::new();
            assert(out@ =~= Seq::<u8>::empty());
            out
        },
    }
}

/// The text of a line.
pub fn render_line(line: &DumpLine) -> (out: Vec<u8>)
    ensures
        out@ == line_text(*line),
{
    let mut out = indent_of(line.depth);
    put_all(&mut out, &sharing_of(line.refcount));
    put(&mut out, " (0x");
    put_hexadecimal(&mut out, line.address);
    put(&mut out, ") ");
    put_all(&mut out, &kind_of(line));
    put_all(&mut out, &shown_of(line));
    put(&mut out, "\n");
    out
}

/// Appends the text of `lines` to `out`, in order.
fn put_lines(out: &mut Vec<u8>, lines: &Vec<DumpLine>)
    ensures
        final(out)@ == old(out)@ + lines_text(lines@),
{
    let mut i: usize = 0;
    assert(old(out)@ + lines_text(lines@.take(0)) =~= old(out)@);
    while i < lines.len()
        invariant
            i <= lines@.len(),
            out@ == old(out)@ + lines_text(lines@.take(i as int)),
        decreases lines@.len() - i,
    {
        let ghost before = out@;
        put_all(out, &render_line(&lines[i]));
        proof {
            let now = lines@.take(i + 1);
            assert(now.drop_last() =~= lines@.take(i as int));
            assert(out@ =~= old(out)@ + lines_text(now));
        }
        i += 1;
    }
    assert(lines@.take(lines@.len() as int) =~= lines@);
}

/// The lines above a description.
fn heading_of(label: &str) -> (out: Vec<u8>)
    ensures
        out@ == heading(label),
{
    let mut out = start_with("===================================\n");
    if label.as_bytes().len() > 0 {
        put(&mut out, label);
        put(&mut out, "\n-----------------------------------\n");
    }
    out
}

/// `out` describes `rep` under `label`. The addresses and the numbers of
/// handles are those of the nodes just now.
pub open spec fn describes(
    out: Seq<u8>,
    rep: Option<&Arc<CordRep>>,
    label: &str,
    include_contents: bool,
) -> bool {
    match rep {
        Some(rep) => exists|lines: Seq<DumpLine>|
            {
                &&& entries_of(lines) == dump_list(**rep, include_contents, 0)
                &&& lines_read(lines, walk(*rep))
                &&& out == heading(label) + #[trigger] lines_text(lines)
            },
        None => out == heading(label) + text("NULL\n"),
    }
}

impl CordRepBtree {
    /// The description of `rep` and of all nodes below it under `label`, with
    /// the first bytes of data edges if `include_contents`.
    pub fn dump(rep: Option<&Arc<CordRep>>, label: &str, include_contents: bool) -> (out: Vec<u8>)
        requires
            rep matches Some(rep) ==> rep.wf(),
        ensures
            describes(out@, rep, label, include_contents),
    {
        let mut out = heading_of(label);
        match rep {
            Some(rep) => {
                let lines = dump(rep, include_contents);
                put_lines(&mut out, &lines);
            },
            None => {
                put(&mut out, "NULL\n");
            },
        }
        out
    }
}

} // verus!
