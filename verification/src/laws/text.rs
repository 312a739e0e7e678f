//! What bytes, numbers and trees look like as text.

use crate::rep::dump::{
    dump_edges, dump_list, entries_of, entry_of, label_of, line_read, lines_read, shown_data, DumpEntry, DumpLabel,
    DumpLine,
};
use crate::rep::render::{
    decimal, heading, hexadecimal, indent, kind, line_text, lines_text, sharing, shown, text,
};
use crate::rep::share::{held_by, lies_at};
use crate::rep::CordRep;
use crate::text::{escape, escaped, law_escape_parts, literal};
use std::sync::Arc;
use vstd::prelude::*;
use vstd::utf8::encode_utf8;

verus! {

/// The number that the digits `digits` of base `base` stand for, where letters
/// follow the figures.
pub open spec fn value(base: int, digits: Seq<u8>) -> int
    decreases digits.len(),
{
    if digits.len() == 0 {
        0
    } else {
        let digit = digits.last();
        value(base, digits.drop_last()) * base + if digit < 97 { digit - 48 } else { digit - 87 }
    }
}

/// The decimal digits of a number stand for it; all are figures, and the first
/// one is a zero only if it is the only one.
pub proof fn law_decimal(n: nat)
    ensures
        value(10, decimal(n)) == n,
        decimal(n).len() > 0,
        decimal(n).len() > 1 ==> decimal(n)[0] != 48,
        forall|i: int| 0 <= i < decimal(n).len() ==> 48 <= #[trigger] decimal(n)[i] <= 57,
    decreases n,
{
    reveal_with_fuel(value, 2);
    if n >= 10 {
        law_decimal(n / 10);
        assert(decimal(n).drop_last() =~= decimal(n / 10));
        assert(decimal(n / 10)[0] == decimal(n)[0]);
        if decimal(n / 10).len() == 1 {
            let d = decimal(n / 10);
            assert(d.drop_last() =~= Seq::<u8>::empty());
            assert(value(10, d) == d[0] - 48);
        }
        assert forall|i: int| 0 <= i < decimal(n).len() implies 48 <= #[trigger] decimal(n)[i] <= 57 by {
            if i < decimal(n / 10).len() {
                assert(decimal(n)[i] == decimal(n / 10)[i]);
            }
        }
    } else {
        assert(decimal(n).drop_last() =~= Seq::<u8>::empty());
    }
}

/// The hexadecimal digits of a number stand for it; all are figures or letters
/// from `a` to `f`, and the first one is a zero only if it is the only one.
pub proof fn law_hexadecimal(n: nat)
    ensures
        value(16, hexadecimal(n)) == n,
        hexadecimal(n).len() > 0,
        hexadecimal(n).len() > 1 ==> hexadecimal(n)[0] != 48,
        forall|i: int|
            0 <= i < hexadecimal(n).len() ==> 48 <= #[trigger] hexadecimal(n)[i] <= 57 || 97 <= hexadecimal(n)[i] <= 102,
    decreases n,
{
    reveal_with_fuel(value, 2);
    if n >= 16 {
        law_hexadecimal(n / 16);
        let head = hexadecimal(n / 16);
        assert(hexadecimal(n).drop_last() =~= head);
        assert(head[0] == hexadecimal(n)[0]);
        if head.len() == 1 {
            assert(head.drop_last() =~= Seq::<u8>::empty());
        }
        assert forall|i: int| 0 <= i < hexadecimal(n).len() implies 48 <= #[trigger] hexadecimal(n)[i] <= 57 || 97
            <= hexadecimal(n)[i] <= 102 by {
            if i < head.len() {
                assert(hexadecimal(n)[i] == head[i]);
            }
        }
    } else {
        assert(hexadecimal(n).drop_last() =~= Seq::<u8>::empty());
    }
}

/// How a byte is written in a literal: printable ones but quotes and the
/// backslash as they are; those and the tab, the line feed and the carriage
/// return behind a backslash; all others as `\x` and two hexadecimal digits
/// that stand for the byte.
pub proof fn law_escape(byte: u8)
    ensures
        32 <= byte <= 126 && byte != 34 && byte != 39 && byte != 92 <==> escape(byte) == seq![byte],
        byte == 34 || byte == 39 || byte == 92 ==> escape(byte) == seq![92u8, byte],
        byte == 9 ==> escape(byte) == seq![92u8, 116u8],
        byte == 10 ==> escape(byte) == seq![92u8, 110u8],
        byte == 13 ==> escape(byte) == seq![92u8, 114u8],
        byte > 126 || (byte < 32 && byte != 9 && byte != 10 && byte != 13) ==> {
            &&& escape(byte).len() == 4
            &&& escape(byte).take(2) == seq![92u8, 120u8]
            &&& value(16, escape(byte).skip(2)) == byte
        },
        forall|i: int| 0 <= i < escape(byte).len() ==> 32 <= #[trigger] escape(byte)[i] <= 126,
        escape(byte).len() > 1 <==> escape(byte)[0] == 92,
{
    let e = escape(byte);
    if e.len() == 4 {
        assert(e.take(2) =~= seq![92u8, 120u8]);
        let digits = e.skip(2);
        assert(digits.drop_last().drop_last() =~= Seq::<u8>::empty());
        reveal_with_fuel(value, 3);
    }
    if e.len() > 1 {
        assert(seq![byte].len() == 1);
    }
}

/// Bytes that are written in the same way are the same.
pub proof fn law_escape_injective(a: u8, b: u8)
    requires
        escape(a) == escape(b),
    ensures
        a == b,
{
    law_escape(a);
    law_escape(b);
    assert(escape(a)[0] == escape(b)[0]);
    if escape(a).len() == 2 {
        assert(escape(a)[1] == escape(b)[1]);
    }
    if escape(a).len() == 4 {
        assert(escape(a).skip(2) == escape(b).skip(2));
    }
}

/// A literal is what its bytes are written as, one after the other, between `b"` and `"`.
pub proof fn law_literal(bytes: Seq<u8>, byte: u8)
    ensures
        literal(Seq::empty()) == seq![98u8, 34u8, 34u8],
        literal(bytes).take(2) == seq![98u8, 34u8],
        literal(bytes).last() == 34,
        literal(bytes).subrange(2, literal(bytes).len() - 1) == escaped(bytes),
        escaped(bytes.push(byte)) == escaped(bytes) + escape(byte),
        escaped(seq![byte] + bytes) == escape(byte) + escaped(bytes),
        escaped(Seq::empty()) == Seq::<u8>::empty(),
{
    assert(literal(Seq::empty()) =~= seq![98u8, 34u8, 34u8]);
    assert(literal(bytes).take(2) =~= seq![98u8, 34u8]);
    assert(literal(bytes).subrange(2, literal(bytes).len() - 1) =~= escaped(bytes));
    assert(bytes.push(byte).drop_last() =~= bytes);
    law_escape_parts(seq![byte], bytes);
    assert(seq![byte].drop_last() =~= Seq::<u8>::empty());
    reveal_with_fuel(escaped, 2);
    assert(escaped(seq![byte]) =~= escape(byte));
}

/// Two spaces stand for each node above.
pub proof fn law_indent(depth: nat)
    ensures
        indent(depth).len() == 2 * depth,
        forall|i: int| 0 <= i < indent(depth).len() ==> #[trigger] indent(depth)[i] == 32,
{
}

/// A node with one handle is private, and any other is shared by as many as it has.
pub proof fn law_sharing(refcount: usize)
    ensures
        refcount == 1 <==> sharing(refcount) == encode_utf8("Private"@),
        refcount != 1 ==> sharing(refcount) == encode_utf8("Shared("@) + decimal(refcount as nat) + encode_utf8(")"@),
{
    reveal_strlit("Private");
    reveal_strlit("Shared(");
    reveal_strlit(")");
    vstd::utf8::is_ascii_chars_encode_utf8("Private"@);
    vstd::utf8::is_ascii_chars_encode_utf8("Shared("@);
    vstd::utf8::is_ascii_chars_encode_utf8(")"@);
    if refcount != 1 {
        assert(sharing(refcount)[0] == encode_utf8("Shared("@)[0]);
    }
}

/// A description has one line for each node, in order, and each line is what
/// it says of its node, indented by the nodes above it.
pub proof fn law_lines(lines: Seq<DumpLine>, line: DumpLine)
    ensures
        lines_text(Seq::empty()) == Seq::<u8>::empty(),
        lines_text(lines.push(line)) == lines_text(lines) + line_text(line),
        line_text(line) == indent(line.depth as nat) + sharing(line.refcount) + encode_utf8(" (0x"@) + hexadecimal(
            line.address as nat,
        ) + encode_utf8(") "@) + kind(line) + shown(line) + encode_utf8("\n"@),
{
    assert(lines.push(line).drop_last() =~= lines);
}

/// What a line says of the kind of its node and its numbers.
pub proof fn law_kind(line: DumpLine, a: usize, b: usize)
    ensures
        ({
            let len = encode_utf8(", len = "@) + decimal(line.len as nat);
            &&& line.label == DumpLabel::Node(0, b) ==> kind(line) == encode_utf8("Leaf"@) + len + encode_utf8(
                ", begin = 0, end = "@,
            ) + decimal(b as nat)
            &&& a > 0 && line.label == DumpLabel::Node(a, b) ==> kind(line) == encode_utf8("Node("@) + decimal(a as nat)
                + encode_utf8(")"@) + len + encode_utf8(", begin = 0, end = "@) + decimal(b as nat)
            &&& line.label == DumpLabel::Substring(a) ==> kind(line) == encode_utf8("Substring"@) + len + encode_utf8(
                ", start = "@,
            ) + decimal(a as nat)
            &&& line.label == DumpLabel::Flat(a) ==> kind(line) == encode_utf8("Flat"@) + len + encode_utf8(
                ", cap = "@,
            ) + decimal(a as nat)
            &&& line.label == DumpLabel::External ==> kind(line) == encode_utf8("Extn"@) + len
        }),
{
}

/// Where contents are shown, a line ends with up to sixty of the bytes of its
/// data edge between quotes, and dots if there are more.
pub proof fn law_shown(line: DumpLine, rep: CordRep, contents: bool)
    requires
        entry_of(line).data == shown_data(rep, contents),
        line.len == rep.bytes().len(),
    ensures
        contents && !(rep is Btree) <==> line.data is Some,
        line.data is None ==> shown(line) == Seq::<u8>::empty(),
        line.data is Some && rep.bytes().len() <= 60 ==> shown(line) == encode_utf8(", data = \""@) + escaped(
            rep.bytes(),
        ) + encode_utf8("\""@),
        line.data is Some && rep.bytes().len() > 60 ==> shown(line) == encode_utf8(", data = \""@) + escaped(
            rep.bytes().take(60),
        ) + encode_utf8("\"..."@),
{
}

/// A description starts with a rule, and with the label and another rule if there is a label.
pub proof fn law_heading(label: &str)
    ensures
        encode_utf8(label@).len() == 0 ==> heading(label) == encode_utf8("===================================\n"@),
        encode_utf8(label@).len() > 0 ==> heading(label) == encode_utf8("===================================\n"@)
            + encode_utf8(label@) + encode_utf8("\n-----------------------------------\n"@),
        text(label) == encode_utf8(label@),
{
}

/// The entry of a node comes first, then those of the block of a window, or of
/// each edge of a tree node in order, one deeper.
pub proof fn law_dump_order(rep: Arc<CordRep>, contents: bool, depth: int, edges: Seq<Arc<CordRep>>, edge: Arc<CordRep>)
    ensures
        ({
            let first = dump_list(*rep, contents, depth)[0];
            let rest = dump_list(*rep, contents, depth).skip(1);
            &&& first.depth == depth
            &&& first.label == label_of(*rep)
            &&& first.len == rep.bytes().len()
            &&& first.data == shown_data(*rep, contents)
            &&& *rep is Flat || *rep is External ==> rest == Seq::<DumpEntry>::empty()
            &&& *rep matches CordRep::Substring(sub) ==> rest == dump_list(*sub.child, contents, depth + 1)
            &&& *rep matches CordRep::Btree(node) ==> rest == dump_edges(node.edges@, contents, depth + 1)
        }),
        dump_edges(edges.push(edge), contents, depth) == dump_edges(edges, contents, depth) + dump_list(
            *edge,
            contents,
            depth,
        ),
        dump_edges(Seq::empty(), contents, depth) == Seq::<DumpEntry>::empty(),
{
    match *rep {
        CordRep::Substring(sub) => {
            assert(dump_list(*rep, contents, depth).skip(1) =~= dump_list(*sub.child, contents, depth + 1));
        },
        CordRep::Btree(node) => {
            assert(dump_list(*rep, contents, depth).skip(1) =~= dump_edges(node.edges@, contents, depth + 1));
        },
        _ => {
            assert(dump_list(*rep, contents, depth).skip(1) =~= Seq::<DumpEntry>::empty());
        },
    }
    assert(edges.push(edge).drop_last() =~= edges);
}

/// What a line says of the kind of its node is its height and number of edges,
/// the start of its window, or its capacity.
pub proof fn law_label(rep: CordRep)
    requires
        rep.wf(),
    ensures
        rep matches CordRep::Btree(node) ==> label_of(rep) matches DumpLabel::Node(height, count) && height
            == node.height && count == node.edges@.len(),
        rep matches CordRep::Substring(sub) ==> label_of(rep) == DumpLabel::Substring(sub.start),
        rep matches CordRep::Flat(flat) ==> label_of(rep) matches DumpLabel::Flat(capacity) && capacity
            == flat.spec_capacity(),
        rep is External ==> label_of(rep) == DumpLabel::External,
{
}

/// The number of handles and the address in each line were read from the node at its place.
pub proof fn law_lines_are_read(lines: Seq<DumpLine>, reps: Seq<Arc<CordRep>>, i: int)
    requires
        lines_read(lines, reps),
        0 <= i < lines.len(),
    ensures
        lines.len() == reps.len(),
        held_by(reps[i], lines[i].refcount),
        lies_at(reps[i], lines[i].address),
{
    assert(line_read(lines[i], reps[i]));
}

/// The entries of lines are theirs.
pub proof fn law_entries(lines: Seq<DumpLine>)
    ensures
        entries_of(lines).len() == lines.len(),
        forall|i: int| 0 <= i < lines.len() ==> {
            let entry = #[trigger] entries_of(lines)[i];
            &&& entry.depth == lines[i].depth
            &&& entry.label == lines[i].label
            &&& entry.len == lines[i].len
            &&& lines[i].data is None <==> entry.data is None
            &&& lines[i].data matches Some(data) ==> entry.data == Some(data@)
        },
{
}

} // verus!
