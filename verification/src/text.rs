//! A cord as text: for display, and as a byte string literal.

use crate::cord::Cord;
use vstd::prelude::*;
use vstd::utf8::{encode_utf8, valid_utf8};

verus! {

/// The text of `bytes`, with replacement characters where they are not UTF-8.
pub uninterp spec fn lossy_text(bytes: Seq<u8>) -> Seq<char>;

/// `String::from_utf8_lossy`: a text that depends on `data` alone. Where
/// `data` is valid UTF-8, it is the text with that encoding; which characters
/// replace other bytes is left unsaid.
#[verifier::external_body]
fn text_lossy(data: &[u8]) -> (text: String)
    ensures
        text@ == lossy_text(data@),
        valid_utf8(data@) ==> encode_utf8(text@) == data@,
{
    String::from_utf8_lossy(data).into_owned()
}

/// The lower-case hexadecimal digit of `d`.
pub open spec fn hex_digit(d: int) -> u8 {
    (if d < 10 {
        48 + d
    } else {
        87 + d
    }) as u8
}

/// How `byte` is written in a byte string literal: printable bytes as they
/// are, quotes, the backslash and the common control bytes behind a backslash,
/// and the others in hexadecimal.
pub open spec fn escape(byte: u8) -> Seq<u8> {
    if byte == 9 {
        seq![92, 116]
    } else if byte == 10 {
        seq![92, 110]
    } else if byte == 13 {
        seq![92, 114]
    } else if byte == 34 || byte == 39 || byte == 92 {
        seq![92, byte]
    } else if 32 <= byte <= 126 {
        seq![byte]
    } else {
        seq![92, 120, hex_digit(byte as int / 16), hex_digit(byte as int % 16)]
    }
}

/// How `bytes` are written in a byte string literal.
pub open spec fn escaped(bytes: Seq<u8>) -> Seq<u8>
    decreases bytes.len(),
{
    if bytes.len() == 0 {
        Seq::empty()
    } else {
        escaped(bytes.drop_last()) + escape(bytes.last())
    }
}

/// The byte string literal of `bytes`, as in `b"hello\n"`.
pub open spec fn literal(bytes: Seq<u8>) -> Seq<u8> {
    seq![98u8, 34u8] + escaped(bytes) + seq![34u8]
}

/// Escaping bytes one part after the other is escaping them at once.
pub proof fn law_escape_parts(a: Seq<u8>, b: Seq<u8>)
    ensures
        escaped(a + b) == escaped(a) + escaped(b),
    decreases b.len(),
{
    if b.len() == 0 {
        assert(a + b =~= a);
        assert(escaped(a) + escaped(b) =~= escaped(a));
    } else {
        assert((a + b).drop_last() =~= a + b.drop_last());
        law_escape_parts(a, b.drop_last());
        assert(escaped(a + b) =~= escaped(a) + escaped(b));
    }
}

/// The lower-case hexadecimal digit of `d`.
fn digit(d: u8) -> (c: u8)
    requires
        d < 16,
    ensures
        c == hex_digit(d as int),
{
    if d < 10 {
        48 + d
    } else {
        87 + d
    }
}

/// Appends `byte`, as it is written in a byte string literal, to `out`.
fn escape_byte(byte: u8, out: &mut Vec<u8>)
    ensures
        final(out)@ == old(out)@ + escape(byte),
{
    if byte == 9 {
        out.push(92);
        out.push(116);
    } else if byte == 10 {
        out.push(92);
        out.push(110);
    } else if byte == 13 {
        out.push(92);
        out.push(114);
    } else if byte == 34 || byte == 39 || byte == 92 {
        out.push(92);
        out.push(byte);
    } else if 32 <= byte && byte <= 126 {
        out.push(byte);
    } else {
        out.push(92);
        out.push(120);
        out.push(digit(byte / 16));
        out.push(digit(byte % 16));
    }
    assert(out@ =~= old(out)@ + escape(byte));
}

/// Appends `data`, as it is written in a byte string literal, to `out`.
pub fn escape_into(data: &[u8], out: &mut Vec<u8>)
    ensures
        final(out)@ == old(out)@ + escaped(data@),
{
    let n: usize = data.len();
    let mut i: usize = 0;
    assert(old(out)@ + escaped(data@.take(0)) =~= old(out)@);
    while i < n
        invariant
            i <= n,
            n == data@.len(),
            out@ == old(out)@ + escaped(data@.take(i as int)),
        decreases n - i,
    {
        proof {
            let part = data@.take(i + 1);
            assert(part.drop_last() =~= data@.take(i as int));
            assert(part.last() == data@[i as int]);
            assert(old(out)@ + escaped(part) =~= out@ + escape(data@[i as int]));
        }
        escape_byte(data[i], out);
        i += 1;
    }
    assert(data@.take(n as int) =~= data@);
}

impl Cord {
    /// The bytes as text, with replacement characters where they are not UTF-8.
    pub fn to_text(&self) -> (text: String)
        ensures
            text@ == lossy_text(self@),
            valid_utf8(self@) ==> encode_utf8(text@) == self@,
    {
        text_lossy(self.to_vec().as_slice())
    }

    /// The bytes as a byte string literal.
    pub fn to_literal(&self) -> (text: Vec<u8>)
        ensures
            text@ == literal(self@),
    {
        let mut text: Vec<u8> = Vec::new();
        text.push(98);
        text.push(34);
        let mut chunks = self.chunks();
        let ghost opening = text@;
        let ghost mut done = Seq::<u8>::empty();
        proof {
            assert(opening =~= seq![98u8, 34u8]);
            assert(opening + escaped(done) =~= opening);
            assert(done + chunks.rest() =~= self@);
        }
        while chunks.remaining() > 0
            invariant
                chunks.wf(),
                done + chunks.rest() == self@,
                text@ == opening + escaped(done),
            decreases chunks.rest().len(),
        {
            let chunk = chunks.next().unwrap();
            proof {
                law_escape_parts(done, chunk@);
                assert(opening + escaped(done) + escaped(chunk@) =~= opening + escaped(done + chunk@));
                assert(done + chunk@ + chunks.rest() =~= self@);
                done = done + chunk@;
            }
            escape_into(chunk, &mut text);
        }
        proof {
            assert(done + chunks.rest() =~= done);
        }
        text.push(34);
        assert(text@ =~= literal(self@));
        text
    }
}

} // verus!
