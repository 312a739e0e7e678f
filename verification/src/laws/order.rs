//! What comparing cords and buffers with each other and with other byte sequences gives.

use crate::buffer::CordBuffer;
use crate::cord::Cord;
use crate::order::{law_lex_equal, law_lex_reverse, lemma_lex_differ, lemma_lex_prefix, lex};
use crate::rep::external::buffer_bytes;
use crate::seqs::len_of;
use crate::source::CordLike;
use bytes::Bytes as SharedBuffer;
use core::cmp::Ordering;
use vstd::prelude::*;
use vstd::std_specs::cmp::{PartialEqSpec, PartialOrdSpec};
use vstd::utf8::encode_utf8;

verus! {

/// `a` comes before `b` because of what stands at `i`: up to there they agree,
/// and there `a` ends or holds the smaller byte.
pub open spec fn precedes_at(a: Seq<u8>, b: Seq<u8>, i: int) -> bool {
    &&& 0 <= i <= a.len()
    &&& i < b.len()
    &&& forall|k: int| 0 <= k < i ==> a[k] == b[k]
    &&& i == a.len() || a[i] < b[i]
}

/// Where two sequences agree up to `i`, their first `i` bytes are the same.
proof fn lemma_common(a: Seq<u8>, b: Seq<u8>, i: int)
    requires
        precedes_at(a, b, i),
    ensures
        lex(a, b) == Ordering::Less,
{
    assert(a.take(i) =~= b.take(i));
    if i == a.len() {
        assert(a =~= b.take(len_of(a)));
        lemma_lex_prefix(a, b);
    } else {
        lemma_lex_differ(a, b, i);
    }
}

/// Of two sequences that differ, one comes before the other at some place.
proof fn lemma_some_place(a: Seq<u8>, b: Seq<u8>, from: int)
    requires
        0 <= from <= a.len(),
        from <= b.len(),
        forall|k: int| 0 <= k < from ==> a[k] == b[k],
    ensures
        a == b || (exists|i: int| precedes_at(a, b, i)) || (exists|i: int| precedes_at(b, a, i)),
    decreases a.len() - from,
{
    if from < a.len() && from < b.len() && a[from] == b[from] {
        lemma_some_place(a, b, from + 1);
    } else if from == a.len() && from == b.len() {
        assert(a =~= b);
    } else if from == a.len() || (from < b.len() && a[from] < b[from]) {
        assert(precedes_at(a, b, from));
    } else {
        assert(precedes_at(b, a, from));
    }
}

/// One sequence compares as less than another exactly where it comes before it
/// at some place: the first place where they differ decides, and a sequence
/// that ends there comes first.
pub proof fn law_lex_places(a: Seq<u8>, b: Seq<u8>)
    ensures
        lex(a, b) == Ordering::Less <==> exists|i: int| precedes_at(a, b, i),
        lex(a, b) == Ordering::Greater <==> exists|i: int| precedes_at(b, a, i),
        lex(a, b) == Ordering::Equal <==> a == b,
{
    law_lex_equal(a, b);
    law_lex_reverse(a, b);
    lemma_some_place(a, b, 0);
    if exists|i: int| precedes_at(a, b, i) {
        lemma_common(a, b, choose|i: int| precedes_at(a, b, i));
    }
    if exists|i: int| precedes_at(b, a, i) {
        lemma_common(b, a, choose|i: int| precedes_at(b, a, i));
    }
}

/// The comparison of `A` with `B` keeps to its specification.
pub open spec fn keeps_order<A: PartialOrdSpec<B> + ?Sized, B: ?Sized>() -> bool {
    A::obeys_partial_cmp_spec()
}

/// The equality of `A` with `B` keeps to its specification.
pub open spec fn keeps_equality<A: PartialEqSpec<B> + ?Sized, B: ?Sized>() -> bool {
    A::obeys_eq_spec()
}

/// `c` compares with every byte sequence by its bytes: it is less exactly
/// where it comes before the other at some place, greater where the other comes
/// before it, and equal where the bytes are the same.
pub proof fn law_order_like<T: CordLike + ?Sized>(c: Cord, t: &T)
    ensures
        keeps_order::<Cord, T>(),
        keeps_equality::<Cord, T>(),
        c.partial_cmp_spec(t) == Some(Ordering::Less) <==> exists|i: int| precedes_at(c@, t.like_bytes(), i),
        c.partial_cmp_spec(t) == Some(Ordering::Greater) <==> exists|i: int| precedes_at(t.like_bytes(), c@, i),
        c.partial_cmp_spec(t) == Some(Ordering::Equal) <==> c@ == t.like_bytes(),
        c.eq_spec(t) <==> c@ == t.like_bytes(),
{
    law_lex_places(c@, t.like_bytes());
}

/// A slice compares with a cord by its bytes, in the same way, and the other
/// way round the order is reversed.
pub proof fn law_order_slice(t: &[u8], c: Cord)
    ensures
        keeps_order::<[u8], Cord>(),
        keeps_equality::<[u8], Cord>(),
        t.partial_cmp_spec(&c) == Some(Ordering::Less) <==> exists|i: int| precedes_at(t@, c@, i),
        t.partial_cmp_spec(&c) == Some(Ordering::Greater) <==> exists|i: int| precedes_at(c@, t@, i),
        t.partial_cmp_spec(&c) == Some(Ordering::Equal) <==> t@ == c@,
        t.partial_cmp_spec(&c) == Some(Ordering::Less) <==> c.partial_cmp_spec(t) == Some(Ordering::Greater),
        t.partial_cmp_spec(&c) == Some(Ordering::Greater) <==> c.partial_cmp_spec(t) == Some(Ordering::Less),
        t@.len() > 0 && c@.len() > 0 && t@[0] < c@[0] ==> t.partial_cmp_spec(&c) == Some(Ordering::Less),
        t.eq_spec(&c) <==> t@ == c@,
        t.eq_spec(&c) <==> c.eq_spec(t),
{
    law_lex_places(t@, c@);
    law_lex_places(c@, t@);
}

/// A reference to a slice compares with a cord by its bytes, in the same way, and the other
/// way round the order is reversed.
pub proof fn law_order_slice_ref(t: &&[u8], c: Cord)
    ensures
        keeps_order::<&[u8], Cord>(),
        keeps_equality::<&[u8], Cord>(),
        t.partial_cmp_spec(&c) == Some(Ordering::Less) <==> exists|i: int| precedes_at(t@, c@, i),
        t.partial_cmp_spec(&c) == Some(Ordering::Greater) <==> exists|i: int| precedes_at(c@, t@, i),
        t.partial_cmp_spec(&c) == Some(Ordering::Equal) <==> t@ == c@,
        t.partial_cmp_spec(&c) == Some(Ordering::Less) <==> c.partial_cmp_spec(t) == Some(Ordering::Greater),
        t.partial_cmp_spec(&c) == Some(Ordering::Greater) <==> c.partial_cmp_spec(t) == Some(Ordering::Less),
        t@.len() > 0 && c@.len() > 0 && t@[0] < c@[0] ==> t.partial_cmp_spec(&c) == Some(Ordering::Less),
        t.eq_spec(&c) <==> t@ == c@,
        t.eq_spec(&c) <==> c.eq_spec(t),
{
    law_lex_places(t@, c@);
    law_lex_places(c@, t@);
}

/// A text compares with a cord by its bytes, in the same way, and the other
/// way round the order is reversed.
pub proof fn law_order_str(t: &str, c: Cord)
    ensures
        keeps_order::<str, Cord>(),
        keeps_equality::<str, Cord>(),
        t.partial_cmp_spec(&c) == Some(Ordering::Less) <==> exists|i: int| precedes_at(encode_utf8(t@), c@, i),
        t.partial_cmp_spec(&c) == Some(Ordering::Greater) <==> exists|i: int| precedes_at(c@, encode_utf8(t@), i),
        t.partial_cmp_spec(&c) == Some(Ordering::Equal) <==> encode_utf8(t@) == c@,
        t.partial_cmp_spec(&c) == Some(Ordering::Less) <==> c.partial_cmp_spec(t) == Some(Ordering::Greater),
        t.partial_cmp_spec(&c) == Some(Ordering::Greater) <==> c.partial_cmp_spec(t) == Some(Ordering::Less),
        encode_utf8(t@).len() > 0 && c@.len() > 0 && encode_utf8(t@)[0] < c@[0] ==> t.partial_cmp_spec(&c) == Some(Ordering::Less),
        t.eq_spec(&c) <==> encode_utf8(t@) == c@,
        t.eq_spec(&c) <==> c.eq_spec(t),
{
    law_lex_places(encode_utf8(t@), c@);
    law_lex_places(c@, encode_utf8(t@));
}

/// A reference to a text compares with a cord by its bytes, in the same way, and the other
/// way round the order is reversed.
pub proof fn law_order_str_ref(t: &&str, c: Cord)
    ensures
        keeps_order::<&str, Cord>(),
        keeps_equality::<&str, Cord>(),
        t.partial_cmp_spec(&c) == Some(Ordering::Less) <==> exists|i: int| precedes_at(encode_utf8(t@), c@, i),
        t.partial_cmp_spec(&c) == Some(Ordering::Greater) <==> exists|i: int| precedes_at(c@, encode_utf8(t@), i),
        t.partial_cmp_spec(&c) == Some(Ordering::Equal) <==> encode_utf8(t@) == c@,
        t.partial_cmp_spec(&c) == Some(Ordering::Less) <==> c.partial_cmp_spec(t) == Some(Ordering::Greater),
        t.partial_cmp_spec(&c) == Some(Ordering::Greater) <==> c.partial_cmp_spec(t) == Some(Ordering::Less),
        encode_utf8(t@).len() > 0 && c@.len() > 0 && encode_utf8(t@)[0] < c@[0] ==> t.partial_cmp_spec(&c) == Some(Ordering::Less),
        t.eq_spec(&c) <==> encode_utf8(t@) == c@,
        t.eq_spec(&c) <==> c.eq_spec(t),
{
    law_lex_places(encode_utf8(t@), c@);
    law_lex_places(c@, encode_utf8(t@));
}

/// A vector compares with a cord by its bytes, in the same way, and the other
/// way round the order is reversed.
pub proof fn law_order_vec(t: &Vec<u8>, c: Cord)
    ensures
        keeps_order::<Vec<u8>, Cord>(),
        keeps_equality::<Vec<u8>, Cord>(),
        t.partial_cmp_spec(&c) == Some(Ordering::Less) <==> exists|i: int| precedes_at(t@, c@, i),
        t.partial_cmp_spec(&c) == Some(Ordering::Greater) <==> exists|i: int| precedes_at(c@, t@, i),
        t.partial_cmp_spec(&c) == Some(Ordering::Equal) <==> t@ == c@,
        t.partial_cmp_spec(&c) == Some(Ordering::Less) <==> c.partial_cmp_spec(t) == Some(Ordering::Greater),
        t.partial_cmp_spec(&c) == Some(Ordering::Greater) <==> c.partial_cmp_spec(t) == Some(Ordering::Less),
        t@.len() > 0 && c@.len() > 0 && t@[0] < c@[0] ==> t.partial_cmp_spec(&c) == Some(Ordering::Less),
        t.eq_spec(&c) <==> t@ == c@,
        t.eq_spec(&c) <==> c.eq_spec(t),
{
    law_lex_places(t@, c@);
    law_lex_places(c@, t@);
}

/// A string compares with a cord by its bytes, in the same way, and the other
/// way round the order is reversed.
pub proof fn law_order_string(t: &String, c: Cord)
    ensures
        keeps_order::<String, Cord>(),
        keeps_equality::<String, Cord>(),
        t.partial_cmp_spec(&c) == Some(Ordering::Less) <==> exists|i: int| precedes_at(encode_utf8(t@), c@, i),
        t.partial_cmp_spec(&c) == Some(Ordering::Greater) <==> exists|i: int| precedes_at(c@, encode_utf8(t@), i),
        t.partial_cmp_spec(&c) == Some(Ordering::Equal) <==> encode_utf8(t@) == c@,
        t.partial_cmp_spec(&c) == Some(Ordering::Less) <==> c.partial_cmp_spec(t) == Some(Ordering::Greater),
        t.partial_cmp_spec(&c) == Some(Ordering::Greater) <==> c.partial_cmp_spec(t) == Some(Ordering::Less),
        encode_utf8(t@).len() > 0 && c@.len() > 0 && encode_utf8(t@)[0] < c@[0] ==> t.partial_cmp_spec(&c) == Some(Ordering::Less),
        t.eq_spec(&c) <==> encode_utf8(t@) == c@,
        t.eq_spec(&c) <==> c.eq_spec(t),
{
    law_lex_places(encode_utf8(t@), c@);
    law_lex_places(c@, encode_utf8(t@));
}

/// An array compares with a cord by its bytes, in the same way, and the other
/// way round the order is reversed.
pub proof fn law_order_array<const N: usize>(t: &[u8; N], c: Cord)
    ensures
        keeps_order::<[u8; N], Cord>(),
        keeps_equality::<[u8; N], Cord>(),
        t.partial_cmp_spec(&c) == Some(Ordering::Less) <==> exists|i: int| precedes_at(t@, c@, i),
        t.partial_cmp_spec(&c) == Some(Ordering::Greater) <==> exists|i: int| precedes_at(c@, t@, i),
        t.partial_cmp_spec(&c) == Some(Ordering::Equal) <==> t@ == c@,
        t.partial_cmp_spec(&c) == Some(Ordering::Less) <==> c.partial_cmp_spec(t) == Some(Ordering::Greater),
        t.partial_cmp_spec(&c) == Some(Ordering::Greater) <==> c.partial_cmp_spec(t) == Some(Ordering::Less),
        t@.len() > 0 && c@.len() > 0 && t@[0] < c@[0] ==> t.partial_cmp_spec(&c) == Some(Ordering::Less),
        t.eq_spec(&c) <==> t@ == c@,
        t.eq_spec(&c) <==> c.eq_spec(t),
{
    law_lex_places(t@, c@);
    law_lex_places(c@, t@);
}

/// A reference to an array is equal to a cord where it refers to the bytes of the cord.
pub proof fn law_equal_array_ref<const N: usize>(t: &&[u8; N], c: Cord)
    ensures
        keeps_equality::<&[u8; N], Cord>(),
        t.eq_spec(&c) <==> t@ == c@,
        t.eq_spec(&c) <==> c.eq_spec(t),
{
}

/// Buffers compare with each other by their bytes.
pub proof fn law_order_buffers(a: CordBuffer, b: CordBuffer)
    ensures
        keeps_order::<CordBuffer, CordBuffer>(),
        keeps_equality::<CordBuffer, CordBuffer>(),
        a.partial_cmp_spec(&b) == Some(Ordering::Less) <==> exists|i: int| precedes_at(a@, b@, i),
        a.partial_cmp_spec(&b) == Some(Ordering::Greater) <==> exists|i: int| precedes_at(b@, a@, i),
        a.partial_cmp_spec(&b) == Some(Ordering::Equal) <==> a@ == b@,
        a.partial_cmp_spec(&b) == Some(Ordering::Less) <==> b.partial_cmp_spec(&a) == Some(Ordering::Greater),
        a.eq_spec(&b) <==> a@ == b@,
        a.eq_spec(&b) <==> b.eq_spec(&a),
{
    law_lex_places(a@, b@);
    law_lex_places(b@, a@);
}

/// A buffer is equal to a slice, and that to the buffer, exactly where their bytes are the same.
pub proof fn law_buffer_equals_slice(a: CordBuffer, t: &[u8])
    ensures
        keeps_equality::<CordBuffer, [u8]>(),
        keeps_equality::<[u8], CordBuffer>(),
        a.eq_spec(t) <==> a@ == t@,
        t.eq_spec(&a) <==> a@ == t@,
{
}

/// A buffer is equal to a reference to a slice, and that to the buffer, exactly where their bytes are the same.
pub proof fn law_buffer_equals_slice_ref(a: CordBuffer, t: &&[u8])
    ensures
        keeps_equality::<CordBuffer, &[u8]>(),
        keeps_equality::<&[u8], CordBuffer>(),
        a.eq_spec(t) <==> a@ == t@,
        t.eq_spec(&a) <==> a@ == t@,
{
}

/// A buffer is equal to a text, and that to the buffer, exactly where their bytes are the same.
pub proof fn law_buffer_equals_str(a: CordBuffer, t: &str)
    ensures
        keeps_equality::<CordBuffer, str>(),
        keeps_equality::<str, CordBuffer>(),
        a.eq_spec(t) <==> a@ == encode_utf8(t@),
        t.eq_spec(&a) <==> a@ == encode_utf8(t@),
{
}

/// A buffer is equal to a reference to a text, and that to the buffer, exactly where their bytes are the same.
pub proof fn law_buffer_equals_str_ref(a: CordBuffer, t: &&str)
    ensures
        keeps_equality::<CordBuffer, &str>(),
        keeps_equality::<&str, CordBuffer>(),
        a.eq_spec(t) <==> a@ == encode_utf8(t@),
        t.eq_spec(&a) <==> a@ == encode_utf8(t@),
{
}

/// A buffer is equal to a vector, and that to the buffer, exactly where their bytes are the same.
pub proof fn law_buffer_equals_vec(a: CordBuffer, t: &Vec<u8>)
    ensures
        keeps_equality::<CordBuffer, Vec<u8>>(),
        keeps_equality::<Vec<u8>, CordBuffer>(),
        a.eq_spec(t) <==> a@ == t@,
        t.eq_spec(&a) <==> a@ == t@,
{
}

/// A buffer is equal to a string, and that to the buffer, exactly where their bytes are the same.
pub proof fn law_buffer_equals_string(a: CordBuffer, t: &String)
    ensures
        keeps_equality::<CordBuffer, String>(),
        keeps_equality::<String, CordBuffer>(),
        a.eq_spec(t) <==> a@ == encode_utf8(t@),
        t.eq_spec(&a) <==> a@ == encode_utf8(t@),
{
}

/// A buffer is equal to an array, and that to the buffer, exactly where their bytes are the same.
pub proof fn law_buffer_equals_array<const N: usize>(a: CordBuffer, t: &[u8; N])
    ensures
        keeps_equality::<CordBuffer, [u8; N]>(),
        keeps_equality::<[u8; N], CordBuffer>(),
        a.eq_spec(t) <==> a@ == t@,
        t.eq_spec(&a) <==> a@ == t@,
{
}

/// A buffer is equal to a reference to an array, and that to the buffer, exactly where their bytes are the same.
pub proof fn law_buffer_equals_array_ref<const N: usize>(a: CordBuffer, t: &&[u8; N])
    ensures
        keeps_equality::<CordBuffer, &[u8; N]>(),
        keeps_equality::<&[u8; N], CordBuffer>(),
        a.eq_spec(t) <==> a@ == t@,
        t.eq_spec(&a) <==> a@ == t@,
{
}

/// What a cord is compared with and searched for are the bytes of a sequence:
/// for a text those of its encoding, and for a reference those of what it refers to.
pub proof fn law_like_bytes<T: CordLike + ?Sized, const N: usize>(
    cord: &Cord,
    slice: &[u8],
    text: &str,
    vector: &Vec<u8>,
    string: &String,
    buffer: &CordBuffer,
    array: &[u8; N],
    shared: &SharedBuffer,
    reference: &&T,
)
    ensures
        cord.like_bytes() == cord@,
        slice.like_bytes() == slice@,
        text.like_bytes() == encode_utf8(text@),
        vector.like_bytes() == vector@,
        string.like_bytes() == encode_utf8(string@),
        buffer.like_bytes() == buffer@,
        array.like_bytes() == array@,
        shared.like_bytes() == buffer_bytes(*shared),
        reference.like_bytes() == (**reference).like_bytes(),
{
}

} // verus!
