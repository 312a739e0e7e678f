//! What searching a cord finds, and what sums and places are.

use crate::arena::place_of;
use crate::buffer::default_capacity;
use crate::checksum::{fnv, fnv_step, FNV_OFFSET};
use crate::rep::flat::{lemma_rounded_up, rounded_up};
use crate::search::{absent, occurs_at};
use crate::serde_impl::{grown_capacity, next_capacity};
use vstd::prelude::*;

verus! {

/// A needle occurs at an index exactly where each of its bytes is the byte that
/// far behind the index.
pub proof fn law_occurs(bytes: Seq<u8>, needle: Seq<u8>, i: int)
    ensures
        occurs_at(bytes, needle, i) <==> {
            &&& 0 <= i
            &&& i + needle.len() <= bytes.len()
            &&& forall|k: int| 0 <= k < needle.len() ==> bytes[i + k] == #[trigger] needle[k]
        },
        needle.len() == 0 && 0 <= i <= bytes.len() ==> occurs_at(bytes, needle, i),
{
    if 0 <= i && i + needle.len() <= bytes.len() {
        let part = bytes.subrange(i, i + needle.len());
        if part == needle {
            assert forall|k: int| 0 <= k < needle.len() implies bytes[i + k] == #[trigger] needle[k] by {
                assert(part[k] == bytes[i + k]);
            }
        }
        if forall|k: int| 0 <= k < needle.len() ==> bytes[i + k] == #[trigger] needle[k] {
            assert(part =~= needle);
        }
    }
}

/// A needle is absent from a range of indices exactly where it occurs at none
/// of them: at each some byte differs, or it does not fit.
pub proof fn law_absent(bytes: Seq<u8>, needle: Seq<u8>, start: int, end: int, i: int)
    requires
        absent(bytes, needle, start, end),
        start <= i < end,
    ensures
        i < 0 || i + needle.len() > bytes.len() || exists|k: int|
            0 <= k < needle.len() && bytes[i + k] != #[trigger] needle[k],
{
    law_occurs(bytes, needle, i);
    assert(!occurs_at(bytes, needle, i));
}

/// A step of the FNV-1a hash: the byte is mixed in, and the state multiplied by
/// the prime, modulo two to the power of 64. Bytes are mixed in one by one.
pub proof fn law_fnv(state: u64, bytes: Seq<u8>, byte: u8)
    ensures
        fnv(state, Seq::empty()) == state,
        fnv(state, bytes.push(byte)) == fnv_step(fnv(state, bytes), byte),
        fnv_step(state, byte) as int == ((state ^ byte as u64) * 1099511628211) % 18446744073709551616,
        FNV_OFFSET == 14695981039346656037,
{
    assert(bytes.push(byte).drop_last() =~= bytes);
}

/// A block is placed at the first aligned address behind what is taken.
pub proof fn law_place(base: int, used: int, align: int, other: int)
    requires
        align > 0,
    ensures
        place_of(base, used, align) >= used,
        place_of(base, used, align) < used + align,
        (base + place_of(base, used, align)) % align == 0,
        other >= used && (base + other) % align == 0 ==> place_of(base, used, align) <= other,
{
    lemma_rounded_up(base + used, align);
    let place = place_of(base, used, align);
    if other >= used && (base + other) % align == 0 && place > other {
        let a = base + place;
        let b = base + other;
        vstd::arithmetic::div_mod::lemma_fundamental_div_mod(a, align);
        vstd::arithmetic::div_mod::lemma_fundamental_div_mod(b, align);
        assert(0 < a - b < align);
        assert(a - b == align * (a / align - b / align)) by (nonlinear_arith)
            requires
                a == align * (a / align),
                b == align * (b / align),
        ;
        assert(false) by (nonlinear_arith)
            requires
                a - b == align * (a / align - b / align),
                0 < a - b < align,
        ;
    }
}

/// Rounding up gives the least multiple that is not below a number.
pub proof fn law_rounded_up(n: int, m: int, other: int)
    requires
        m > 0,
    ensures
        rounded_up(n, m) % m == 0,
        n <= rounded_up(n, m) < n + m,
        other >= n && other % m == 0 ==> rounded_up(n, m) <= other,
{
    lemma_rounded_up(n, m);
    law_place(0, n, m, other);
}

/// A buffer that replaces a full one, below the default limit, is about four
/// times as large, up to that limit.
pub proof fn law_grown_capacity(capacity: int)
    requires
        capacity >= 15,
    ensures
        capacity * 4 <= 4083 ==> capacity * 4 <= grown_capacity(capacity) < capacity * 4 + 64,
        capacity * 4 > 4083 ==> grown_capacity(capacity) == 4083,
        grown_capacity(capacity) <= 4083,
{
}

/// The buffer behind a whole chunk is made for the bytes that are still
/// expected, and for a whole chunk where none are or nothing is known.
pub proof fn law_next_capacity(total: usize, len: int)
    requires
        len >= 0,
    ensures
        next_capacity(None, len) == 4083,
        total <= len ==> next_capacity(Some(total), len) == 4083,
        total > len ==> next_capacity(Some(total), len) == default_capacity(total - len),
        total > len && total - len <= 4083 ==> next_capacity(Some(total), len) >= total - len,
{
}

} // verus!
