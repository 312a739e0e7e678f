//! Placing blocks in an arena, one behind the other.

use crate::rep::flat::{round_up, rounded_up};
use vstd::prelude::*;

verus! {

/// Where a block with alignment `align` is placed in an arena at the address
/// `base` of which the first `used` bytes are taken.
pub open spec fn place_of(base: int, used: int, align: int) -> int {
    rounded_up(base + used, align) - base
}

/// Places a block of `size` bytes with alignment `align` in an arena of
/// `limit` bytes at the address `base`, of which the first `used` bytes are
/// taken. Returns the offset of the block and the number of bytes that are
/// taken then, or nothing if the block does not fit.
pub fn place(base: usize, used: usize, align: usize, size: usize, limit: usize) -> (r: Option<(usize, usize)>)
    requires
        align > 0,
        base + used + align - 1 <= usize::MAX,
    ensures
        r is Some <==> place_of(base as int, used as int, align as int) + size <= limit,
        r matches Some((offset, end)) ==> {
            &&& offset == place_of(base as int, used as int, align as int)
            &&& end == offset + size
            &&& used <= offset
            &&& (base + offset) % align as int == 0
        },
{
    let offset: usize = round_up(base + used, align) - base;
    match offset.checked_add(size) {
        Some(end) => {
            if end <= limit {
                Some((offset, end))
            } else {
                None
            }
        },
        None => None,
    }
}

/// A block that is placed behind another one does not overlap it.
pub proof fn law_blocks_disjoint(base: int, used: int, align: int, size: int, next_align: int)
    requires
        0 <= base,
        0 <= used,
        0 <= size,
        align > 0,
        next_align > 0,
    ensures
        place_of(base, place_of(base, used, align) + size, next_align) >= place_of(base, used, align) + size,
{
    let next = base + place_of(base, used, align) + size;
    let up = next + next_align - 1;
    vstd::arithmetic::div_mod::lemma_fundamental_div_mod(up, next_align);
    vstd::arithmetic::div_mod::lemma_mod_bound(up, next_align);
    assert(rounded_up(next, next_align) >= next) by (nonlinear_arith)
        requires
            rounded_up(next, next_align) == up / next_align * next_align,
            up == next_align * (up / next_align) + up % next_align,
            up % next_align < next_align,
            up == next + next_align - 1,
    ;
}

} // verus!
