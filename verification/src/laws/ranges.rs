//! What each kind of range selects.

use crate::cord::Cord;
use crate::ranges::{behind, first, is_part, part, within, Bounds, CordIndex, CordRange};
use crate::rep::shared::{block_of, has_block, shares};
use core::ops::{Bound, Range, RangeFrom, RangeFull, RangeInclusive, RangeTo, RangeToInclusive};
use vstd::prelude::*;

verus! {

/// `a..b` is the bytes from `a` up to and without `b`, and lies inside a cord where
/// `a` is not above `b`, nor `b` above the length.
pub proof fn law_range_half_open(range: Range<usize>, cord: Cord, sub: Cord, len: int)
    requires
        len == cord@.len(),
    ensures
        range.spec_intact(),
        range.spec_usable(),
        first(range.spec_bounds()) == range.start,
        behind(range.spec_bounds(), len) == range.end,
        within(range.spec_bounds(), len) <==> range.start <= range.end <= len,
        range.spec_valid(len) <==> range.start <= range.end <= len,
        range.spec_found(cord, sub) <==> is_part(range.spec_bounds(), cord, sub),
        range.start <= range.end <= len && is_part(range.spec_bounds(), cord, sub) ==> {
            &&& sub@.len() == range.end - range.start
            &&& forall|i: int| range.start <= i < range.end ==> #[trigger] cord@[i] == sub@[i - range.start]
        },
{
}

/// `a..=b`, which was not iterated to its end, is the bytes from `a` up to and with
/// `b`, and lies inside a cord where `b` is below the length and `a` is at most
/// one above `b`.
pub proof fn law_range_inclusive(range: RangeInclusive<usize>, cord: Cord, sub: Cord, len: int)
    requires
        !range@.exhausted,
        len == cord@.len(),
    ensures
        range.spec_intact(),
        range.spec_usable(),
        first(range.spec_bounds()) == range@.start,
        behind(range.spec_bounds(), len) == range@.end + 1,
        within(range.spec_bounds(), len) <==> range@.start <= range@.end + 1 <= len,
        range.spec_valid(len) <==> range@.start <= range@.end + 1 <= len,
        range.spec_found(cord, sub) <==> is_part(range.spec_bounds(), cord, sub),
        range@.start <= range@.end + 1 <= len && is_part(range.spec_bounds(), cord, sub) ==> {
            &&& sub@.len() == range@.end + 1 - range@.start
            &&& forall|i: int| range@.start <= i < range@.end + 1 ==> #[trigger] cord@[i] == sub@[i - range@.start]
        },
{
}

/// `a..` is the bytes from `a` on, and lies inside a cord where `a` is not above
/// the length.
pub proof fn law_range_from(range: RangeFrom<usize>, cord: Cord, sub: Cord, len: int)
    requires
        len == cord@.len(),
    ensures
        range.spec_intact(),
        range.spec_usable(),
        first(range.spec_bounds()) == range.start,
        behind(range.spec_bounds(), len) == len,
        within(range.spec_bounds(), len) <==> range.start <= len,
        range.spec_valid(len) <==> range.start <= len,
        range.spec_found(cord, sub) <==> is_part(range.spec_bounds(), cord, sub),
        range.start <= len && is_part(range.spec_bounds(), cord, sub) ==> {
            &&& sub@.len() == len - range.start
            &&& forall|i: int| range.start <= i < len ==> #[trigger] cord@[i] == sub@[i - range.start]
        },
{
}

/// `..b` is the first `b` bytes, and lies inside a cord where `b` is not above the length.
pub proof fn law_range_to(range: RangeTo<usize>, cord: Cord, sub: Cord, len: int)
    requires
        len == cord@.len(),
    ensures
        range.spec_intact(),
        range.spec_usable(),
        first(range.spec_bounds()) == 0,
        behind(range.spec_bounds(), len) == range.end,
        within(range.spec_bounds(), len) <==> range.end <= len,
        range.spec_valid(len) <==> range.end <= len,
        range.spec_found(cord, sub) <==> is_part(range.spec_bounds(), cord, sub),
        range.end <= len && is_part(range.spec_bounds(), cord, sub) ==> {
            &&& sub@.len() == range.end
            &&& forall|i: int| 0 <= i < range.end ==> #[trigger] cord@[i] == sub@[i]
        },
{
}

/// `..=b` is the bytes up to and with the one at `b`, and lies inside a cord where
/// `b` is below the length.
pub proof fn law_range_to_inclusive(range: RangeToInclusive<usize>, cord: Cord, sub: Cord, len: int)
    requires
        len == cord@.len(),
    ensures
        range.spec_intact(),
        range.spec_usable(),
        first(range.spec_bounds()) == 0,
        behind(range.spec_bounds(), len) == range.end + 1,
        within(range.spec_bounds(), len) <==> range.end < len,
        range.spec_valid(len) <==> range.end < len,
        range.spec_found(cord, sub) <==> is_part(range.spec_bounds(), cord, sub),
        range.end < len && is_part(range.spec_bounds(), cord, sub) ==> {
            &&& sub@.len() == range.end + 1
            &&& forall|i: int| 0 <= i < range.end + 1 ==> #[trigger] cord@[i] == sub@[i]
        },
{
}

/// `..` is all bytes, and lies inside every cord.
pub proof fn law_range_full(range: RangeFull, cord: Cord, sub: Cord, len: int)
    requires
        len == cord@.len(),
    ensures
        range.spec_intact(),
        range.spec_usable(),
        first(range.spec_bounds()) == 0,
        behind(range.spec_bounds(), len) == len,
        within(range.spec_bounds(), len) <==> true,
        range.spec_valid(len) <==> true,
        range.spec_found(cord, sub) <==> is_part(range.spec_bounds(), cord, sub),
        true && is_part(range.spec_bounds(), cord, sub) ==> {
            &&& sub@.len() == len
            &&& forall|i: int| 0 <= i < len ==> #[trigger] cord@[i] == sub@[i]
        },
{
}

/// A pair of bounds starts at an included lower bound and one behind an
/// excluded one, and ends one behind an included upper bound and at an excluded
/// one. Without a bound it starts and ends where the cord does.
pub proof fn law_range_pair(bounds: Bounds, cord: Cord, sub: Cord, len: int)
    requires
        len == cord@.len(),
    ensures
        bounds.spec_intact(),
        bounds.spec_usable(),
        bounds.spec_found(cord, sub) <==> is_part(bounds.spec_bounds(), cord, sub),
        ({
            let start = match bounds.0 {
                Bound::Included(a) => a as int,
                Bound::Excluded(a) => a + 1,
                Bound::Unbounded => 0,
            };
            let end = match bounds.1 {
                Bound::Included(b) => b + 1,
                Bound::Excluded(b) => b as int,
                Bound::Unbounded => len,
            };
            &&& first(bounds.spec_bounds()) == start
            &&& behind(bounds.spec_bounds(), len) == end
            &&& within(bounds.spec_bounds(), len) <==> start <= end <= len
            &&& bounds.spec_valid(len) <==> start <= end <= len
            &&& start <= end <= len && is_part(bounds.spec_bounds(), cord, sub) ==> {
                &&& sub@.len() == end - start
                &&& forall|i: int| start <= i < end ==> #[trigger] cord@[i] == sub@[i - start]
            }
        }),
{
}

/// A slice of at most fifteen bytes is held in place. A longer one copies
/// nothing: each of its blocks is a block of the cord, or a window onto one.
pub proof fn law_slice_shares(bounds: Bounds, cord: Cord, sub: Cord)
    requires
        is_part(bounds, cord, sub),
    ensures
        sub@.len() <= 15 <==> sub.contents() is Inline,
        forall|i: int| #![trigger sub.edges()[i]] 0 <= i < sub.edges().len() ==> exists|j: int|
            0 <= j < cord.edges().len() && block_of(#[trigger] cord.edges()[j]) == block_of(sub.edges()[i]),
{
    reveal(shares);
    assert forall|i: int| #![trigger sub.edges()[i]] 0 <= i < sub.edges().len() implies exists|j: int|
        0 <= j < cord.edges().len() && block_of(#[trigger] cord.edges()[j]) == block_of(sub.edges()[i]) by {
        assert(has_block(cord.edges(), block_of(sub.edges()[i])));
    }
}

/// A single index selects the byte there, and lies inside a cord where it is
/// below the length.
pub proof fn law_index(index: usize, cord: Cord, found: u8)
    ensures
        index.spec_usable(),
        index.spec_valid(cord@.len() as int) <==> index < cord@.len(),
        vstd::std_specs::core::IndexSpec::index_req(&cord, &index) <==> index < cord@.len(),
        index < cord@.len() ==> (index.spec_found(cord, found) <==> found == cord@[index as int]),
{
}

/// Equal ranges of different kinds select the same bytes.
pub proof fn law_range_kinds(bytes: Seq<u8>, start: usize, end: usize)
    requires
        start < end <= bytes.len(),
    ensures
        ({
            let whole = (Range { start, end }).spec_bounds();
            let from = (RangeFrom { start }).spec_bounds();
            let to = (RangeTo { end }).spec_bounds();
            let last = (RangeToInclusive { end: (end - 1) as usize }).spec_bounds();
            &&& part(to, bytes) == part(last, bytes)
            &&& part(from, part(to, bytes)) == part(whole, bytes)
            &&& part(to, bytes) + part((RangeFrom { start: end }).spec_bounds(), bytes) == part(RangeFull.spec_bounds(), bytes)
        }),
{
    let whole = (Range { start, end }).spec_bounds();
    let from = (RangeFrom { start }).spec_bounds();
    let to = (RangeTo { end }).spec_bounds();
    let last = (RangeToInclusive { end: (end - 1) as usize }).spec_bounds();
    assert(part(to, bytes) =~= part(last, bytes));
    assert(part(from, part(to, bytes)) =~= part(whole, bytes));
    assert(part(to, bytes) + part((RangeFrom { start: end }).spec_bounds(), bytes) =~= part(
        RangeFull.spec_bounds(),
        bytes,
    ));
}

} // verus!
