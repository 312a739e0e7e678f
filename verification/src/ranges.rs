//! Ranges of positions in a cord, and what `Cord::slice` and `Cord::get` make of them.

use crate::cord::Cord;
use crate::rep::shared::shares;
use crate::rep::MAX_INLINE;
use core::ops::{Bound, Range, RangeFrom, RangeFull, RangeInclusive, RangeTo, RangeToInclusive};
use vstd::prelude::*;

verus! {

/// `core::ops::Bound`: an end of a range, with its three variants.
#[verifier::external_type_specification]
#[verifier::reject_recursive_types(T)]
pub struct ExBound<T>(Bound<T>);

/// `core::ops::RangeFrom`: a range with its public field `start`.
#[verifier::external_type_specification]
#[verifier::reject_recursive_types(Idx)]
pub struct ExRangeFrom<Idx>(RangeFrom<Idx>);

/// `core::ops::RangeTo`: a range with its public field `end`.
#[verifier::external_type_specification]
#[verifier::reject_recursive_types(Idx)]
pub struct ExRangeTo<Idx>(RangeTo<Idx>);

/// `core::ops::RangeToInclusive`: a range with its public field `end`.
#[verifier::external_type_specification]
#[verifier::reject_recursive_types(Idx)]
pub struct ExRangeToInclusive<Idx>(RangeToInclusive<Idx>);

/// `core::ops::RangeFull`: a range without fields.
#[verifier::external_type_specification]
pub struct ExRangeFull(RangeFull);

/// `RangeInclusive::start` hands out the lower bound. Of a range that was
/// iterated to its end nothing is claimed.
pub assume_specification<Idx>[ RangeInclusive::<Idx>::start ](range: &RangeInclusive<Idx>) -> (start: &Idx)
    ensures
        !range@.exhausted ==> *start == range@.start,
;

/// `RangeInclusive::end` hands out the upper bound. Of a range that was
/// iterated to its end nothing is claimed.
pub assume_specification<Idx>[ RangeInclusive::<Idx>::end ](range: &RangeInclusive<Idx>) -> (end: &Idx)
    ensures
        !range@.exhausted ==> *end == range@.end,
;

/// The lower and the upper bound of a range.
pub type Bounds = (Bound<usize>, Bound<usize>);

/// The first index in the range.
pub open spec fn first(bounds: Bounds) -> int {
    match bounds.0 {
        Bound::Included(start) => start as int,
        Bound::Excluded(start) => start + 1,
        Bound::Unbounded => 0,
    }
}

/// The index behind the range, in a cord of `len` bytes.
pub open spec fn behind(bounds: Bounds, len: int) -> int {
    match bounds.1 {
        Bound::Included(end) => end + 1,
        Bound::Excluded(end) => end as int,
        Bound::Unbounded => len,
    }
}

/// The range lies inside a cord of `len` bytes.
pub open spec fn within(bounds: Bounds, len: int) -> bool {
    first(bounds) <= behind(bounds, len) <= len
}

/// The bytes in the range.
pub open spec fn part(bounds: Bounds, bytes: Seq<u8>) -> Seq<u8> {
    bytes.subrange(first(bounds), behind(bounds, bytes.len() as int))
}

/// Ranges of positions: `a..b`, `a..=b`, `a..`, `..b`, `..=b`, `..` and pairs of bounds.
pub trait CordRange: Sized {
    /// The range still tells its bounds. An inclusive range that was iterated
    /// to its end does not; every other range does.
    spec fn spec_intact(&self) -> bool;

    /// The bounds.
    spec fn spec_bounds(&self) -> Bounds;

    /// The bounds.
    fn to_bounds(self) -> (bounds: Bounds)
        requires
            self.spec_intact(),
        ensures
            bounds == self.spec_bounds(),
    ;
}

impl CordRange for Bounds {
    open spec fn spec_intact(&self) -> bool {
        true
    }

    open spec fn spec_bounds(&self) -> Bounds {
        *self
    }

    fn to_bounds(self) -> (bounds: Bounds) {
        self
    }
}

impl CordRange for Range<usize> {
    open spec fn spec_intact(&self) -> bool {
        true
    }

    open spec fn spec_bounds(&self) -> Bounds {
        (Bound::Included(self.start), Bound::Excluded(self.end))
    }

    fn to_bounds(self) -> (bounds: Bounds) {
        (Bound::Included(self.start), Bound::Excluded(self.end))
    }
}

impl CordRange for RangeInclusive<usize> {
    open spec fn spec_intact(&self) -> bool {
        !self@.exhausted
    }

    open spec fn spec_bounds(&self) -> Bounds {
        (Bound::Included(self@.start), Bound::Included(self@.end))
    }

    fn to_bounds(self) -> (bounds: Bounds) {
        (Bound::Included(*self.start()), Bound::Included(*self.end()))
    }
}

impl CordRange for RangeFrom<usize> {
    open spec fn spec_intact(&self) -> bool {
        true
    }

    open spec fn spec_bounds(&self) -> Bounds {
        (Bound::Included(self.start), Bound::Unbounded)
    }

    fn to_bounds(self) -> (bounds: Bounds) {
        (Bound::Included(self.start), Bound::Unbounded)
    }
}

impl CordRange for RangeTo<usize> {
    open spec fn spec_intact(&self) -> bool {
        true
    }

    open spec fn spec_bounds(&self) -> Bounds {
        (Bound::Unbounded, Bound::Excluded(self.end))
    }

    fn to_bounds(self) -> (bounds: Bounds) {
        (Bound::Unbounded, Bound::Excluded(self.end))
    }
}

impl CordRange for RangeToInclusive<usize> {
    open spec fn spec_intact(&self) -> bool {
        true
    }

    open spec fn spec_bounds(&self) -> Bounds {
        (Bound::Unbounded, Bound::Included(self.end))
    }

    fn to_bounds(self) -> (bounds: Bounds) {
        (Bound::Unbounded, Bound::Included(self.end))
    }
}

impl CordRange for RangeFull {
    open spec fn spec_intact(&self) -> bool {
        true
    }

    open spec fn spec_bounds(&self) -> Bounds {
        (Bound::Unbounded, Bound::Unbounded)
    }

    fn to_bounds(self) -> (bounds: Bounds) {
        (Bound::Unbounded, Bound::Unbounded)
    }
}

/// The start and length of `range` in a cord of `len` bytes, if it lies inside.
pub fn try_resolve_range<R: CordRange>(range: R, len: usize) -> (r: Option<(usize, usize)>)
    requires
        range.spec_intact(),
    ensures
        r is Some <==> within(range.spec_bounds(), len as int),
        r matches Some(found) ==> {
            &&& found.0 == first(range.spec_bounds())
            &&& found.0 + found.1 == behind(range.spec_bounds(), len as int)
        },
{
    let bounds = range.to_bounds();
    let start: Option<usize> = match bounds.0 {
        Bound::Included(start) => Some(start),
        Bound::Excluded(start) => start.checked_add(1),
        Bound::Unbounded => Some(0),
    };
    let end: Option<usize> = match bounds.1 {
        Bound::Included(end) => end.checked_add(1),
        Bound::Excluded(end) => Some(end),
        Bound::Unbounded => Some(len),
    };
    match (start, end) {
        (Some(start), Some(end)) => {
            if start <= end && end <= len {
                Some((start, end - start))
            } else {
                None
            }
        },
        _ => None,
    }
}

/// The start and length of `range`, which lies inside a cord of `len` bytes.
pub fn resolve_range<R: CordRange>(range: R, len: usize) -> (r: (usize, usize))
    requires
        range.spec_intact(),
        within(range.spec_bounds(), len as int),
    ensures
        r.0 == first(range.spec_bounds()),
        r.0 + r.1 == behind(range.spec_bounds(), len as int),
{
    try_resolve_range(range, len).unwrap()
}

/// Marks the types that `CordIndex` is for.
pub trait IndexSealed {

}

/// What `Cord::get` accepts: an index for a byte, and a range for a sub-cord.
pub trait CordIndex: IndexSealed + Sized {
    /// A byte or a sub-cord.
    type Output;

    /// The index still tells what it stands for: see `CordRange`.
    spec fn spec_usable(&self) -> bool;

    /// The index lies inside a cord of `len` bytes.
    spec fn spec_valid(&self, len: int) -> bool;

    /// `found` is what `cord` holds at the index.
    spec fn spec_found(&self, cord: Cord, found: Self::Output) -> bool;

    /// The byte or sub-cord at the index, if it lies inside the cord.
    fn get(self, cord: &Cord) -> (r: Option<Self::Output>)
        requires
            self.spec_usable(),
        ensures
            r is Some <==> self.spec_valid(cord@.len() as int),
            r matches Some(found) ==> self.spec_found(*cord, found),
    ;
}

impl IndexSealed for usize {

}

impl CordIndex for usize {
    type Output = u8;

    open spec fn spec_usable(&self) -> bool {
        true
    }

    open spec fn spec_valid(&self, len: int) -> bool {
        *self < len
    }

    open spec fn spec_found(&self, cord: Cord, found: u8) -> bool {
        found == cord@[*self as int]
    }

    fn get(self, cord: &Cord) -> (r: Option<u8>) {
        cord.get_byte(self)
    }
}

/// `found` is the sub-cord of `cord` between `bounds`: a copy of few bytes, and
/// otherwise a cord that shares the blocks of `cord`.
pub open spec fn is_part(bounds: Bounds, cord: Cord, found: Cord) -> bool {
    &&& found@ == part(bounds, cord@)
    &&& found@.len() <= MAX_INLINE <==> found.contents() is Inline
    &&& shares(found.edges(), cord.edges())
}

impl IndexSealed for Range<usize> {

}

impl CordIndex for Range<usize> {
    type Output = Cord;

    open spec fn spec_usable(&self) -> bool {
        self.spec_intact()
    }

    open spec fn spec_valid(&self, len: int) -> bool {
        within(self.spec_bounds(), len)
    }

    open spec fn spec_found(&self, cord: Cord, found: Cord) -> bool {
        is_part(self.spec_bounds(), cord, found)
    }

    fn get(self, cord: &Cord) -> (r: Option<Cord>) {
        cord.try_slice(self)
    }
}

impl IndexSealed for RangeInclusive<usize> {

}

impl CordIndex for RangeInclusive<usize> {
    type Output = Cord;

    open spec fn spec_usable(&self) -> bool {
        self.spec_intact()
    }

    open spec fn spec_valid(&self, len: int) -> bool {
        within(self.spec_bounds(), len)
    }

    open spec fn spec_found(&self, cord: Cord, found: Cord) -> bool {
        is_part(self.spec_bounds(), cord, found)
    }

    fn get(self, cord: &Cord) -> (r: Option<Cord>) {
        cord.try_slice(self)
    }
}

impl IndexSealed for RangeFrom<usize> {

}

impl CordIndex for RangeFrom<usize> {
    type Output = Cord;

    open spec fn spec_usable(&self) -> bool {
        self.spec_intact()
    }

    open spec fn spec_valid(&self, len: int) -> bool {
        within(self.spec_bounds(), len)
    }

    open spec fn spec_found(&self, cord: Cord, found: Cord) -> bool {
        is_part(self.spec_bounds(), cord, found)
    }

    fn get(self, cord: &Cord) -> (r: Option<Cord>) {
        cord.try_slice(self)
    }
}

impl IndexSealed for RangeTo<usize> {

}

impl CordIndex for RangeTo<usize> {
    type Output = Cord;

    open spec fn spec_usable(&self) -> bool {
        self.spec_intact()
    }

    open spec fn spec_valid(&self, len: int) -> bool {
        within(self.spec_bounds(), len)
    }

    open spec fn spec_found(&self, cord: Cord, found: Cord) -> bool {
        is_part(self.spec_bounds(), cord, found)
    }

    fn get(self, cord: &Cord) -> (r: Option<Cord>) {
        cord.try_slice(self)
    }
}

impl IndexSealed for RangeToInclusive<usize> {

}

impl CordIndex for RangeToInclusive<usize> {
    type Output = Cord;

    open spec fn spec_usable(&self) -> bool {
        self.spec_intact()
    }

    open spec fn spec_valid(&self, len: int) -> bool {
        within(self.spec_bounds(), len)
    }

    open spec fn spec_found(&self, cord: Cord, found: Cord) -> bool {
        is_part(self.spec_bounds(), cord, found)
    }

    fn get(self, cord: &Cord) -> (r: Option<Cord>) {
        cord.try_slice(self)
    }
}

impl IndexSealed for RangeFull {

}

impl CordIndex for RangeFull {
    type Output = Cord;

    open spec fn spec_usable(&self) -> bool {
        self.spec_intact()
    }

    open spec fn spec_valid(&self, len: int) -> bool {
        within(self.spec_bounds(), len)
    }

    open spec fn spec_found(&self, cord: Cord, found: Cord) -> bool {
        is_part(self.spec_bounds(), cord, found)
    }

    fn get(self, cord: &Cord) -> (r: Option<Cord>) {
        cord.try_slice(self)
    }
}

impl IndexSealed for Bounds {

}

impl CordIndex for Bounds {
    type Output = Cord;

    open spec fn spec_usable(&self) -> bool {
        self.spec_intact()
    }

    open spec fn spec_valid(&self, len: int) -> bool {
        within(self.spec_bounds(), len)
    }

    open spec fn spec_found(&self, cord: Cord, found: Cord) -> bool {
        is_part(self.spec_bounds(), cord, found)
    }

    fn get(self, cord: &Cord) -> (r: Option<Cord>) {
        cord.try_slice(self)
    }
}

impl Cord {
    /// The bytes in `range`, which lies inside the cord.
    pub fn slice<R: CordRange>(&self, range: R) -> (sub: Cord)
        requires
            range.spec_intact(),
            within(range.spec_bounds(), self@.len() as int),
        ensures
            is_part(range.spec_bounds(), *self, sub),
    {
        let (pos, size) = resolve_range(range, self.len());
        self.subcord(pos, size)
    }

    /// The bytes in `range`, if it lies inside the cord.
    pub fn try_slice<R: CordRange>(&self, range: R) -> (sub: Option<Cord>)
        requires
            range.spec_intact(),
        ensures
            sub is Some <==> within(range.spec_bounds(), self@.len() as int),
            sub matches Some(sub) ==> is_part(range.spec_bounds(), *self, sub),
    {
        match try_resolve_range(range, self.len()) {
            Some((pos, size)) => Some(self.subcord(pos, size)),
            None => None,
        }
    }

    /// The byte or sub-cord at `index`, if it lies inside the cord.
    pub fn get<I: CordIndex>(&self, index: I) -> (r: Option<I::Output>)
        requires
            index.spec_usable(),
        ensures
            r is Some <==> index.spec_valid(self@.len() as int),
            r matches Some(found) ==> index.spec_found(*self, found),
    {
        index.get(self)
    }
}

} // verus!
