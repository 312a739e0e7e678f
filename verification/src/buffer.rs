//! Buffers: writable storage that becomes part of a cord without copying.

use crate::inline_data::InlineBytes;
use crate::order::{compare_slices, equal_slices, lex};
use crate::rep::flat::{
    capacity_for, lemma_capacity_for, CordRepFlat, FLAT_OVERHEAD, MAX_FLAT_SIZE,
    MAX_LARGE_FLAT_SIZE, MIN_FLAT_LENGTH,
};
use crate::rep::MAX_INLINE;
use core::cmp::Ordering;
use core::mem::swap;
use vstd::arithmetic::power2::is_pow2;
use vstd::prelude::*;
use vstd::slice::slice_subrange;

verus! {

/// How much a block may be rounded up beyond the requested capacity.
pub const MAX_PAGE_SLOP: usize = 128;

/// What a buffer holds: a few bytes in place, or a flat block.
pub enum BufferRep {
    /// Bytes in place.
    Short(InlineBytes),
    /// A flat block.
    Flat(Box<CordRepFlat>),
}

/// `<Vec<u8> as IndexMut<RangeFull>>::index_mut`: all bytes of `data` as a
/// slice. What is written to the slice is written to `data`, and the length
/// of a slice does not change. Taking the whole of a vector does not panic.
#[verifier::external_body]
fn vec_slice_mut(data: &mut Vec<u8>) -> (slice: &mut [u8])
    ensures
        slice@ == old(data)@,
        final(data)@ == final(slice)@,
        final(slice)@.len() == old(data)@.len(),
    no_unwind
{
    &mut data[..]
}

/// `<[u8; 15] as IndexMut<RangeTo<usize>>>::index_mut`: the first `n` bytes of
/// the array as a slice. What is written to the slice is written there, the
/// other bytes stay, and the length of a slice does not change. A range inside
/// the array does not panic.
#[verifier::external_body]
fn array_slice_mut(bytes: &mut [u8; 15], n: usize) -> (slice: &mut [u8])
    requires
        n <= 15,
    ensures
        slice@ == old(bytes)@.take(n as int),
        final(bytes)@ == final(slice)@ + old(bytes)@.skip(n as int),
        final(slice)@.len() == n,
    no_unwind
{
    &mut bytes[..n]
}

impl BufferRep {
    /// The `len` bytes held, for writing.
    fn bytes_mut(&mut self, len: usize) -> (data: &mut [u8])
        requires
            old(self).wf(),
            len == old(self).bytes().len(),
        ensures
            data@ == old(self).bytes(),
            final(self).bytes() == final(data)@,
            final(data)@.len() == len,
            final(self).wf(),
            final(self).room() == old(self).room(),
            *final(self) is Short == *old(self) is Short,
        no_unwind
    {
        match self {
            BufferRep::Short(short) => array_slice_mut(&mut short.bytes, len),
            BufferRep::Flat(flat) => vec_slice_mut(&mut flat.data),
        }
    }

    /// The parts are valid.
    pub open spec fn wf(self) -> bool {
        match self {
            BufferRep::Short(short) => short.wf(),
            BufferRep::Flat(flat) => flat.wf(),
        }
    }

    /// The bytes held.
    pub open spec fn bytes(self) -> Seq<u8> {
        match self {
            BufferRep::Short(short) => short.view(),
            BufferRep::Flat(flat) => flat.data@,
        }
    }

    /// The number of bytes that can be held.
    pub open spec fn room(self) -> int {
        match self {
            BufferRep::Short(_) => MAX_INLINE as int,
            BufferRep::Flat(flat) => flat.spec_capacity(),
        }
    }

    /// Appends `src`, which fits.
    fn put(&mut self, src: &[u8])
        requires
            old(self).wf(),
            old(self).bytes().len() + src@.len() <= old(self).room(),
        ensures
            final(self).wf(),
            final(self).bytes() == old(self).bytes() + src@,
            final(self).room() == old(self).room(),
            *final(self) is Short == *old(self) is Short,
    {
        match self {
            BufferRep::Short(short) => {
                short.push(src);
            },
            BufferRep::Flat(flat) => {
                let ghost held = flat.data@;
                flat.data.extend_from_slice(src);
                assert(flat.data@ =~= held + src@);
            },
        }
    }

    /// Keeps the first `len` bytes.
    fn shorten(&mut self, len: usize)
        requires
            old(self).wf(),
            len <= old(self).bytes().len(),
        ensures
            final(self).wf(),
            final(self).bytes() == old(self).bytes().take(len as int),
            final(self).room() == old(self).room(),
            *final(self) is Short == *old(self) is Short,
    {
        match self {
            BufferRep::Short(short) => {
                short.truncate(len);
            },
            BufferRep::Flat(flat) => {
                let ghost held = flat.data@;
                flat.data.truncate(len);
                assert(flat.data@ =~= held.take(len as int));
            },
        }
    }
}

/// The largest power of two that is not above `n`.
pub open spec fn floor_pow2(n: int) -> int
    decreases n,
{
    if n <= 1 {
        1
    } else {
        2 * floor_pow2(n / 2)
    }
}

/// The least power of two that is not below `n`.
pub open spec fn ceil_pow2(n: int) -> int {
    if floor_pow2(n) == n {
        n
    } else {
        2 * floor_pow2(n)
    }
}

/// `floor_pow2` is a power of two, and the largest one that is not above `n`.
pub proof fn lemma_floor_pow2(n: int)
    requires
        n >= 1,
    ensures
        is_pow2(floor_pow2(n)),
        floor_pow2(n) <= n < 2 * floor_pow2(n),
    decreases n,
{
    reveal_with_fuel(is_pow2, 2);
    if n > 1 {
        lemma_floor_pow2(n / 2);
        let half = floor_pow2(n / 2);
        assert((2 * half) / 2 == half);
        assert((2 * half) % 2 == 0);
    }
}

/// The size of the block that is allocated for `capacity` bytes with blocks of
/// at most `block_size` bytes, where that is no request for a buffer with the
/// default limit: the whole block where `capacity` comes close to it, and
/// otherwise a power of two.
pub open spec fn block_alloc(capacity: int, block_size: int) -> int {
    let max = CordBuffer::MAX_BLOCK_SIZE as int;
    let wanted = if capacity < max { capacity } else { max };
    let block = if block_size < max { block_size } else { max };
    if wanted + FLAT_OVERHEAD >= block {
        block
    } else if FLAT_OVERHEAD <= ceil_pow2(wanted) - wanted <= MAX_PAGE_SLOP + FLAT_OVERHEAD {
        ceil_pow2(wanted)
    } else {
        floor_pow2(wanted)
    }
}

/// A request for `capacity` bytes that is within the default limit, and falls
/// short of a block of `block_size` bytes: by the overhead of a block, unless
/// the bytes can be held in place.
pub open spec fn within_default(capacity: int, block_size: int) -> bool {
    &&& capacity <= CordBuffer::DEFAULT_MAX_CAPACITY
    &&& capacity < block_size
    &&& capacity <= MAX_INLINE || capacity + FLAT_OVERHEAD < block_size
}

/// The capacity of a buffer made for `capacity` bytes with blocks of at most
/// `block_size` bytes: that of a buffer with the default limit, where the
/// request is within it and falls short of the block.
pub open spec fn block_capacity(capacity: int, block_size: int) -> int {
    if within_default(capacity, block_size) {
        default_capacity(capacity)
    } else {
        capacity_for(block_alloc(capacity, block_size) - FLAT_OVERHEAD, MAX_LARGE_FLAT_SIZE as int)
    }
}

/// The capacity of a buffer made for `capacity` bytes with the default limit.
pub open spec fn default_capacity(capacity: int) -> int {
    if capacity <= MAX_INLINE {
        MAX_INLINE as int
    } else {
        capacity_for(capacity, MAX_FLAT_SIZE as int)
    }
}

/// The largest payload of a block of `block_size` bytes.
pub open spec fn block_payload(block_size: int) -> int {
    let limit = if block_size < CordBuffer::MAX_BLOCK_SIZE {
        block_size
    } else {
        CordBuffer::MAX_BLOCK_SIZE as int
    };
    if limit - FLAT_OVERHEAD < MIN_FLAT_LENGTH {
        MIN_FLAT_LENGTH as int
    } else {
        limit - FLAT_OVERHEAD
    }
}

/// A block size is a power of two that leaves room for a payload.
pub open spec fn valid_block_size(block_size: usize) -> bool {
    is_pow2(block_size as int) && block_size > FLAT_OVERHEAD
}

/// A request that comes close to a block gets the largest payload of the
/// block, unless it falls short of the block and can be held in place.
pub proof fn law_whole_block(capacity: usize, block_size: usize)
    requires
        valid_block_size(block_size),
        capacity + FLAT_OVERHEAD >= block_size || capacity >= CordBuffer::MAX_BLOCK_SIZE,
        capacity > MAX_INLINE || capacity >= block_size,
    ensures
        block_capacity(capacity as int, block_size as int) == block_payload(block_size as int),
{
    reveal_with_fuel(is_pow2, 18);
}

/// The largest power of two that is not above `n`.
fn floor_power_of_two(n: usize) -> (p: usize)
    requires
        1 <= n <= CordBuffer::MAX_BLOCK_SIZE,
    ensures
        p == floor_pow2(n as int),
        p <= n < 2 * p,
{
    let mut p: usize = 1;
    let mut left: usize = n;
    while left > 1
        invariant
            1 <= left,
            n <= CordBuffer::MAX_BLOCK_SIZE,
            p * left <= n,
            p * floor_pow2(left as int) == floor_pow2(n as int),
        decreases left,
    {
        proof {
            let half = left as int / 2;
            let f = floor_pow2(half);
            assert(p * (2 * f) == (p * 2) * f) by (nonlinear_arith);
            assert((p * 2) * half <= p * left) by (nonlinear_arith)
                requires
                    2 * half <= left,
                    p >= 0,
            ;
            assert(p * 2 <= p * left) by (nonlinear_arith)
                requires
                    2 <= left,
                    p >= 0,
            ;
        }
        p = p * 2;
        left = left / 2;
    }
    proof {
        lemma_floor_pow2(n as int);
        assert(p * 1 == p) by (nonlinear_arith);
    }
    p
}

/// A buffer of bytes that can be added to a cord without copying.
///
/// A buffer has a capacity and a length; the first bytes up to the length are data.
pub struct CordBuffer {
    rep: BufferRep,
}

impl CordBuffer {
    /// Capacity limit of buffers made by `with_capacity`.
    pub const DEFAULT_MAX_CAPACITY: usize = 4083;
    /// Largest block size that `with_capacity_and_block_size` uses.
    pub const MAX_BLOCK_SIZE: usize = 65536;

    #[verifier::type_invariant]
    spec fn inv(self) -> bool {
        self.rep.wf()
    }

    /// The bytes held.
    pub closed spec fn view(self) -> Seq<u8> {
        self.rep.bytes()
    }

    /// The number of bytes that can be held.
    pub closed spec fn spec_capacity(self) -> int {
        self.rep.room()
    }

    /// Whether the bytes are held in place rather than in a flat block.
    pub closed spec fn spec_is_short(self) -> bool {
        self.rep is Short
    }

    /// The flat block, where the bytes are not held in place.
    pub closed spec fn block(self) -> CordRepFlat {
        *self.rep->Flat_0
    }

    /// The flat block holds the bytes of the buffer, and has its capacity.
    pub proof fn law_block(self)
        requires
            !self.spec_is_short(),
        ensures
            self.block().data@ == self@,
            self.block().spec_capacity() == self.spec_capacity(),
    {
    }

    /// An empty buffer with a small capacity, held in place.
    pub fn new() -> (buffer: CordBuffer)
        ensures
            buffer@ == Seq::<u8>::empty(),
            buffer.spec_capacity() == MAX_INLINE,
            buffer.spec_is_short(),
    {
        CordBuffer { rep: BufferRep::Short(InlineBytes::new()) }
    }

    /// The largest payload of a buffer made by `with_capacity_and_block_size` for `block_size`.
    pub fn max_capacity_for(block_size: usize) -> (payload: usize)
        requires
            valid_block_size(block_size),
        ensures
            payload == block_payload(block_size as int),
    {
        let limit: usize = if block_size < Self::MAX_BLOCK_SIZE {
            block_size
        } else {
            Self::MAX_BLOCK_SIZE
        };
        let payload: usize = limit - FLAT_OVERHEAD;
        if payload < MIN_FLAT_LENGTH {
            MIN_FLAT_LENGTH
        } else {
            payload
        }
    }

    /// An empty buffer for `capacity` bytes, or `DEFAULT_MAX_CAPACITY` if that is less.
    pub fn with_capacity(capacity: usize) -> (buffer: CordBuffer)
        ensures
            buffer@ == Seq::<u8>::empty(),
            buffer.spec_capacity() == default_capacity(capacity as int),
            capacity <= Self::DEFAULT_MAX_CAPACITY ==> buffer.spec_capacity() >= capacity,
            buffer.spec_is_short() == (capacity <= MAX_INLINE),
            MAX_INLINE <= buffer.spec_capacity() <= Self::DEFAULT_MAX_CAPACITY,
    {
        if capacity > MAX_INLINE {
            proof {
                lemma_capacity_for(capacity as int, MAX_FLAT_SIZE as int);
            }
            return CordBuffer { rep: BufferRep::Flat(Box::new(CordRepFlat::new(capacity))) };
        }
        Self::new()
    }

    /// An empty buffer for `capacity` bytes in a block of at most `block_size`
    /// bytes. A request within the default limit that falls short of the block
    /// is served like `with_capacity` does; a larger one that falls short of it
    /// is rounded to a power of two.
    pub fn with_capacity_and_block_size(capacity: usize, block_size: usize) -> (buffer: CordBuffer)
        requires
            valid_block_size(block_size),
        ensures
            buffer@ == Seq::<u8>::empty(),
            buffer.spec_capacity() == block_capacity(capacity as int, block_size as int),
            buffer.spec_is_short() == (within_default(capacity as int, block_size as int) && capacity <= MAX_INLINE),
            MAX_INLINE <= buffer.spec_capacity(),
    {
        if capacity <= Self::DEFAULT_MAX_CAPACITY && capacity < block_size && (capacity <= MAX_INLINE || capacity
            + FLAT_OVERHEAD < block_size) {
            return Self::with_capacity(capacity);
        }
        let wanted: usize = if capacity < Self::MAX_BLOCK_SIZE {
            capacity
        } else {
            Self::MAX_BLOCK_SIZE
        };
        let block: usize = if block_size < Self::MAX_BLOCK_SIZE {
            block_size
        } else {
            Self::MAX_BLOCK_SIZE
        };
        let size: usize = if wanted + FLAT_OVERHEAD >= block {
            block
        } else {
            let down: usize = floor_power_of_two(wanted);
            let up: usize = if down == wanted {
                wanted
            } else {
                2 * down
            };
            let slop: usize = up - wanted;
            if FLAT_OVERHEAD <= slop && slop <= MAX_PAGE_SLOP + FLAT_OVERHEAD {
                up
            } else {
                down
            }
        };
        proof {
            lemma_capacity_for(size - FLAT_OVERHEAD, MAX_LARGE_FLAT_SIZE as int);
        }
        CordBuffer { rep: BufferRep::Flat(Box::new(CordRepFlat::new_large(size - FLAT_OVERHEAD))) }
    }

    /// Makes a buffer of the flat block `flat`.
    pub(crate) fn from_flat(flat: CordRepFlat) -> (buffer: CordBuffer)
        requires
            flat.wf(),
        ensures
            buffer@ == flat.data@,
            buffer.spec_capacity() == flat.spec_capacity(),
            !buffer.spec_is_short(),
            buffer.block() == flat,
    {
        CordBuffer { rep: BufferRep::Flat(Box::new(flat)) }
    }

    /// Takes the buffer apart.
    pub(crate) fn consume(self) -> (rep: BufferRep)
        ensures
            rep.wf(),
            rep.bytes() == self@,
            rep.room() == self.spec_capacity(),
            rep is Short == self.spec_is_short(),
            rep matches BufferRep::Flat(flat) ==> *flat == self.block(),
    {
        proof {
            use_type_invariant(&self);
        }
        self.rep
    }

    /// Takes the contents out, and leaves an empty buffer.
    fn take_rep(&mut self) -> (rep: BufferRep)
        ensures
            rep == old(self).rep,
            rep.wf(),
    {
        let mut taken = CordBuffer::new();
        swap(self, &mut taken);
        proof {
            use_type_invariant(&taken);
        }
        taken.rep
    }

    /// Whether the bytes are held in place rather than in a flat block.
    pub fn is_short(&self) -> (r: bool)
        ensures
            r == self.spec_is_short(),
    {
        matches!(self.rep, BufferRep::Short(_))
    }

    /// The number of bytes held.
    pub fn len(&self) -> (len: usize)
        ensures
            len == self@.len(),
            len <= self.spec_capacity(),
    {
        proof {
            use_type_invariant(self);
        }
        match &self.rep {
            BufferRep::Short(short) => short.size(),
            BufferRep::Flat(flat) => flat.len(),
        }
    }

    /// Whether no bytes are held.
    pub fn is_empty(&self) -> (r: bool)
        ensures
            r == (self@.len() == 0),
    {
        self.len() == 0
    }

    /// The number of bytes that can be held.
    pub fn capacity(&self) -> (capacity: usize)
        ensures
            capacity == self.spec_capacity(),
            capacity >= MAX_INLINE,
            self.spec_is_short() ==> capacity == MAX_INLINE,
            capacity >= self@.len(),
    {
        proof {
            use_type_invariant(self);
        }
        match &self.rep {
            BufferRep::Short(_) => MAX_INLINE,
            BufferRep::Flat(flat) => flat.capacity(),
        }
    }

    /// The number of bytes that can still be added.
    pub fn available(&self) -> (n: usize)
        ensures
            n == self.spec_capacity() - self@.len(),
    {
        self.capacity() - self.len()
    }

    /// The bytes held.
    pub fn as_slice(&self) -> (data: &[u8])
        ensures
            data@ == self@,
    {
        proof {
            use_type_invariant(self);
        }
        match &self.rep {
            BufferRep::Short(short) => short.as_slice(),
            BufferRep::Flat(flat) => flat.data(),
        }
    }

    /// The bytes held, for writing. The length stays as it is.
    pub fn as_mut_slice(&mut self) -> (data: &mut [u8])
        ensures
            data@ == old(self)@,
            final(self)@ == final(data)@,
            final(data)@.len() == old(self)@.len(),
            final(self).spec_capacity() == old(self).spec_capacity(),
            final(self).spec_is_short() == old(self).spec_is_short(),
    {
        let len: usize = self.len();
        proof {
            use_type_invariant(&*self);
        }
        self.rep.bytes_mut(len)
    }

    /// Appends `src`, which fits.
    pub fn put_slice(&mut self, src: &[u8])
        requires
            old(self)@.len() + src@.len() <= old(self).spec_capacity(),
        ensures
            final(self)@ == old(self)@ + src@,
            final(self).spec_capacity() == old(self).spec_capacity(),
            final(self).spec_is_short() == old(self).spec_is_short(),
    {
        let mut rep = self.take_rep();
        rep.put(src);
        self.rep = rep;
    }

    /// Appends as many bytes of `src` as fit, and returns their number.
    pub fn put_slice_partial(&mut self, src: &[u8]) -> (n: usize)
        ensures
            n as int == if src@.len() <= old(self).spec_capacity() - old(self)@.len() {
                src@.len() as int
            } else {
                old(self).spec_capacity() - old(self)@.len()
            },
            final(self)@ == old(self)@ + src@.take(n as int),
            final(self).spec_capacity() == old(self).spec_capacity(),
            final(self).spec_is_short() == old(self).spec_is_short(),
    {
        let available: usize = self.available();
        let n: usize = if src.len() <= available {
            src.len()
        } else {
            available
        };
        let part = slice_subrange(src, 0, n);
        assert(part@ =~= src@.take(n as int));
        self.put_slice(part);
        n
    }

    /// Keeps the first `len` bytes. Has no effect where there are no more.
    pub fn truncate(&mut self, len: usize)
        ensures
            final(self)@ == if len <= old(self)@.len() {
                old(self)@.take(len as int)
            } else {
                old(self)@
            },
            final(self).spec_capacity() == old(self).spec_capacity(),
            final(self).spec_is_short() == old(self).spec_is_short(),
    {
        let current: usize = self.len();
        if len >= current {
            assert(self@.take(current as int) =~= self@);
            return;
        }
        let mut rep = self.take_rep();
        rep.shorten(len);
        self.rep = rep;
    }

    /// Drops all bytes, but not the capacity.
    pub fn clear(&mut self)
        ensures
            final(self)@ == Seq::<u8>::empty(),
            final(self).spec_capacity() == old(self).spec_capacity(),
            final(self).spec_is_short() == old(self).spec_is_short(),
    {
        self.truncate(0);
        assert(self@ =~= Seq::<u8>::empty());
    }
}

impl Default for CordBuffer {
    fn default() -> (buffer: CordBuffer)
        ensures
            buffer@ == Seq::<u8>::empty(),
            buffer.spec_capacity() == MAX_INLINE,
    {
        CordBuffer::new()
    }
}

impl Clone for CordBuffer {
    /// An independent buffer with the same contents and the same capacity.
    fn clone(&self) -> (copy: CordBuffer)
        ensures
            copy@ == self@,
            copy.spec_capacity() == self.spec_capacity(),
            copy.spec_is_short() == self.spec_is_short(),
    {
        proof {
            use_type_invariant(self);
        }
        match &self.rep {
            BufferRep::Short(short) => CordBuffer { rep: BufferRep::Short(*short) },
            BufferRep::Flat(flat) => {
                let capacity: usize = flat.capacity();
                let mut buffer = CordBuffer { rep: BufferRep::Flat(Box::new(CordRepFlat::new_large(capacity))) };
                buffer.put_slice(flat.data());
                assert(buffer@ =~= self@);
                buffer
            },
        }
    }
}

impl PartialEq for CordBuffer {
    fn eq(&self, other: &CordBuffer) -> (r: bool) {
        equal_slices(self.as_slice(), other.as_slice())
    }
}

impl vstd::std_specs::cmp::PartialEqSpecImpl for CordBuffer {
    open spec fn obeys_eq_spec() -> bool {
        true
    }

    open spec fn eq_spec(&self, other: &CordBuffer) -> bool {
        self@ == other@
    }
}

impl Eq for CordBuffer {

}

impl PartialOrd for CordBuffer {
    fn partial_cmp(&self, other: &CordBuffer) -> (r: Option<Ordering>) {
        Some(compare_slices(self.as_slice(), other.as_slice()))
    }
}

impl vstd::std_specs::cmp::PartialOrdSpecImpl for CordBuffer {
    open spec fn obeys_partial_cmp_spec() -> bool {
        true
    }

    open spec fn partial_cmp_spec(&self, other: &CordBuffer) -> Option<Ordering> {
        Some(lex(self@, other@))
    }
}

} // verus!
