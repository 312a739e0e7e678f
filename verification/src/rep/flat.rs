//! Flat blocks: an owned byte payload allocated at one of a fixed set of sizes.
//!
//! The size class of a block is kept in a one byte `tag`. The classes are:
//!
//! * 8 byte steps for allocation sizes in `[32, 512]`
//! * 64 byte steps for sizes in `(512, 8 KiB]`
//! * 4 KiB steps for sizes in `(8 KiB, 256 KiB]`
//!
//! A block accounts for `FLAT_OVERHEAD` header bytes in front of its payload.

use vstd::prelude::*;
use vstd::slice::slice_subrange;

verus! {

/// Smallest tag of a flat block.
pub const FLAT: u8 = 6;
/// Largest tag of a flat block.
pub const MAX_FLAT_TAG: u8 = 248;

/// Size of the header preceding the payload of a flat, as on 64-bit machines:
/// a length, a reference count and a tag.
pub const FLAT_OVERHEAD: usize = 13;
/// Smallest flat allocation size.
pub const MIN_FLAT_SIZE: usize = 32;
/// Largest flat allocation size for "default" flats.
pub const MAX_FLAT_SIZE: usize = 4096;
/// Largest payload of a default flat.
pub const MAX_FLAT_LENGTH: usize = 4083;
/// Smallest payload of a flat.
pub const MIN_FLAT_LENGTH: usize = 19;
/// Largest flat allocation size for explicitly "large" flats.
pub const MAX_LARGE_FLAT_SIZE: usize = 262144;
/// Largest payload of a large flat.
pub const MAX_LARGE_FLAT_LENGTH: usize = 262131;

/// The allocation size that the tag `tag` stands for.
pub open spec fn size_of_tag(tag: int) -> int {
    if tag <= 66 {
        (tag - 2) * 8
    } else if tag <= 186 {
        512 + (tag - 66) * 64
    } else {
        8192 + (tag - 186) * 4096
    }
}

/// The largest tag whose allocation size does not exceed `size`.
pub open spec fn tag_of_size(size: int) -> int {
    if size <= 512 {
        2 + size / 8
    } else if size <= 8192 {
        66 + (size - 512) / 64
    } else {
        186 + (size - 8192) / 4096
    }
}

/// The distance between neighbouring allocation sizes around `size`.
pub open spec fn size_step(size: int) -> int {
    if size <= 512 {
        8
    } else if size <= 8192 {
        64
    } else {
        4096
    }
}

/// The least multiple of `m` that is not below `n`.
pub open spec fn rounded_up(n: int, m: int) -> int {
    (n + m - 1) / m * m
}

/// The least allocation size of a tag that is not below `size`.
pub open spec fn size_class(size: int) -> int {
    rounded_up(size, size_step(size))
}

/// The tags of flat blocks.
pub open spec fn is_flat_tag(tag: u8) -> bool {
    FLAT <= tag <= MAX_FLAT_TAG
}

/// The payload capacity of a block with tag `tag`.
pub open spec fn capacity_of_tag(tag: u8) -> int {
    size_of_tag(tag as int) - FLAT_OVERHEAD
}

/// The payload that a new block is asked to hold: `len`, within the limits of
/// blocks of at most `max_size` bytes.
pub open spec fn clamped_payload(len: int, max_size: int) -> int {
    if len <= MIN_FLAT_LENGTH {
        MIN_FLAT_LENGTH as int
    } else if len > max_size - FLAT_OVERHEAD {
        max_size - FLAT_OVERHEAD
    } else {
        len
    }
}

/// The payload capacity of a new block made for `len` bytes, where no block
/// exceeds `max_size` bytes.
pub open spec fn capacity_for(len: int, max_size: int) -> int {
    size_class(clamped_payload(len, max_size) + FLAT_OVERHEAD) - FLAT_OVERHEAD
}

/// Converts an allocation size to its tag, rounding down to a representable size.
pub fn allocated_size_to_tag_unchecked(size: usize) -> (tag: u8)
    requires
        size <= MAX_LARGE_FLAT_SIZE,
    ensures
        tag == tag_of_size(size as int),
{
    let tag: usize = if size <= 512 {
        2 + size / 8
    } else if size <= 8192 {
        66 + size / 64 - 8
    } else {
        186 + size / 4096 - 2
    };
    tag as u8
}

/// Converts a tag to the corresponding allocated size.
pub fn tag_to_allocated_size(tag: u8) -> (size: usize)
    requires
        tag >= 2,
    ensures
        size == size_of_tag(tag as int),
{
    let tag: usize = tag as usize;
    if tag <= 66 {
        (tag - 2) * 8
    } else if tag <= 186 {
        512 + (tag - 66) * 64
    } else {
        8192 + (tag - 186) * 4096
    }
}

/// Rounds `n` up to the nearest multiple of `m`.
pub fn round_up(n: usize, m: usize) -> (r: usize)
    requires
        m > 0,
        n + m - 1 <= usize::MAX,
    ensures
        r == rounded_up(n as int, m as int),
        r % m == 0,
        n <= r < n + m,
{
    proof {
        lemma_rounded_up(n as int, m as int);
    }
    (n + (m - 1)) / m * m
}

/// Rounds `size` up to the nearest size that can be expressed exactly as a tag.
pub fn round_up_for_tag(size: usize) -> (r: usize)
    requires
        size + 4095 <= usize::MAX,
    ensures
        r == size_class(size as int),
{
    let step: usize = if size <= 512 {
        8
    } else if size <= 8192 {
        64
    } else {
        4096
    };
    round_up(size, step)
}

/// Converts an allocated size to a tag, rounding down if the size is not
/// exactly representable.
pub fn allocated_size_to_tag(size: usize) -> (tag: u8)
    requires
        size <= MAX_LARGE_FLAT_SIZE,
    ensures
        tag == tag_of_size(size as int),
{
    allocated_size_to_tag_unchecked(size)
}

/// Converts a tag to the payload capacity it encodes.
pub fn tag_to_length(tag: u8) -> (len: usize)
    requires
        is_flat_tag(tag),
    ensures
        len == capacity_of_tag(tag),
{
    tag_to_allocated_size(tag) - FLAT_OVERHEAD
}

/// `rounded_up` gives a multiple of `m` in `[n, n + m)`.
pub proof fn lemma_rounded_up(n: int, m: int)
    requires
        m > 0,
    ensures
        rounded_up(n, m) % m == 0,
        n <= rounded_up(n, m) < n + m,
{
    let q = (n + m - 1) / m;
    assert(rounded_up(n, m) % m == 0) by {
        vstd::arithmetic::div_mod::lemma_mod_multiples_basic(q, m);
    }
    vstd::arithmetic::div_mod::lemma_fundamental_div_mod(n + m - 1, m);
    assert(q * m == m * q) by (nonlinear_arith);
}

/// A tag and the size it stands for determine each other.
pub proof fn law_tag_roundtrip(tag: u8)
    requires
        is_flat_tag(tag),
    ensures
        tag_of_size(size_of_tag(tag as int)) == tag,
        size_class(size_of_tag(tag as int)) == size_of_tag(tag as int),
        MIN_FLAT_SIZE <= size_of_tag(tag as int) <= MAX_LARGE_FLAT_SIZE,
{
}

/// Rounding up for a tag gives the least size of any tag that holds `size` bytes.
pub proof fn law_size_class_least(size: int)
    requires
        MIN_FLAT_SIZE <= size <= MAX_LARGE_FLAT_SIZE,
    ensures
        size_of_tag(tag_of_size(size_class(size))) == size_class(size),
        size <= size_class(size) <= MAX_LARGE_FLAT_SIZE,
        FLAT <= tag_of_size(size_class(size)) <= MAX_FLAT_TAG,
        forall|tag: int|
            FLAT <= tag <= MAX_FLAT_TAG && #[trigger] size_of_tag(tag) >= size ==> size_class(size)
                <= size_of_tag(tag),
{
}

/// Larger tags stand for larger sizes.
pub proof fn law_tag_order(a: u8, b: u8)
    requires
        is_flat_tag(a),
        is_flat_tag(b),
    ensures
        a < b <==> size_of_tag(a as int) < size_of_tag(b as int),
{
}

/// A new block holds the bytes it was asked for, up to the largest block.
pub proof fn lemma_capacity_for(len: int, max_size: int)
    requires
        len >= 0,
        max_size == MAX_FLAT_SIZE || max_size == MAX_LARGE_FLAT_SIZE,
    ensures
        MIN_FLAT_LENGTH <= capacity_for(len, max_size) <= max_size - FLAT_OVERHEAD,
        len <= max_size - FLAT_OVERHEAD ==> len <= capacity_for(len, max_size),
        len > max_size - FLAT_OVERHEAD ==> capacity_for(len, max_size) == max_size - FLAT_OVERHEAD,
        FLAT <= tag_of_size(size_class(clamped_payload(len, max_size) + FLAT_OVERHEAD))
            <= MAX_FLAT_TAG,
        size_of_tag(tag_of_size(size_class(clamped_payload(len, max_size) + FLAT_OVERHEAD)))
            == size_class(clamped_payload(len, max_size) + FLAT_OVERHEAD),
{
    law_size_class_least(clamped_payload(len, max_size) + FLAT_OVERHEAD);
}

/// A flat block: a payload and the tag of its size class.
pub struct CordRepFlat {
    /// The size class.
    pub tag: u8,
    /// The payload.
    pub data: Vec<u8>,
}

impl CordRepFlat {
    /// The tag names a size class and the payload fits in it.
    pub open spec fn wf(self) -> bool {
        is_flat_tag(self.tag) && self.data@.len() <= capacity_of_tag(self.tag)
    }

    /// The payload capacity.
    pub open spec fn spec_capacity(self) -> int {
        capacity_of_tag(self.tag)
    }

    /// Makes an empty block with room for `len` bytes, within blocks of `max_size` bytes.
    fn new_impl(len: usize, max_size: usize) -> (flat: CordRepFlat)
        requires
            max_size == MAX_FLAT_SIZE || max_size == MAX_LARGE_FLAT_SIZE,
        ensures
            flat.wf(),
            flat.data@ == Seq::<u8>::empty(),
            flat.spec_capacity() == capacity_for(len as int, max_size as int),
    {
        let payload: usize = if len <= MIN_FLAT_LENGTH {
            MIN_FLAT_LENGTH
        } else if len > max_size - FLAT_OVERHEAD {
            max_size - FLAT_OVERHEAD
        } else {
            len
        };
        proof {
            lemma_capacity_for(len as int, max_size as int);
        }
        let size: usize = round_up_for_tag(payload + FLAT_OVERHEAD);
        let tag: u8 = allocated_size_to_tag(size);
        CordRepFlat { tag, data: Vec::with_capacity(size - FLAT_OVERHEAD) }
    }

    /// Makes an empty block with a capacity of at least `min(len, MAX_FLAT_LENGTH)`
    /// bytes (and at least `MIN_FLAT_LENGTH`).
    pub fn new(len: usize) -> (flat: CordRepFlat)
        ensures
            flat.wf(),
            flat.data@ == Seq::<u8>::empty(),
            flat.spec_capacity() == capacity_for(len as int, MAX_FLAT_SIZE as int),
    {
        Self::new_impl(len, MAX_FLAT_SIZE)
    }

    /// Like `new` but allows capacities up to `MAX_LARGE_FLAT_LENGTH`.
    pub fn new_large(len: usize) -> (flat: CordRepFlat)
        ensures
            flat.wf(),
            flat.data@ == Seq::<u8>::empty(),
            flat.spec_capacity() == capacity_for(len as int, MAX_LARGE_FLAT_SIZE as int),
    {
        Self::new_impl(len, MAX_LARGE_FLAT_SIZE)
    }

    /// Makes a block that holds `data`, with up to `extra` bytes of additional capacity.
    pub fn create(data: &[u8], extra: usize) -> (flat: CordRepFlat)
        requires
            data@.len() <= MAX_FLAT_LENGTH,
        ensures
            flat.wf(),
            flat.data@ == data@,
            flat.spec_capacity() == capacity_for(
                data@.len() + if extra <= MAX_FLAT_LENGTH { extra as int } else { MAX_FLAT_LENGTH as int },
                MAX_FLAT_SIZE as int,
            ),
    {
        let spare: usize = if extra <= MAX_FLAT_LENGTH { extra } else { MAX_FLAT_LENGTH };
        let mut flat = Self::new(data.len() + spare);
        proof {
            lemma_capacity_for(data@.len() + spare, MAX_FLAT_SIZE as int);
        }
        flat.data.extend_from_slice(data);
        assert(flat.data@ =~= data@);
        flat
    }

    /// A block of the same size class with a copy of the bytes.
    pub fn copy(&self) -> (copy: CordRepFlat)
        ensures
            copy.tag == self.tag,
            copy.data@ == self.data@,
    {
        let mut data: Vec<u8> = Vec::with_capacity(self.data.len());
        data.extend_from_slice(self.data.as_slice());
        assert(data@ =~= self.data@);
        CordRepFlat { tag: self.tag, data }
    }

    /// The number of bytes held.
    pub fn len(&self) -> (len: usize)
        ensures
            len == self.data@.len(),
    {
        self.data.len()
    }

    /// The payload capacity.
    pub fn capacity(&self) -> (capacity: usize)
        requires
            self.wf(),
        ensures
            capacity == self.spec_capacity(),
    {
        tag_to_length(self.tag)
    }

    /// The accounted allocation size, header and payload.
    pub fn allocated_size(&self) -> (size: usize)
        requires
            self.wf(),
        ensures
            size == size_of_tag(self.tag as int),
            size == self.spec_capacity() + FLAT_OVERHEAD,
    {
        tag_to_allocated_size(self.tag)
    }

    /// Appends as much of `data` as fits, and returns the number of bytes appended.
    pub fn fill(&mut self, data: &[u8]) -> (n: usize)
        requires
            old(self).wf(),
        ensures
            n as int == if data@.len() <= old(self).spec_capacity() - old(self).data@.len() {
                data@.len() as int
            } else {
                old(self).spec_capacity() - old(self).data@.len()
            },
            final(self).wf(),
            final(self).tag == old(self).tag,
            final(self).data@ == old(self).data@ + data@.take(n as int),
    {
        let room: usize = self.capacity() - self.len();
        let n: usize = if data.len() <= room {
            data.len()
        } else {
            room
        };
        let part = slice_subrange(data, 0, n);
        self.data.extend_from_slice(part);
        proof {
            assert(part@ =~= data@.take(n as int));
            assert(self.data@ =~= old(self).data@ + part@);
        }
        n
    }

    /// The bytes held.
    pub fn data(&self) -> (data: &[u8])
        ensures
            data@ == self.data@,
    {
        self.data.as_slice()
    }
}

} // verus!
