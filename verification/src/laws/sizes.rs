//! The sizes of blocks and buffers.

use crate::buffer::{
    block_alloc, block_capacity, block_payload, ceil_pow2, default_capacity, floor_pow2, lemma_floor_pow2,
    valid_block_size, within_default,
};
use crate::edit::fresh_capacity;
use crate::inline_data::{InlineBytes, InlineData};
use crate::rep::flat::{
    capacity_for, capacity_of_tag, clamped_payload, is_flat_tag, size_of_tag, tag_of_size,
};
use crate::rep::CordRep;
use vstd::arithmetic::power2::is_pow2;
use vstd::prelude::*;

verus! {

/// Of two powers of two, the larger is at least twice the smaller.
proof fn lemma_pow2_gap(p: int, q: int)
    requires
        is_pow2(p),
        is_pow2(q),
        p < q,
    ensures
        2 * p <= q,
    decreases p,
{
    reveal_with_fuel(is_pow2, 2);
    if p > 1 {
        lemma_pow2_gap(p / 2, q / 2);
    }
}

/// The tags stand for sizes in steps of 8 bytes from 32 to 512, of 64 bytes
/// to 8 KiB and of 4 KiB to 256 KiB. A tag holds its size without the header of
/// thirteen bytes.
pub proof fn law_tag_steps(tag: u8)
    requires
        is_flat_tag(tag),
    ensures
        6 <= tag <= 248,
        size_of_tag(6) == 32,
        size_of_tag(248) == 262144,
        tag < 248 ==> ({
            let size = size_of_tag(tag as int);
            size_of_tag(tag + 1) - size == if size < 512 {
                8int
            } else if size < 8192 {
                64int
            } else {
                4096int
            }
        }),
        capacity_of_tag(tag) == size_of_tag(tag as int) - 13,
{
}

/// The tag of a size is the largest one whose size does not exceed it.
pub proof fn law_tag_of_size(size: int)
    requires
        32 <= size <= 262144,
    ensures
        6 <= tag_of_size(size) <= 248,
        size_of_tag(tag_of_size(size)) <= size,
        tag_of_size(size) < 248 ==> size < size_of_tag(tag_of_size(size) + 1),
{
}

/// A request is raised to nineteen bytes and lowered to what the largest block holds.
pub proof fn law_clamped_payload(len: int, max_size: int)
    requires
        max_size >= 32,
    ensures
        len <= 19 ==> clamped_payload(len, max_size) == 19,
        19 <= len <= max_size - 13 ==> clamped_payload(len, max_size) == len,
        len > 19 && len > max_size - 13 ==> clamped_payload(len, max_size) == max_size - 13,
{
}

/// The kinds of nodes have tags of their own: 1 for windows, 3 for tree nodes,
/// 5 for external blocks, and from 6 on for flat blocks.
pub proof fn law_kind_tags(rep: CordRep)
    requires
        rep.wf(),
    ensures
        rep is Substring <==> rep.spec_tag() == 1,
        rep is Btree <==> rep.spec_tag() == 3,
        rep is External <==> rep.spec_tag() == 5,
        rep is Flat <==> 6 <= rep.spec_tag() <= 248,
        rep matches CordRep::Flat(flat) ==> rep.spec_tag() == flat.tag,
{
}

/// The bytes that are held in place are the first of fifteen, and those behind them are zero.
pub proof fn law_inline_bytes(inline: InlineBytes)
    requires
        inline.wf(),
    ensures
        inline.view().len() == inline.spec_size(),
        inline.view().len() <= 15,
        forall|i: int| 0 <= i < inline.view().len() ==> #[trigger] inline.view()[i] == inline.bytes@[i],
        forall|i: int| inline.view().len() <= i < 15 ==> #[trigger] inline.bytes@[i] == 0,
        InlineData::Inline(inline).view() == inline.view(),
{
}

/// A new buffer is made with the default limit where no block size is given.
pub proof fn law_fresh_capacity(block_size: usize, capacity: int)
    ensures
        fresh_capacity(0, capacity) == default_capacity(capacity),
        block_size > 0 ==> fresh_capacity(block_size, capacity) == block_capacity(capacity, block_size as int),
{
}

/// Block sizes are the powers of two above the header of thirteen bytes.
pub proof fn law_block_sizes(block_size: usize)
    ensures
        valid_block_size(block_size) <==> is_pow2(block_size as int) && block_size >= 16,
{
    reveal_with_fuel(is_pow2, 6);
}

/// A new block of up to 256 KiB is of the least size class that holds what it
/// was made for: in steps of 8 bytes up to 512, of 64 bytes up to 8 KiB and of
/// 4 KiB above. Thirteen bytes of it are the header.
pub proof fn law_new_block(len: int, max_size: int)
    requires
        len >= 0,
        max_size == 4096 || max_size == 262144,
    ensures
        ({
            let size = capacity_for(len, max_size) + 13;
            &&& len <= 19 ==> size == 32
            &&& 19 <= len <= max_size - 13 ==> len + 13 <= size
            &&& 19 <= len <= 499 ==> size % 8 == 0 && size < len + 13 + 8
            &&& 499 < len <= 8179 && len <= max_size - 13 ==> size % 64 == 0 && size < len + 13 + 64
            &&& 8179 < len <= max_size - 13 ==> size % 4096 == 0 && size < len + 13 + 4096
            &&& len > max_size - 13 ==> size == max_size
        }),
{
}

/// A larger request never gets a smaller block.
pub proof fn law_new_block_order(a: int, b: int, max_size: int)
    requires
        0 <= a <= b,
        max_size == 4096 || max_size == 262144,
    ensures
        capacity_for(a, max_size) <= capacity_for(b, max_size),
{
}

/// A buffer with the default limit holds what was asked for, and few bytes in
/// place; beyond 4083 bytes it holds 4083.
pub proof fn law_default_capacity(capacity: int)
    requires
        capacity >= 0,
    ensures
        capacity <= 15 ==> default_capacity(capacity) == 15,
        15 < capacity <= 19 ==> default_capacity(capacity) == 19,
        15 < capacity <= 499 ==> capacity <= default_capacity(capacity) && (default_capacity(capacity) + 13) % 8 == 0,
        19 < capacity <= 499 ==> default_capacity(capacity) < capacity + 8,
        499 < capacity <= 4083 ==> {
            &&& capacity <= default_capacity(capacity) < capacity + 64
            &&& (default_capacity(capacity) + 13) % 64 == 0
        },
        capacity > 4083 ==> default_capacity(capacity) == 4083,
{
}

/// `floor_pow2` and `ceil_pow2` are the powers of two next to a number: none
/// lies between them and it.
pub proof fn law_neighbouring_powers(n: int, p: int)
    requires
        n >= 1,
        is_pow2(p),
    ensures
        is_pow2(floor_pow2(n)),
        is_pow2(ceil_pow2(n)),
        floor_pow2(n) <= n <= ceil_pow2(n),
        p <= n ==> p <= floor_pow2(n),
        p >= n ==> p >= ceil_pow2(n),
{
    reveal_with_fuel(is_pow2, 2);
    lemma_floor_pow2(n);
    let f = floor_pow2(n);
    assert(is_pow2(2 * f)) by {
        assert((2 * f) / 2 == f);
    }
    if p <= n && p > f {
        lemma_pow2_gap(f, p);
    }
    if p > n {
        lemma_pow2_gap(f, p);
    }
}

/// A request above the default limit that falls short of the block gets a
/// block whose size, with its header of thirteen bytes, is a power of two, not
/// above the limit, and more than half of the request. That is the next power
/// of two above the request where this adds between 13 and 141 bytes, and
/// otherwise the largest one that is not above the request.
pub proof fn law_block_is_power(capacity: int, block_size: usize, q: int)
    requires
        valid_block_size(block_size),
        4083 < capacity,
        capacity + 13 < block_size,
        capacity + 13 < 65536,
    ensures
        ({
            let p = block_capacity(capacity, block_size as int) + 13;
            &&& is_pow2(p)
            &&& p <= block_size
            &&& p <= 65536
            &&& capacity < 2 * p
            &&& p > capacity ==> capacity + 13 <= p <= capacity + 141
            &&& is_pow2(q) && capacity + 13 <= q <= capacity + 141 ==> p == q
            &&& is_pow2(q) && p < q ==> capacity < q
        }),
{
    let down = floor_pow2(capacity);
    let up = ceil_pow2(capacity);
    lemma_floor_pow2(capacity);
    law_neighbouring_powers(capacity, down);
    law_neighbouring_powers(capacity, up);
    if is_pow2(q) {
        law_neighbouring_powers(capacity, q);
        if capacity < q && up < q {
            lemma_pow2_gap(up, q);
        }
    }
    law_neighbouring_powers(capacity, block_size as int);
    assert(is_pow2(65536)) by {
        reveal_with_fuel(is_pow2, 18);
    }
    law_neighbouring_powers(capacity, 65536);
    let p = block_alloc(capacity, block_size as int);
    assert(p == up || p == down);
    assert(1024 < p <= 65536);
    assert(p == 2048 || p == 4096 || p == 8192 || p == 16384 || p == 32768 || p == 65536) by {
        reveal_with_fuel(is_pow2, 18);
    }
}

/// Of two requests above the default limit that fall short of the block, the
/// larger gets at least half the block of the smaller, and a smaller block only
/// where the request of the smaller was rounded up.
pub proof fn law_block_order(a: int, b: int, block_size: usize)
    requires
        valid_block_size(block_size),
        4083 < a <= b,
        b + 13 < block_size,
        b + 13 < 65536,
    ensures
        ({
            let p = block_capacity(a, block_size as int) + 13;
            let q = block_capacity(b, block_size as int) + 13;
            &&& p <= 2 * q
            &&& p <= a ==> p <= q
        }),
{
    let p = block_capacity(a, block_size as int) + 13;
    let q = block_capacity(b, block_size as int) + 13;
    law_block_is_power(a, block_size, q);
    law_block_is_power(b, block_size, p);
    if q < p {
        lemma_pow2_gap(q, p);
    }
    if 2 * q < p {
        reveal_with_fuel(is_pow2, 2);
        assert(is_pow2(2 * q)) by {
            assert((2 * q) / 2 == q);
        }
        lemma_pow2_gap(2 * q, p);
    }
}

/// A request within the default limit that falls short of the block by its
/// header, or can be held in place, gets what the default limit gives; one that
/// comes close to the block gets all of it.
pub proof fn law_block_near_limits(capacity: int, block_size: usize)
    requires
        valid_block_size(block_size),
        capacity >= 0,
    ensures
        within_default(capacity, block_size as int) <==> capacity <= 4083 && capacity < block_size && (capacity <= 15
            || capacity + 13 < block_size),
        capacity <= 15 && capacity < block_size ==> block_capacity(capacity, block_size as int) == 15,
        15 < capacity <= 4083 && capacity + 13 < block_size ==> block_capacity(capacity, block_size as int)
            == default_capacity(capacity),
        15 < capacity && capacity + 13 >= block_size && 32 <= block_size <= 65536 ==> block_capacity(
            capacity,
            block_size as int,
        ) == block_size - 13,
        capacity + 13 >= 65536 && block_size >= 65536 ==> block_capacity(capacity, block_size as int) == 65523,
        32 <= block_size <= 65536 ==> block_payload(block_size as int) == block_size - 13,
        block_size < 32 ==> block_payload(block_size as int) == 19,
        block_size > 65536 ==> block_payload(block_size as int) == 65523,
        block_capacity(capacity, block_size as int) <= block_payload(block_size as int),
{
    assert(is_pow2(65536)) by {
        reveal_with_fuel(is_pow2, 18);
    }
    if block_size > 65536 {
        lemma_pow2_gap(65536, block_size as int);
    } else {
        reveal_with_fuel(is_pow2, 18);
    }
    if 4083 < capacity && capacity + 13 < block_size && capacity + 13 < 65536 {
        law_block_is_power(capacity, block_size, 1);
    }
}

} // verus!
