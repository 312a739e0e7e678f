//! Buffers, and contents held in place.

use cord_rs::buffer::CordBuffer;
use cord_rs::inline_data::{InlineData, Repr};
use cord_rs::rep::flat::{CordRepFlat, FLAT_OVERHEAD, MIN_FLAT_LENGTH};
use cord_rs::rep::memmove::small_memmove;
use cord_rs::rep::{CordRep, MAX_INLINE};
use cord_rs::Cord;
use std::cmp::Ordering;
use std::sync::Arc;

fn addr(rep: &Arc<CordRep>) -> usize {
    Arc::as_ptr(rep).addr()
}

fn block() -> Arc<CordRep> {
    CordRep::flat(CordRepFlat::create(b"some bytes", 0))
}

#[test]
fn layout() {
    assert_eq!(core::mem::size_of::<CordBuffer>(), 16);
    assert_eq!(MAX_INLINE, 15);
    let b = CordBuffer::new();
    assert!(b.is_short());
    assert_eq!(b.capacity(), MAX_INLINE);
    assert_eq!(b.len(), 0);
}

#[test]
fn a_cord_is_a_small_handle() {
    assert_eq!(core::mem::size_of::<Cord>(), 16);
}

#[test]
fn inline_and_heap() {
    let mut b = CordBuffer::with_capacity(MAX_INLINE);
    assert!(b.is_short());
    b.put_slice(b"abc");
    assert_eq!(b.as_slice(), b"abc");
    assert_eq!(b.available(), MAX_INLINE - 3);

    let mut b = CordBuffer::with_capacity(MAX_INLINE + 1);
    assert!(!b.is_short());
    assert!(b.capacity() > MAX_INLINE);
    assert!(b.capacity() <= CordBuffer::DEFAULT_MAX_CAPACITY);
    let n = b.put_slice_partial(&[1u8; 10_000]);
    assert_eq!(n, b.capacity());
    assert_eq!(b.available(), 0);
    b.truncate(3);
    assert_eq!(b.len(), 3);
    b.clear();
    assert!(b.is_empty());
}

#[test]
fn block_size_sizes() {
    let b = CordBuffer::with_capacity_and_block_size(64 << 10, 64 << 10);
    assert_eq!(b.capacity(), (64 << 10) - FLAT_OVERHEAD);
    let b = CordBuffer::with_capacity_and_block_size(100, 64 << 10);
    assert!(b.capacity() >= 100);
    let b = CordBuffer::with_capacity_and_block_size(19_586, 64 << 10);
    assert_eq!(b.capacity(), (16 << 10) - FLAT_OVERHEAD);
    let b = CordBuffer::with_capacity_and_block_size(1 << 20, 64 << 10);
    assert_eq!(b.capacity(), (64 << 10) - FLAT_OVERHEAD);
    assert_eq!(CordBuffer::max_capacity_for(8 << 10), (8 << 10) - FLAT_OVERHEAD);
    assert_eq!(CordBuffer::max_capacity_for(1 << 20), CordBuffer::MAX_BLOCK_SIZE - FLAT_OVERHEAD);
}

#[test]
fn smallest_block_size_is_sane() {
    let smallest = (FLAT_OVERHEAD + 1).next_power_of_two();
    assert_eq!(smallest, 16);
    let b = CordBuffer::with_capacity_and_block_size(smallest, smallest);
    assert!(b.capacity() >= MIN_FLAT_LENGTH);
    assert!(b.capacity() < smallest + MIN_FLAT_LENGTH);
}

#[test]
fn max_capacity_for_matches_actual_capacity() {
    for block_size in [16, 32, 64, 8 << 10, 64 << 10, 1 << 20] {
        let b = CordBuffer::with_capacity_and_block_size(block_size, block_size);
        assert_eq!(
            CordBuffer::max_capacity_for(block_size),
            b.capacity(),
            "max_capacity_for({block_size}) disagrees with an actual allocation"
        );
    }
}

#[test]
fn documented_capacities() {
    assert_eq!(CordBuffer::DEFAULT_MAX_CAPACITY, 4083);
    assert_eq!(CordBuffer::with_capacity(usize::MAX).capacity(), 4083);
    assert_eq!(CordBuffer::with_capacity(0).capacity(), 15);
    assert_eq!(CordBuffer::with_capacity(16).capacity(), 19);
    let b = CordBuffer::with_capacity_and_block_size(1 << 20, 64 << 10);
    assert_eq!(b.capacity(), CordBuffer::max_capacity_for(64 << 10));
    let b = CordBuffer::with_capacity_and_block_size(19_586, 64 << 10);
    assert_eq!(b.capacity(), CordBuffer::max_capacity_for(16 << 10));
    // Within the default limit the block size does not matter.
    for capacity in [0, 10, 15, 16, 100, 3215, 4083] {
        let b = CordBuffer::with_capacity_and_block_size(capacity, 64 << 10);
        let plain = CordBuffer::with_capacity(capacity);
        assert_eq!(b.capacity(), plain.capacity());
        assert_eq!(b.is_short(), plain.is_short());
    }
    assert_eq!(CordBuffer::with_capacity_and_block_size(10, 64 << 10).capacity(), 15);
    // Few bytes are held in place below any block; at the block it is allocated.
    assert_eq!(CordBuffer::with_capacity_and_block_size(10, 16).capacity(), 15);
    assert!(CordBuffer::with_capacity_and_block_size(15, 16).is_short());
    assert_eq!(CordBuffer::with_capacity_and_block_size(16, 16).capacity(), 19);
    assert_eq!(CordBuffer::with_capacity_and_block_size(20, 32).capacity(), 19);
    // Close to a power of two the next one is taken.
    let b = CordBuffer::with_capacity_and_block_size((16 << 10) - 100, 64 << 10);
    assert_eq!(b.capacity(), CordBuffer::max_capacity_for(16 << 10));
}

#[test]
fn buffer_values() {
    let mut a = CordBuffer::with_capacity(100);
    a.put_slice(b"hello");
    let b = a.clone();
    a.as_mut_slice()[1..4].copy_from_slice(b"ipp");
    a.put_slice(b"!");
    assert!(a == b"hippo!");
    assert!(b == b"hello");
    assert_eq!(b.capacity(), a.capacity());

    let mut short = CordBuffer::default();
    short.put_slice(b"hello");
    assert!(short.is_short());
    assert!(short == b);
    assert!(a > short);
    assert_eq!(short.partial_cmp(&a), Some(Ordering::Less));
    short.as_mut()[0] = b'J';
    assert_eq!(&short[1..3], b"el");
    short[4] = b'o';
    assert!(short == "Jello");
    assert!("Jello" == short);
    assert!(short == String::from("Jello"));
    assert!(short == b"Jello".to_vec());
    assert!(b"Jello".to_vec() == short);
    assert!(short == b"Jello"[..]);
    assert_eq!(short.as_ref(), b"Jello");
    assert!(short != "Jell");
}

#[test]
fn inline_roundtrip() {
    let mut d = InlineData::new();
    assert!(d.is_empty());
    assert!(!d.is_tree());
    assert_eq!(d.inline_size(), 0);
    d = InlineData::inline_from(b"hello");
    assert_eq!(d.inline_slice(), b"hello");
    assert!(!d.is_empty());
    d = InlineData::inline_from(b"123456789012345");
    assert_eq!(d.inline_slice(), b"123456789012345");
    d = InlineData::inline_from(b"ab");
    assert_eq!(d.inline_slice(), b"ab");
    // The bytes behind are zero.
    match d {
        InlineData::Inline(inline) => assert!(inline.bytes[2..].iter().all(|&b| b == 0)),
        InlineData::Tree(_) => panic!("not in place"),
    }
}

#[test]
fn tree_roundtrip() {
    let mut d = InlineData::new();
    let first = block();
    d.set_tree(first.clone());
    assert!(d.is_tree());
    assert!(!d.is_empty());
    assert_eq!(d.tree().map(addr), Some(addr(&first)));
    let second = block();
    d.set_tree(second.clone());
    assert_eq!(d.tree().map(addr), Some(addr(&second)));
    let copy = d.clone_with_ref();
    assert!(copy.is_same(&d));
    assert_eq!(InlineData::from_tree(second.clone()).tree().map(addr), Some(addr(&second)));
    assert!(InlineData::from_tree(second).is_same(&d));
    assert!(!InlineData::from_tree(first).is_same(&d));
}

#[test]
fn view_and_take_tree() {
    let mut d = InlineData::inline_from(b"hi");
    assert!(matches!(d.repr(), Repr::Inline(b) if b == b"hi"));
    assert!(d.take_tree().is_none());

    let rep = block();
    d.set_tree(rep.clone());
    assert!(matches!(d.repr(), Repr::Tree(r) if addr(r) == addr(&rep)));
    let taken = d.take_tree().expect("was a tree");
    assert_eq!(addr(&taken), addr(&rep));
    assert!(d.is_empty());
    assert!(!d.is_tree());
}

#[test]
fn inline_editing_api() {
    let mut d = InlineData::new();
    d.push_back_inline(b"abc");
    assert_eq!(d.inline_slice(), b"abc");
    d.push_back_inline(b"de");
    assert_eq!(d.inline_slice(), b"abcde");
    d.push_front_inline(b"XY");
    assert_eq!(d.inline_slice(), b"XYabcde");
    d.drop_front_inline(2);
    assert_eq!(d.inline_slice(), b"abcde");
    d.truncate_inline(3);
    assert_eq!(d.inline_slice(), b"abc");
    match &d {
        InlineData::Inline(inline) => assert!(inline.bytes[3..].iter().all(|&b| b == 0)),
        InlineData::Tree(_) => panic!("not in place"),
    }

    let cat = InlineData::concat_inline(b"foo", b"bar");
    assert_eq!(cat.inline_slice(), b"foobar");

    let mut buf = [0xAAu8; MAX_INLINE];
    let e = InlineData::inline_from(b"hello world!!!!");
    e.copy_max_inline_to(&mut buf);
    assert_eq!(&buf, b"hello world!!!!");
}

#[test]
fn compare_matches_slice_ordering() {
    let samples: &[&[u8]] = &[
        b"",
        b"a",
        b"b",
        b"aa",
        b"ab",
        b"abc",
        b"abcdefgh",
        b"abcdefghi",
        b"abcdefghijklmno",
        b"abcdefghijklmnp",
        b"\xff",
        b"\x00",
        b"\x00\x01",
        b"zzzzzzzzzzzzzzz",
        b"abcdefg\xff",
        b"abcdefg\x00",
    ];
    for &a in samples {
        for &b in samples {
            let da = InlineData::inline_from(a);
            let db = InlineData::inline_from(b);
            assert_eq!(da.compare(&db), a.cmp(b), "{a:?} vs {b:?}");
            assert_eq!(da.is_same(&db), a == b);
        }
    }
}

#[test]
fn small_memmove_all_sizes() {
    let src: Vec<u8> = (1..=15).collect();
    for n in 0..=15 {
        let mut dst = [0xAAu8; 16];
        small_memmove::<true>(&mut dst, &src[..n]);
        assert_eq!(&dst[..n], &src[..n], "n={n}");
        assert!(dst[n..15].iter().all(|&b| b == 0), "n={n} tail={:?}", &dst[..]);
        assert_eq!(dst[15], 0xAA);
        let mut dst2 = [0xAAu8; 16];
        small_memmove::<false>(&mut dst2, &src[..n]);
        assert_eq!(&dst2[..n], &src[..n], "n={n}");
        assert!(dst2[n..].iter().all(|&b| b == 0xAA));
    }
    let mut buf: Vec<u8> = (0..16).collect();
    let moved = buf[3..15].to_vec();
    small_memmove::<false>(&mut buf, &moved);
    assert_eq!(&buf[..12], &(3..15).collect::<Vec<u8>>()[..]);
}
