//! Cords as values: building, cutting, reading, searching, comparing.

use bytes::Bytes as SharedBytes;
use cord_rs::arena::place;
use cord_rs::bytes_impl::SharedForm;
use cord_rs::checksum::{Checker, Fnv};
use cord_rs::internal::{
    btree_height, dump, flat_allocated_size, is_btree, is_external, is_flat, is_substring, is_tree, make_external,
    make_substring, root, root_refcount, set_exhaustive_validation, validate,
};
use cord_rs::io::{InvalidSeek, SeekTo};
use cord_rs::order::{compare_slices, equal_slices};
use cord_rs::ranges::{resolve_range, try_resolve_range};
use cord_rs::rep::analysis::{sum_all, sum_distinct};
use cord_rs::rep::dump::{dump as dump_lines, DumpLabel};
use cord_rs::rep::valid::Validation;
use cord_rs::serde_impl::SeqCollector;
use cord_rs::text::escape_into;
use cord_rs::{Cord, CordBuffer, CordWriter, MemoryAccounting};
use std::borrow::Cow;
use std::cmp::Ordering;
use std::ops::Bound;
use std::sync::Arc;

fn pattern(n: usize) -> Vec<u8> {
    (0..n).map(|i| (i % 251) as u8).collect()
}

/// A cord of many small blocks with the bytes of `pattern`.
fn scattered(n: usize, chunk: usize) -> Cord {
    let mut cord = Cord::new();
    for part in pattern(n).chunks(chunk) {
        let mut buffer = CordBuffer::with_capacity(chunk.max(16));
        buffer.put_slice(part);
        cord.append(buffer);
    }
    cord
}

fn block_address(cord: &Cord) -> usize {
    cord.first_chunk().as_ptr().addr()
}

// --- The documented examples --------------------------------------------------

#[test]
fn overview_example() {
    let mut cord = Cord::from("hello");
    assert_eq!(cord.len(), 5);
    cord.append(" world");
    cord.prepend(">> ");
    let world = cord.slice(9..);
    assert!(world == "world");
    cord.append(vec![b'!'; 4096]);
    assert_eq!(cord.len(), 3 + 11 + 4096);
    let mut buffer = CordBuffer::with_capacity(1024);
    buffer.put_slice(b" tail");
    cord.append(buffer);
    let total: usize = cord.chunks().collect().iter().map(|chunk| chunk.len()).sum();
    assert_eq!(total, cord.len());
    assert!(cord.ends_with(" tail"));
}

#[test]
fn sharing_example() {
    let mut a = Cord::from(vec![b'x'; 4096]);
    let b = a.clone();
    a.append("!");
    assert_eq!(b.len(), 4096);
    assert_eq!(a.len(), 4097);
    let tail = a.slice(2048..);
    assert_eq!(tail.len(), 2049);

    // A window keeps its whole block.
    let big = Cord::from(pattern(100_000));
    let part = big.slice(5..95);
    let usage = part.estimated_memory_usage(MemoryAccounting::Total).unwrap();
    assert!(usage > 100_000);
    assert_eq!(block_address(&part), block_address(&big) + 5);
    let copy = Cord::from(part.to_vec());
    assert!(copy.estimated_memory_usage(MemoryAccounting::Total).unwrap() < 200);
    assert!(copy == part);
}

/// Splits a `[kind][len: 4 bytes, big endian][payload]` frame.
fn parse_frame(cord: &Cord) -> Option<(u8, Cord)> {
    let mut cursor = cord.cursor();
    let mut header = [0u8; 5];
    if cursor.read(&mut header) < 5 {
        return None;
    }
    let len = u32::from_be_bytes([header[1], header[2], header[3], header[4]]) as usize;
    if cursor.remaining() < len {
        return None;
    }
    Some((header[0], cursor.read_cord(len)))
}

#[test]
fn frame_example() {
    let mut framed = Cord::from(&[1u8, 0, 0, 0, 3][..]);
    assert!(parse_frame(&framed).is_none());
    framed.append("abc");
    let (kind, payload) = parse_frame(&framed).unwrap();
    assert_eq!((kind, payload.to_vec()), (1, b"abc".to_vec()));

    let body = pattern(3000);
    let mut framed = Cord::from(&[7u8, 0, 0, 0x0b, 0xb8][..]);
    framed.append(body.clone());
    let (kind, payload) = parse_frame(&framed).unwrap();
    assert_eq!(kind, 7);
    assert!(payload == body);
}

// --- Construction ---------------------------------------------------------------

#[test]
fn small_values_are_held_in_place() {
    for n in 0..=15 {
        assert!(!is_tree(&Cord::from(&pattern(n))));
    }
    let cord = Cord::from(&pattern(16));
    assert!(is_flat(&cord));
    assert_eq!(root_refcount(&cord), 1);
    let copy = cord.clone();
    assert_eq!(root_refcount(&cord), 2);
    drop(copy);
    assert_eq!(root_refcount(&cord), 1);
    assert_eq!(root_refcount(&Cord::new()), 0);
    assert_eq!(flat_allocated_size(&cord), Some(32));
    assert_eq!(flat_allocated_size(&Cord::new()), None);
}

#[test]
fn owned_values_are_adopted() {
    let data = pattern(600);
    let at = data.as_ptr().addr();
    let cord = Cord::from(data.clone());
    assert!(is_external(&cord));
    let data2 = data;
    let cord2 = Cord::from(data2);
    assert_eq!(block_address(&cord2), at);
    assert!(cord == cord2);

    // Few bytes, or much slack, are copied.
    assert!(is_flat(&Cord::from(pattern(511))));
    assert!(is_external(&Cord::from(pattern(512))));
    let mut slack = Vec::with_capacity(10_000);
    slack.extend_from_slice(&pattern(600));
    assert!(is_flat(&Cord::from(slack)));

    let text = "x".repeat(600);
    assert!(is_external(&Cord::from(text.clone())));
    assert!(is_external(&Cord::from(text.clone().into_boxed_str())));
    assert!(is_external(&Cord::from(Arc::<str>::from(text.as_str()))));
    assert!(is_external(&Cord::from(Arc::new(text.clone()))));
    assert!(is_external(&Cord::from(Arc::<[u8]>::from(text.as_bytes()))));
    assert!(is_external(&Cord::from(Arc::new(text.clone().into_bytes()))));
    assert!(is_external(&Cord::from(text.clone().into_bytes().into_boxed_slice())));
    assert!(is_external(&Cord::from(Cow::<[u8]>::Owned(pattern(600)))));
    assert!(is_external(&Cord::from(Cow::<str>::Owned(text.clone()))));
    assert!(is_flat(&Cord::from(Cow::Borrowed(text.as_str()))));
    assert!(is_flat(&Cord::from(&text)));
    assert!(Cord::from(text.clone().into_boxed_str()) == text);

    static WORDS: &[u8] = b"a static slice of bytes";
    let cord = Cord::from_static(WORDS);
    assert!(is_external(&cord));
    assert_eq!(block_address(&cord), WORDS.as_ptr().addr());
    assert!(!is_tree(&Cord::from_static(b"short")));
    let text = "a literal that is longer than that";
    let cord = Cord::from_static(text);
    assert!(is_external(&cord) && cord == text);
    assert_eq!(block_address(&cord), text.as_ptr().addr());
}

#[test]
fn sources_can_be_added_at_both_ends() {
    let mut cord = Cord::from([b'0'; 3]);
    let mut expected = b"000".to_vec();
    let large = pattern(1000);
    let check = |cord: &Cord, expected: &mut Vec<u8>, part: &[u8]| {
        let mut now = part.to_vec();
        now.extend_from_slice(expected);
        now.extend_from_slice(part);
        *expected = now;
        assert_eq!(cord.to_vec(), *expected);
    };
    cord.append("text");
    cord.prepend("text");
    check(&cord, &mut expected, b"text");
    cord.append(&large);
    cord.prepend(&large);
    check(&cord, &mut expected, &large);
    cord.append(large.clone());
    cord.prepend(large.clone());
    check(&cord, &mut expected, &large);
    cord.append(Cow::Borrowed(&large[..]));
    cord.prepend(Cow::<[u8]>::Owned(large.clone()));
    check(&cord, &mut expected, &large);
    cord.append(large.clone().into_boxed_slice());
    cord.prepend(large.clone().into_boxed_slice());
    check(&cord, &mut expected, &large);
    cord.append(Arc::<[u8]>::from(large.as_slice()));
    cord.prepend(Arc::<[u8]>::from(large.as_slice()));
    check(&cord, &mut expected, &large);
    cord.append(SharedBytes::from(large.clone()));
    cord.prepend(SharedBytes::from(large.clone()));
    check(&cord, &mut expected, &large);
    let other = scattered(2000, 100);
    cord.append(&other);
    cord.prepend(other.clone());
    check(&cord, &mut expected, &pattern(2000));
    let own = cord.clone();
    cord.append(&own);
    cord.prepend(own.clone());
    let part = expected.clone();
    check(&cord, &mut expected, &part);
    let mut buffer = CordBuffer::with_capacity(50);
    buffer.put_slice(b"from a buffer");
    cord.append(&buffer);
    cord.prepend(&buffer);
    check(&cord, &mut expected, b"from a buffer");
    cord.append(&large.clone().into_boxed_slice());
    cord.prepend(&Arc::<[u8]>::from(large.as_slice()));
    check(&cord, &mut expected, &large);
    cord.append(&SharedBytes::from(large.clone()));
    cord.prepend(&SharedBytes::from(large.clone()));
    check(&cord, &mut expected, &large);
    let text = String::from("more text");
    cord.append(&text);
    cord.prepend(text.clone().into_boxed_str());
    check(&cord, &mut expected, text.as_bytes());
    assert!(validate(&cord).is_ok());
}

#[test]
fn sources_of_cords() {
    let mut cord = Cord::from_items(vec!["ab", "", "cd"]);
    assert!(cord == "abcd");
    cord.extend(vec![Cord::from("ef"), Cord::from("gh")]);
    cord.extend_bytes(&pattern(10_000));
    let mut expected = b"abcdefgh".to_vec();
    expected.extend_from_slice(&pattern(10_000));
    assert!(cord == expected);
}

#[test]
fn collected_bytes() {
    for hint in [None, Some(0), Some(10), Some(5000), Some(1 << 40)] {
        for n in [0, 1, 15, 16, 100, 4083, 4084, 20_000] {
            let mut collector = SeqCollector::new(hint);
            for &byte in &pattern(n) {
                collector.push(byte);
            }
            let cord = collector.finish();
            assert!(cord == pattern(n));
            assert_eq!(is_tree(&cord), n > 15);
            assert!(validate(&cord).is_ok());
            // The chunks are those of a copy, whatever the hint.
            let copy = Cord::from(&pattern(n));
            assert_eq!(cord.chunks().collect(), copy.chunks().collect());
            let sizes: Vec<usize> = copy.chunks().collect().iter().map(|chunk| chunk.len()).collect();
            let expected: Vec<usize> = pattern(n).chunks(4083).map(<[u8]>::len).collect();
            assert_eq!(sizes, expected);
        }
    }
}

// --- Changing ---------------------------------------------------------------------

#[test]
fn changing_a_cord_changes_no_other() {
    let original = scattered(5000, 70);
    let mut copy = original.clone();
    copy.append("tail");
    copy.prepend("head");
    copy.advance(100);
    copy.truncate(300);
    assert!(original == pattern(5000));
    copy.clear();
    assert!(copy.is_empty());
    copy.clone_from(&original);
    assert!(copy == original);
    assert_eq!(root_refcount(&original), 2);
}

#[test]
fn cutting_matches_slices() {
    let data = pattern(2500);
    for chunk in [7, 90, 2500] {
        let cord = scattered(2500, chunk);
        for at in [0, 1, 14, 15, 16, 89, 90, 91, 1000, 2484, 2485, 2499, 2500] {
            let mut front = cord.clone();
            front.truncate(at);
            assert!(front == data[..at]);
            let mut back = cord.clone();
            back.advance(at);
            assert!(back == data[at..]);

            let mut head = cord.clone();
            let tail = head.split_off(at);
            assert!(head == data[..at]);
            assert!(tail == data[at..]);
            let mut rest = cord.clone();
            let head = rest.split_to(at);
            assert!(head == data[..at]);
            assert!(rest == data[at..]);
            let mut joined = head;
            joined.append(rest);
            assert!(joined == cord);

            for to in [at, at + 1, at + 16, at + 600] {
                if to <= data.len() {
                    let part = cord.slice(at..to);
                    assert!(part == data[at..to]);
                    assert_eq!(is_tree(&part), to - at > 15);
                    assert!(validate(&part).is_ok());
                }
            }
        }
        let mut long = cord.clone();
        long.truncate(9999);
        assert_eq!(long.len(), 2500);
    }
}

#[test]
fn slices_share_memory() {
    let data = pattern(10_000);
    let cord = Cord::from(data);
    let part = cord.slice(100..9000);
    assert!(is_substring(&part));
    assert_eq!(block_address(&part), block_address(&cord) + 100);
    let inner = part.slice(50..1000);
    assert_eq!(block_address(&inner), block_address(&cord) + 150);

    let tree = scattered(4000, 500);
    let part = tree.slice(250..3600);
    let whole: Vec<usize> = tree.chunks().collect().iter().map(|c| c.as_ptr().addr()).collect();
    let parts: Vec<usize> = part.chunks().collect().iter().map(|c| c.as_ptr().addr()).collect();
    assert_eq!(parts.len(), 8);
    assert_eq!(parts[0], whole[0] + 250);
    assert_eq!(parts[1..], whole[1..]);

    let mut cursor = tree.cursor();
    cursor.advance(250);
    let read = cursor.read_cord(3350);
    assert!(read == part);
    assert_eq!(read.first_chunk().as_ptr().addr(), whole[0] + 250);
}

#[test]
fn all_ranges() {
    let cord = Cord::from("0123456789abcdefghij");
    assert!(cord.slice(2..5) == "234");
    assert!(cord.slice(2..=5) == "2345");
    assert!(cord.slice(..3) == "012");
    assert!(cord.slice(..=3) == "0123");
    assert!(cord.slice(18..) == "ij");
    assert!(cord.slice(..) == cord);
    assert!(cord.slice((Bound::Excluded(3), Bound::Included(5))) == "45");
    assert!(cord.slice((Bound::Unbounded, Bound::Excluded(1))) == "0");

    assert!(cord.try_slice(19..21).is_none());
    assert!(cord.try_slice(21..).is_none());
    assert_eq!(cord.try_slice(20..).unwrap().len(), 0);
    assert!(cord.get(..=20).is_none());
    assert!(cord.get(0..=usize::MAX).is_none());
    assert!(cord.get((Bound::Excluded(usize::MAX), Bound::Unbounded)).is_none());
    assert!(cord.get(10..12).unwrap() == "ab");
    assert_eq!(cord.get(19), Some(b'j'));
    assert_eq!(cord.get(20), None);
    assert_eq!(cord[3], b'3');

    assert_eq!(resolve_range(3..=7, 10), (3, 5));
    assert_eq!(try_resolve_range(3..=7, 8), Some((3, 5)));
    assert_eq!(try_resolve_range(3..=7, 7), None);
    assert_eq!(try_resolve_range((Bound::Included(4), Bound::Excluded(2)), 10), None);
}

#[test]
fn append_buffers_are_reused() {
    let mut cord = Cord::from("abc");
    let mut buffer = cord.take_append_buffer(100);
    assert!(cord.is_empty());
    assert!(buffer == "abc");
    assert!(buffer.available() >= 100);
    buffer.put_slice(&pattern(50));
    cord.append(buffer);
    assert!(is_flat(&cord));

    // The only block, which no one else holds, is taken out.
    let at = block_address(&cord);
    let mut buffer = cord.take_append_buffer(20);
    assert!(cord.is_empty());
    assert_eq!(buffer.as_slice().as_ptr().addr(), at);
    buffer.put_slice(b"!");
    cord.append(buffer);
    assert_eq!(cord.len(), 54);

    // A shared block is left alone.
    let copy = cord.clone();
    let buffer = cord.take_append_buffer(20);
    assert!(buffer.is_empty());
    assert!(buffer.capacity() >= 20);
    assert!(cord == copy);

    // The last block of a tree.
    let mut cord = scattered(1000, 100);
    cord.append(CordBuffer::with_capacity(1000));
    let mut last = CordBuffer::with_capacity(1000);
    last.put_slice(b"last");
    cord.append(last);
    let buffer = cord.take_append_buffer_with(8 << 10, 5000, 16);
    assert!(buffer == "last");
    assert_eq!(cord.len(), 1000);
    let buffer = cord.take_append_buffer_with(8 << 10, 5000, 2000);
    assert!(buffer.is_empty());
    assert_eq!(buffer.capacity(), CordBuffer::with_capacity_and_block_size(5000, 8 << 10).capacity());
}

#[test]
fn writer_appends_through_buffers() {
    let mut cord = Cord::from("start ");
    let mut writer = CordWriter::new(&mut cord);
    for _ in 0..1000 {
        writer.put_slice(b"0123456789");
    }
    writer.flush();
    writer.put_slice(b"end");
    assert_eq!(writer.remaining_mut(), usize::MAX - 10_009);
    let inner = writer.into_inner();
    assert_eq!(inner.len(), 10_009);
    assert!(cord.starts_with("start 0123456789"));
    assert!(cord.ends_with("789end"));
    assert!(validate(&cord).is_ok());
}

// --- Reading ------------------------------------------------------------------------

#[test]
fn chunks_from_both_ends() {
    let cord = scattered(1000, 90);
    let data = pattern(1000);
    let expected: Vec<&[u8]> = data.chunks(90).collect();
    assert_eq!(cord.chunks().collect(), expected);

    for split in 0..=expected.len() {
        let mut it = cord.chunks();
        for &part in &expected[..split] {
            assert_eq!(it.next(), Some(part));
        }
        for &part in expected[split..].iter().rev() {
            assert_eq!(it.next_back(), Some(part));
        }
        assert_eq!(it.remaining(), 0);
        assert_eq!(it.size_hint(), (0, Some(0)));
        assert!(it.next().is_none());
        assert!(it.next_back().is_none());
    }
    let mut it = cord.chunks();
    it.next_back();
    it.next();
    let copy = it.clone();
    assert_eq!(it.collect(), expected[1..11]);
    assert_eq!(copy.remaining(), 900);
    assert_eq!(copy.collect(), expected[1..11]);
    assert_eq!(cord.chunks().size_hint(), (1, Some(1000)));
    assert!(Cord::new().chunks().next().is_none());
    let flat = Cord::from(&pattern(100));
    assert_eq!(flat.chunks().next_back(), Some(&data[..100]));
}

#[test]
fn bytes_from_both_ends() {
    let cord = scattered(300, 21);
    let data = pattern(300);
    for split in [0, 1, 21, 150, 299, 300] {
        let mut it = cord.bytes();
        for &byte in &data[..split] {
            assert_eq!(it.next(), Some(byte));
        }
        for &byte in data[split..].iter().rev() {
            assert_eq!(it.next_back(), Some(byte));
        }
        assert_eq!(it.next(), None);
        assert_eq!(it.next_back(), None);
    }
    for n in [0, 1, 20, 21, 22, 299, 300, 1000] {
        let mut it = cord.bytes();
        assert_eq!(it.nth(n), data.get(n).copied());
        assert_eq!(it.next(), data.get(n + 1).copied());
        let mut it = cord.bytes();
        it.next_back();
        it.next();
        assert_eq!(it.nth(n), data[1..299].get(n).copied());
        assert_eq!(it.count(), 297usize.saturating_sub(n));
    }
    assert_eq!(cord.bytes().remaining(), 300);
}

#[test]
fn cursor_reads_and_seeks() {
    let cord = scattered(1000, 64);
    let data = pattern(1000);
    let mut cursor = cord.cursor();
    let mut buf = [0u8; 100];
    assert_eq!(cursor.read(&mut buf), 100);
    assert_eq!(buf, data[..100]);
    assert_eq!(cursor.position(), 100);
    assert_eq!(cursor.peek(), Some(data[100]));
    assert_eq!(cursor.next_byte(), Some(data[100]));
    assert_eq!(cursor.chunk(), &data[101..128]);
    let copy = cursor.clone();
    assert_eq!(cursor.chunks().collect().len(), 15);

    assert_eq!(cursor.seek(SeekTo::Start(7)), Ok(7));
    assert_eq!(cursor.peek(), Some(data[7]));
    assert_eq!(cursor.seek(SeekTo::Current(20)), Ok(27));
    assert_eq!(cursor.seek(SeekTo::Current(-28)), Err(InvalidSeek));
    assert_eq!(cursor.seek(SeekTo::End(1)), Err(InvalidSeek));
    assert_eq!(cursor.seek(SeekTo::Start(1001)), Err(InvalidSeek));
    assert_eq!(cursor.seek(SeekTo::Start(u64::MAX)), Err(InvalidSeek));
    assert_eq!(cursor.stream_position(), 27);
    assert_eq!(cursor.seek(SeekTo::End(-1)), Ok(999));
    assert_eq!(cursor.next_byte(), Some(data[999]));
    assert_eq!(cursor.next_byte(), None);
    assert!(!cursor.has_remaining());
    assert_eq!(cursor.read(&mut buf), 0);
    assert_eq!(cursor.chunk(), b"");
    assert_eq!(copy.position(), 101);

    let mut cursor = copy;
    let mut rest = b"kept".to_vec();
    assert_eq!(cursor.read_to_end(&mut rest), 899);
    assert_eq!(rest[4..], data[101..]);
    assert_eq!(cursor.position(), 1000);
}

#[test]
fn reading_as_a_whole() {
    let mut cord = scattered(3000, 100);
    let data = pattern(3000);
    assert!(cord.as_flat().is_none());
    assert!(cord.as_contiguous().is_none());
    assert_eq!(cord.first_chunk(), &data[..100]);
    let copy = cord.clone();
    assert_eq!(cord.flatten(), &data[..]);
    assert!(is_flat(&cord));
    assert_eq!(cord.as_flat(), Some(&data[..]));
    assert!(copy.as_flat().is_none());
    let mut big = scattered(9000, 100);
    assert_eq!(big.make_contiguous(), &pattern(9000)[..]);
    assert!(is_external(&big));

    let mut dst = [0u8; 50];
    assert_eq!(copy.copy_prefix_to(&mut dst), 50);
    assert_eq!(dst, data[..50]);
    let mut dst = [9u8; 20];
    assert_eq!(Cord::from("xyz").copy_prefix_to(&mut dst), 3);
    assert_eq!(&dst[..4], b"xyz\x09");
    assert_eq!(Vec::<u8>::from(copy), data);
}

#[test]
fn conversion_to_text() {
    let text = "no_std round-trip \u{2713}";
    assert_eq!(String::try_from(Cord::from(text)).unwrap(), text);
    let mut broken = Cord::from("abc");
    broken.append(&[0xffu8, b'd'][..]);
    assert!(String::try_from(broken.clone()).is_err());
    assert_eq!(broken.to_text(), "abc\u{fffd}d");
    assert_eq!(Cord::from(text).to_text(), text);

    let cord = Cord::from(&b"a\t\n\r\"'\\\x00\x7f\xe9~ "[..]);
    assert_eq!(cord.to_literal(), br#"b"a\t\n\r\"\'\\\x00\x7f\xe9~ ""#);
    let all: Vec<u8> = (0..=255).collect();
    let mut out = Vec::new();
    escape_into(&all, &mut out);
    assert_eq!(out, all.escape_ascii().to_string().into_bytes());
    let literal = Cord::from(&all).to_literal();
    assert_eq!(literal[2..literal.len() - 1], out);
}

#[test]
fn shared_buffers() {
    let data = pattern(2000);
    let shared = SharedBytes::from(data.clone());
    let cord = Cord::from(shared.clone());
    assert!(is_external(&cord));
    assert_eq!(block_address(&cord), shared.as_ptr().addr());
    assert!(is_flat(&Cord::from(shared.slice(..100))));

    // One block is handed over, and several are joined.
    let back = SharedBytes::from(cord.clone());
    assert_eq!(back.as_ptr(), shared.as_ptr());
    assert_eq!(SharedBytes::from(scattered(2000, 64)), data);
    assert_eq!(SharedBytes::from(Cord::from("tiny")), "tiny");
    assert_eq!(SharedBytes::from(Cord::new()).len(), 0);

    let mut rest = scattered(2000, 64);
    assert_eq!(rest.copy_to_bytes(100), data[..100]);
    assert!(rest == data[100..]);
    let mut cursor = rest.cursor();
    assert_eq!(cursor.copy_to_bytes(900), data[100..1000]);
    assert_eq!(cursor.position(), 900);
    assert_eq!(cord_rs::CordLike::chunks(&shared).collect().len(), 1);
    assert!(cord == shared);
}

// --- Searching and comparing -----------------------------------------------------------

fn find_in(data: &[u8], needle: &[u8]) -> Option<usize> {
    if needle.is_empty() {
        return Some(0);
    }
    data.windows(needle.len()).position(|w| w == needle)
}

#[test]
fn search_matches_slices() {
    let text: Vec<u8> = b"abracadabra-abracadabrab".repeat(20);
    for chunk in [16, 23, 480] {
        let mut cord = Cord::new();
        for part in text.chunks(chunk) {
            let mut buffer = CordBuffer::with_capacity(chunk.max(16));
            buffer.put_slice(part);
            cord.append(buffer);
        }
        let needles: [&[u8]; 10] = [
            b"", b"a", b"z", b"abr", b"brab", b"rab-", b"-abracadabrababra", b"bab", &text[3..200], &text[..],
        ];
        for needle in needles {
            let expected = find_in(&text, needle);
            assert_eq!(cord.find(needle), expected);
            assert_eq!(cord.contains(needle), expected.is_some());
            let mut parts = Cord::new();
            for part in needle.chunks(17) {
                let mut buffer = CordBuffer::with_capacity(17);
                buffer.put_slice(part);
                parts.append(buffer);
            }
            assert_eq!(cord.find(&parts), expected);
            assert_eq!(cord.starts_with(&parts), text.starts_with(needle));
            assert_eq!(cord.ends_with(&parts), text.ends_with(needle));
            assert_eq!(cord.starts_with(needle), text.starts_with(needle));
            assert_eq!(cord.ends_with(needle), text.ends_with(needle));
        }
        let mut longer = text.clone();
        longer.push(0);
        assert_eq!(cord.find(&longer), None);
        assert!(!cord.starts_with(&longer));
    }
}

#[test]
fn order_matches_slices() {
    let a = pattern(1000);
    let mut b = a.clone();
    b[700] = 0;
    let longer = pattern(1001);
    let samples: [&[u8]; 7] = [b"", b"\x00", b"abc", &a[..500], &a, &b, &longer];
    for x in samples {
        for y in samples {
            assert_eq!(compare_slices(x, y), x.cmp(y));
            assert_eq!(equal_slices(x, y), x == y);
            for chunk in [16, 100] {
                let mut cord = Cord::new();
                for part in x.chunks(chunk) {
                    let mut buffer = CordBuffer::with_capacity(chunk);
                    buffer.put_slice(part);
                    cord.append(buffer);
                }
                let other = Cord::from(y);
                assert_eq!(cord.compare(&other), x.cmp(y));
                assert_eq!(cord.compare(y), x.cmp(y));
                assert_eq!(cord.equals(&other), x == y);
                assert_eq!(cord == other, x == y);
                assert_eq!(cord.partial_cmp(&other), Some(x.cmp(y)));
                assert_eq!(y.partial_cmp(&cord), Some(y.cmp(x)));
                assert_eq!(*y == cord, x == y);
            }
        }
    }
    let (a, b, ab) = (Cord::from("a"), Cord::from("b"), Cord::from("ab"));
    assert!(a < b);
    assert_eq!(a.compare(&ab), Ordering::Less);
    assert!(b"ab" == ab && [b'a'] == a);
    assert!("a" == a && a == "a" && String::from("ab") == ab && b == [b'b']);
}

#[test]
fn equal_cords_hash_equal() {
    for n in [0, 10, 1023, 1024, 1025, 5000] {
        let blocks = scattered(n, 100).blocks_for_hash();
        assert_eq!(blocks, Cord::from(pattern(n)).blocks_for_hash());
        let expected: Vec<Vec<u8>> = pattern(n).chunks(1024).map(<[u8]>::to_vec).collect();
        assert_eq!(blocks, expected);
    }
}

// --- Inspection ---------------------------------------------------------------------------

#[test]
fn memory_is_accounted_for() {
    let small = Cord::from("abc");
    assert_eq!(small.estimated_memory_usage(MemoryAccounting::Total), Some(16));
    assert_eq!(small.estimated_memory_usage(MemoryAccounting::TotalMorePrecise), Some(16));
    assert_eq!(small.estimated_memory_usage(MemoryAccounting::FairShare), Some(16));
    assert!(small.memory_nodes().is_empty());

    let flat = Cord::from(&pattern(100));
    assert_eq!(flat.estimated_memory_usage(MemoryAccounting::Total), Some(16 + 120));
    assert_eq!(flat.estimated_memory_usage(MemoryAccounting::FairShare), None);

    // A block that is reached twice counts twice, or once.
    let block = Cord::from(pattern(4096));
    let mut twice = block.clone();
    twice.append(&block);
    let total = twice.estimated_memory_usage(MemoryAccounting::Total).unwrap();
    let precise = twice.estimated_memory_usage(MemoryAccounting::TotalMorePrecise).unwrap();
    assert_eq!(total - precise, 4096 + 40);
    let nodes = twice.memory_nodes();
    assert_eq!(nodes.len(), 3);
    assert_eq!(nodes[1].refcount, 3);
    assert_eq!(nodes[1].depth, 1);
    assert_eq!(16 + sum_all(&nodes), total);
    assert_eq!(16 + sum_distinct(&nodes), precise);
    assert!(precise >= 4096);
    assert_eq!(MemoryAccounting::default(), MemoryAccounting::Total);
}

#[test]
fn inspection() {
    let tree = scattered(1000, 100);
    assert!(is_tree(&tree) && is_btree(&tree) && !is_flat(&tree));
    assert_eq!(btree_height(&tree), Some(1));
    assert_eq!(root(&tree).unwrap().len(), 1000);
    assert!(root(&Cord::new()).is_none());
    assert_eq!(dump(&Cord::new(), true), b"(inline)\n");
    let lines = String::from_utf8(dump(&tree, false)).unwrap();
    assert_eq!(lines.lines().count(), 1 + 1 + 2 + 10);
    assert!(lines.starts_with("===================================\nPrivate (0x"));
    assert!(lines.contains("  Private (0x") && lines.contains(") Node(1), len = 1000, begin = 0, end = 2\n"));
    assert!(lines.contains("Leaf, len = 600, begin = 0, end = 6\n"));
    let flat = String::from_utf8(dump(&Cord::from(&b"quoted \"text\" and a tab\t"[..]), true)).unwrap();
    assert!(flat.ends_with(") Flat, len = 24, cap = 27, data = \"quoted \\\"text\\\" and a tab\\t\"\n"));
    let long = String::from_utf8(dump(&Cord::from(vec![b'x'; 70]), true)).unwrap();
    assert!(long.ends_with(&format!(", data = \"{}\"...\n", "x".repeat(60))));
    let mut validation = Validation::new();
    set_exhaustive_validation(&mut validation, true);
    assert!(validation.is_exhaustive_validation_enabled());

    let external = make_external(&pattern(10));
    assert!(is_external(&external));
    assert!(make_external(b"").is_empty());
    let window = make_substring(&external, 2, 5);
    assert!(is_substring(&window));
    assert!(window == pattern(10)[2..7]);
    assert_eq!(btree_height(&window), None);
}

#[test]
fn checksums() {
    let mut fnv = Fnv::new();
    fnv.write(b"foobar");
    assert_eq!(fnv.finish(), 0x85944171f73967e8);
    let mut parts = Fnv::new();
    parts.write(b"foo");
    parts.write(b"bar");
    assert_eq!(parts.finish(), fnv.finish());

    let mut checker = Checker::new();
    checker.check(true);
    checker.check(false);
    checker.check(false);
    assert_eq!((checker.failures, checker.first_failure, checker.next_id), (2, 2, 4));
}

/// Random operations on cords that share their blocks, against plain vectors.
#[test]
fn random_operations() {
    let mut state = 1u64;
    let mut random = |n: usize| {
        state = state * 48271 % 2_147_483_647;
        state as usize % n
    };
    let mut cords: Vec<(Cord, Vec<u8>)> = (0..4).map(|_| (Cord::new(), Vec::new())).collect();
    for _ in 0..4000 {
        let i = random(4);
        let j = random(4);
        let (other, other_data) = cords[j].clone();
        let size = [3, 20, 300, 1500][random(4)];
        let part = pattern(random(size) + 1);
        let (cord, data) = &mut cords[i];
        if data.len() > 60_000 {
            cord.clear();
            data.clear();
        }
        let at = random(data.len() + 1);
        match random(12) {
            0 => {
                cord.append(&part);
                data.extend_from_slice(&part);
            }
            1 => {
                cord.prepend(&part);
                data.splice(0..0, part);
            }
            2 => {
                cord.append(part.clone());
                data.extend_from_slice(&part);
            }
            3 => {
                cord.append(&other);
                data.extend_from_slice(&other_data);
            }
            4 => {
                cord.prepend(other);
                data.splice(0..0, other_data);
            }
            5 => {
                cord.advance(at);
                data.drain(..at);
            }
            6 => {
                cord.truncate(at);
                data.truncate(at);
            }
            7 => {
                let tail = cord.split_off(at);
                let tail_data = data.split_off(at);
                assert!(tail == tail_data);
                cord.prepend(tail);
                data.splice(0..0, tail_data);
            }
            8 => {
                let end = at + random(data.len() - at + 1);
                *cord = cord.slice(at..end);
                *data = data[at..end].to_vec();
            }
            9 => {
                let mut buffer = cord.take_append_buffer(part.len());
                let n = buffer.put_slice_partial(&part);
                cord.append(buffer);
                data.extend_from_slice(&part[..n]);
            }
            10 => {
                cord.flatten();
            }
            _ => {
                let mut cursor = cord.cursor();
                cursor.advance(at);
                let n = random(data.len() - at + 1);
                let read = cursor.read_cord(n);
                assert!(read == data[at..at + n]);
                *cord = read;
                *data = data[at..at + n].to_vec();
            }
        }
        assert_eq!(cord.to_vec(), *data);
        assert!(validate(cord).is_ok());
        assert_eq!(cord.as_flat().is_some(), cord.chunks().collect().len() <= 1);
    }
    for (cord, data) in &cords {
        assert_eq!(cord.to_vec(), *data);
    }
}

#[test]
fn arena_places() {
    assert_eq!(place(1000, 0, 8, 20, 100), Some((0, 20)));
    assert_eq!(place(1000, 20, 8, 20, 100), Some((24, 44)));
    assert_eq!(place(1004, 0, 16, 4, 100), Some((4, 8)));
    assert_eq!(place(1000, 90, 1, 10, 100), Some((90, 100)));
    assert_eq!(place(1000, 90, 1, 11, 100), None);
    assert_eq!(place(1000, 90, 1, usize::MAX, 100), None);
}

#[test]
fn sizes_of_copies() {
    let c = Cord::copy_from_slice(&[0u8; 20]);
    assert_eq!(flat_allocated_size(&c), Some(40));
    assert_eq!(flat_allocated_size(&Cord::from("abc")), None);
    assert_eq!(flat_allocated_size(&make_external(&[0u8; 20])), None);
    assert_eq!(flat_allocated_size(&Cord::from(vec![0u8; 20])), Some(40));
    assert_eq!(flat_allocated_size(&Cord::from(&vec![0u8; 4083])), Some(4096));
    assert!(!is_tree(&Cord::from(vec![0u8; 15])));
    assert!(!is_tree(&Cord::from(SharedBytes::from_static(b"few"))));
}

#[test]
fn buffers_become_chunks() {
    let mut buffer = CordBuffer::with_capacity(100);
    buffer.put_slice(b"tail");
    let at = buffer.as_slice().as_ptr().addr();
    let mut cord = Cord::from("head");
    cord.append(buffer);
    let chunks = cord.chunks().collect();
    assert_eq!(chunks, [&b"head"[..], b"tail"]);
    assert_eq!(chunks[1].as_ptr().addr(), at);

    let mut buffer = CordBuffer::with_capacity(100);
    buffer.put_slice(b"front");
    let mut cord = Cord::from("back");
    cord.prepend(buffer);
    assert_eq!(cord.chunks().collect(), [&b"front"[..], b"back"]);

    let mut buffer = CordBuffer::with_capacity(100);
    buffer.put_slice(b"alone");
    let capacity = buffer.capacity();
    let cord = Cord::from(buffer);
    assert_eq!(flat_allocated_size(&cord), Some(capacity + 13));
    let mut short = CordBuffer::new();
    short.put_slice(b"alone");
    assert!(!is_tree(&Cord::from(short)));
}

#[test]
fn short_reads() {
    let cord = scattered(1000, 90);
    let at: Vec<usize> = cord.chunks().collect().iter().map(|c| c.as_ptr().addr()).collect();
    let mut cursor = cord.cursor();
    assert!(!is_tree(&cursor.read_cord(15)));
    // Inside one chunk: a copy. Across chunks: shared.
    let copy = cursor.read_cord(40);
    assert!(is_flat(&copy));
    assert_ne!(block_address(&copy), at[0] + 15);
    let shared = cursor.read_cord(100);
    assert_eq!(block_address(&shared), at[0] + 55);
    assert!(shared == pattern(1000)[55..155]);

    let single = Cord::from(pattern(1000));
    let mut cursor = single.cursor();
    cursor.advance(10);
    let part = cursor.read_cord(16);
    assert_eq!(block_address(&part), block_address(&single) + 10);
}

#[test]
fn taken_buffers_are_whole_blocks() {
    let mut cord = scattered(270, 90);
    let mut last = CordBuffer::with_capacity(500);
    last.put_slice(b"the last block");
    let capacity = last.capacity();
    cord.append(last);
    let before: Vec<Vec<u8>> = cord.chunks().collect().iter().map(|c| c.to_vec()).collect();
    let buffer = cord.take_append_buffer(10);
    assert!(buffer == "the last block");
    assert_eq!(buffer.capacity(), capacity);
    assert_eq!(cord.chunks().collect(), before[..3]);
    // A full block is not taken.
    let buffer = cord.take_append_buffer(10);
    assert!(buffer.is_empty());
    assert_eq!(buffer.capacity(), 15);
    assert_eq!(cord.chunks().collect(), before[..3]);
}

#[test]
fn layout_of_copies() {
    let sizes = |cord: &Cord| cord.chunks().collect().iter().map(|c| c.len()).collect::<Vec<usize>>();
    let mut cord = Cord::from("abc");
    cord.append(&pattern(5000));
    assert_eq!(sizes(&cord), [4083, 920]);
    cord.append(&pattern(10));
    assert_eq!(cord.len(), 5013);
    assert!(sizes(&cord) == [4083, 930] || sizes(&cord) == [4083, 920, 10]);

    let mut cord = Cord::from("abc");
    cord.prepend(&pattern(5000));
    assert_eq!(sizes(&cord), [4083, 917, 3]);
    cord.prepend(&pattern(5000));
    assert_eq!(sizes(&cord), [917, 4083, 4083, 917, 3]);

    let mut cord = Cord::from("abc");
    cord.append(vec![7u8; 600]);
    assert_eq!(sizes(&cord), [3, 600]);
    let other = scattered(600, 90);
    cord.append(&other);
    assert_eq!(sizes(&cord), [3, 600, 90, 90, 90, 90, 90, 90, 60]);
}

#[test]
fn writing_into_buffers() {
    // As a reader of some input does it.
    let input = pattern(10_000);
    let mut cord = Cord::new();
    let mut left = &input[..];
    while !left.is_empty() {
        let mut buffer = CordBuffer::with_capacity(left.len());
        let n = buffer.available().min(left.len());
        buffer.put_slice(&vec![0; n]);
        let at = buffer.as_slice().as_ptr().addr();
        buffer.as_mut_slice().copy_from_slice(&left[..n]);
        assert_eq!(buffer.as_slice().as_ptr().addr(), at);
        cord.append(buffer);
        left = &left[n..];
    }
    assert!(cord == input);
    assert_eq!(cord.chunks().collect().len(), 3);

    let mut short = CordBuffer::new();
    short.put_slice(b"abc");
    short.as_mut_slice().reverse();
    assert!(short == "cba" && short.is_short() && short.capacity() == 15);
    short.put_slice(b"d");
    assert!(short == "cbad");
    assert!(CordBuffer::new().as_mut_slice().is_empty());
}

#[test]
fn writer_bypasses_its_buffer() {
    let mut cord = Cord::new();
    let mut writer = CordWriter::new(&mut cord);
    writer.put_slice(b"some");
    assert!(writer.buffer.is_some());
    let room = writer.make_room();
    writer.put_slice(&vec![1; room]);
    assert_eq!(writer.buffer.as_ref().map(CordBuffer::available), Some(0));
    assert!(writer.make_room() > 0);
    writer.put_slice(&pattern(5000));
    assert!(writer.buffer.is_none());
    let inner = writer.into_inner();
    assert_eq!(inner.len(), 4 + room + 5000);
}

#[test]
fn truncation_keeps_blocks() {
    let mut cord = scattered(500, 100);
    let whole: Vec<usize> = cord.chunks().collect().iter().map(|c| c.as_ptr().addr()).collect();
    let shared = cord.clone();
    cord.truncate(250);
    let parts: Vec<usize> = cord.chunks().collect().iter().map(|c| c.as_ptr().addr()).collect();
    assert_eq!(parts, whole[..3]);
    assert!(shared == pattern(500));
    drop(shared);
    cord.truncate(130);
    let parts: Vec<usize> = cord.chunks().collect().iter().map(|c| c.as_ptr().addr()).collect();
    assert_eq!(parts, whole[..2]);
}

#[test]
fn room_of_new_blocks() {
    let last_capacity = |cord: &Cord| match dump_lines(root(cord).unwrap(), false).last().unwrap().label {
        DumpLabel::Flat(capacity) => capacity,
        _ => panic!("expected a flat block"),
    };
    // A tenth of the cord is reserved behind a full block.
    let mut cord = scattered(9500, 95);
    let _shared = cord.clone();
    cord.append("!");
    assert_eq!(last_capacity(&cord), CordBuffer::with_capacity(950).capacity());
    // More bytes than that get a block of their own size.
    let mut cord = scattered(950, 95);
    let _shared = cord.clone();
    cord.append(&pattern(200));
    assert_eq!(last_capacity(&cord), CordBuffer::with_capacity(200).capacity());
    let mut cord = Cord::from("abc");
    cord.append(&pattern(97));
    assert_eq!(last_capacity(&cord), CordBuffer::with_capacity(100).capacity());
}

#[test]
fn forms_of_shared_buffers() {
    assert!(matches!(SharedForm::of(Cord::from("tiny")), SharedForm::Few(data) if data == b"tiny"));
    assert!(matches!(SharedForm::of(Cord::new()), SharedForm::Few(data) if data.is_empty()));
    let block = Cord::from(&pattern(100));
    let at = block_address(&block);
    match SharedForm::of(block) {
        SharedForm::Block(flat) => assert_eq!(flat.as_ref().as_ptr().addr(), at),
        _ => panic!("expected the block"),
    }
    assert!(matches!(SharedForm::of(scattered(100, 30)), SharedForm::Joined(data) if data == pattern(100)));
    // A few bytes in a block of their own are copied too.
    assert!(matches!(SharedForm::of(make_external(b"few")), SharedForm::Few(data) if data == b"few"));
}

#[test]
fn short_sources_of_several_blocks() {
    let sizes = |cord: &Cord| cord.chunks().collect().iter().map(|c| c.len()).collect::<Vec<usize>>();
    let mut cord = Cord::from("start");
    cord.append(&scattered(300, 90));
    assert_eq!(cord.len(), 305);
    assert!(cord.ends_with(&pattern(300)));
    // The bytes in place and the first part go into one block.
    assert_eq!(sizes(&cord)[0], 99);

    let mut cord = Cord::new();
    cord.extend_bytes(&pattern(1000));
    assert!(cord == pattern(1000));
    assert!(validate(&cord).is_ok());
}

#[test]
fn rests_in_place() {
    let mut cord = scattered(100, 30);
    cord.advance(90);
    assert!(is_tree(&cord) && cord.len() == 10);
    let head = cord.split_to(4);
    assert!(!is_tree(&head) && is_tree(&cord));
    let rest = cord.split_to(6);
    assert!(is_tree(&rest) && !is_tree(&cord));
    let mut cord = scattered(100, 30);
    let tail = cord.split_off(90);
    assert!(!is_tree(&tail) && is_tree(&cord));
    let whole = cord.split_off(0);
    assert!(is_tree(&whole) && !is_tree(&cord));
}
