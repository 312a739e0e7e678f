//! Positions in trees, and reading them chunk by chunk.

use cord_rs::rep::btree::{node_of, CordRepBtree, MAX_CAPACITY, MAX_HEIGHT};
use cord_rs::rep::edge::edge_data;
use cord_rs::rep::flat::CordRepFlat;
use cord_rs::rep::navigator::CordRepBtreeNavigator;
use cord_rs::rep::reader::CordRepBtreeReader;
use cord_rs::rep::valid::Validation;
use cord_rs::rep::{CordRep, CordRepSubstring};
use std::sync::Arc;

type Rep = Arc<CordRep>;

const CHARS: usize = 3;

/// Numbers of data edges.
const COUNTS: [usize; 7] = [
    1,
    MAX_CAPACITY - 1,
    MAX_CAPACITY,
    MAX_CAPACITY * MAX_CAPACITY - 1,
    MAX_CAPACITY * MAX_CAPACITY,
    MAX_CAPACITY * MAX_CAPACITY + 1,
    MAX_CAPACITY * MAX_CAPACITY * 2 + 17,
];

fn addr(rep: &Rep) -> usize {
    Arc::as_ptr(rep).addr()
}

fn make_flat(value: &[u8]) -> Rep {
    CordRep::flat(CordRepFlat::create(value, 0))
}

fn make_substring(start: usize, length: usize, child: Rep) -> Rep {
    Arc::new(CordRep::Substring(CordRepSubstring { start, length, child }))
}

fn create_random_string(n: usize) -> Vec<u8> {
    const DATA: &[u8] = b"abcdefghijklmnopqrstuvwxyz\
        ABCDEFGHIJKLMNOPQRSTUVWXYZ\
        0123456789~!@#$%^&*()_+=-<>?:\"{}[]|";
    let mut state = 1u64;
    (0..n)
        .map(|_| {
            state = state * 48271 % 2_147_483_647;
            DATA[state as usize % DATA.len()]
        })
        .collect()
}

fn tree_of(flats: Vec<Rep>) -> Rep {
    let mut it = flats.into_iter();
    let mut tree = CordRepBtree::create(it.next().unwrap());
    for flat in it {
        tree = CordRepBtree::append(tree, flat);
    }
    tree
}

fn to_bytes_into(rep: &Rep, out: &mut Vec<u8>) {
    match &**rep {
        CordRep::Btree(node) => {
            for edge in &node.edges {
                to_bytes_into(edge, out);
            }
        }
        _ => out.extend_from_slice(edge_data(rep)),
    }
}

fn to_bytes(rep: &Rep) -> Vec<u8> {
    let mut out = Vec::new();
    to_bytes_into(rep, &mut out);
    out
}

/// A tree of `count` flats of three bytes, one of which is replaced by a window.
struct Fixture {
    data: Vec<u8>,
    flats: Vec<usize>,
    tree: Rep,
}

impl Fixture {
    fn new(count: usize) -> Self {
        let data = create_random_string(count * CHARS);
        let mut flats: Vec<Rep> = data.chunks(CHARS).map(make_flat).collect();
        if count > 1 {
            flats[1] = make_substring(CHARS, CHARS, make_flat(&data));
        } else {
            flats[0] = make_substring(0, CHARS, make_flat(&data));
        }
        let addresses = flats.iter().map(addr).collect();
        Self { data, flats: addresses, tree: tree_of(flats) }
    }
}

#[test]
fn uninitialized() {
    let nav = CordRepBtreeNavigator::new();
    assert!(!nav.is_some());
    assert!(nav.btree().is_none());
}

#[test]
fn init_first() {
    for count in COUNTS {
        let f = Fixture::new(count);
        let mut nav = CordRepBtreeNavigator::new();
        let edge = nav.init_first(&f.tree);
        assert!(nav.is_some());
        assert_eq!(addr(nav.btree().unwrap()), addr(&f.tree));
        assert_eq!(addr(nav.current()), f.flats[0]);
        assert_eq!(addr(edge), f.flats[0]);
    }
}

#[test]
fn init_last() {
    for count in COUNTS {
        let f = Fixture::new(count);
        let mut nav = CordRepBtreeNavigator::new();
        let edge = nav.init_last(&f.tree);
        assert!(nav.is_some());
        assert_eq!(addr(nav.btree().unwrap()), addr(&f.tree));
        assert_eq!(addr(nav.current()), *f.flats.last().unwrap());
        assert_eq!(addr(edge), *f.flats.last().unwrap());
    }
}

#[test]
fn next_prev() {
    for count in COUNTS {
        let f = Fixture::new(count);
        let flats = &f.flats;
        let mut nav = CordRepBtreeNavigator::new();
        nav.init_first(&f.tree);

        assert!(nav.previous().is_none());
        assert_eq!(addr(nav.current()), flats[0]);
        for &flat in &flats[1..] {
            assert_eq!(nav.next().map(addr), Some(flat));
            assert_eq!(addr(nav.current()), flat);
        }
        assert!(nav.next().is_none());
        assert_eq!(addr(nav.current()), *flats.last().unwrap());
        for i in (1..flats.len()).rev() {
            assert_eq!(nav.previous().map(addr), Some(flats[i - 1]));
            assert_eq!(addr(nav.current()), flats[i - 1]);
        }
        assert!(nav.previous().is_none());
        assert_eq!(addr(nav.current()), flats[0]);
    }
}

#[test]
fn prev_next() {
    for count in COUNTS {
        let f = Fixture::new(count);
        let flats = &f.flats;
        let mut nav = CordRepBtreeNavigator::new();
        nav.init_last(&f.tree);

        assert!(nav.next().is_none());
        assert_eq!(addr(nav.current()), *flats.last().unwrap());
        for i in (1..flats.len()).rev() {
            assert_eq!(nav.previous().map(addr), Some(flats[i - 1]));
            assert_eq!(addr(nav.current()), flats[i - 1]);
        }
        assert!(nav.previous().is_none());
        assert_eq!(addr(nav.current()), flats[0]);
        for &flat in &flats[1..] {
            assert_eq!(nav.next().map(addr), Some(flat));
            assert_eq!(addr(nav.current()), flat);
        }
        assert!(nav.next().is_none());
        assert_eq!(addr(nav.current()), *flats.last().unwrap());
    }
}

#[test]
fn reset() {
    let tree = CordRepBtree::create(make_flat(b"abc"));
    let mut nav = CordRepBtreeNavigator::new();
    nav.init_first(&tree);
    nav.reset();
    assert!(!nav.is_some());
    assert!(nav.btree().is_none());
}

#[test]
fn navigator_tests_skip() {
    for count in COUNTS {
        let f = Fixture::new(count);
        let flats = &f.flats;
        let mut nav = CordRepBtreeNavigator::new();
        nav.init_first(&f.tree);

        for char_offset in 0..CHARS {
            let pos = nav.skip(char_offset);
            assert_eq!(pos.edge.map(addr), Some(addr(nav.current())));
            assert_eq!(pos.edge.map(addr), Some(flats[0]));
            assert_eq!(pos.offset, char_offset);
        }

        for index1 in 0..count {
            for index2 in index1..count {
                for char_offset in 0..CHARS {
                    let mut nav = CordRepBtreeNavigator::new();
                    nav.init_first(&f.tree);

                    let length1 = index1 * CHARS;
                    let pos1 = nav.skip(length1 + char_offset);
                    assert_eq!(pos1.edge.map(addr), Some(flats[index1]));
                    assert_eq!(addr(nav.current()), flats[index1]);
                    assert_eq!(pos1.offset, char_offset);

                    let length2 = index2 * CHARS;
                    let pos2 = nav.skip(length2 - length1 + char_offset);
                    assert_eq!(pos2.edge.map(addr), Some(flats[index2]));
                    assert_eq!(addr(nav.current()), flats[index2]);
                    assert_eq!(pos2.offset, char_offset);
                }
            }
        }
    }
}

#[test]
fn skip_reports_missing_bytes() {
    let f = Fixture::new(20);
    let mut nav = CordRepBtreeNavigator::new();
    nav.init_first(&f.tree);
    let pos = nav.skip(f.data.len() + 7);
    assert!(pos.edge.is_none());
    assert_eq!(pos.offset, 7);
    assert_eq!(addr(nav.current()), f.flats[0]);
}

#[test]
fn navigator_tests_seek() {
    for count in COUNTS {
        let f = Fixture::new(count);
        let flats = &f.flats;
        let mut nav = CordRepBtreeNavigator::new();
        nav.init_first(&f.tree);

        for char_offset in 0..CHARS {
            let pos = nav.seek(char_offset);
            assert_eq!(pos.edge.map(addr), Some(addr(nav.current())));
            assert_eq!(pos.edge.map(addr), Some(flats[0]));
            assert_eq!(pos.offset, char_offset);
        }

        for (index, &flat) in flats.iter().enumerate().take(count) {
            for char_offset in 0..CHARS {
                let offset = index * CHARS + char_offset;
                let pos1 = nav.seek(offset);
                assert_eq!(pos1.edge.map(addr), Some(flat));
                assert_eq!(addr(nav.current()), flat);
                assert_eq!(pos1.offset, char_offset);
            }
        }
    }
}

#[test]
fn init_offset() {
    let mut tree = CordRepBtree::create(make_flat(b"abc"));
    tree = CordRepBtree::append(tree, make_flat(b"def"));
    let mut nav = CordRepBtreeNavigator::new();
    let pos = nav.init_offset(&tree, 5);
    assert!(nav.is_some());
    assert_eq!(addr(nav.btree().unwrap()), addr(&tree));
    assert_eq!(pos.edge.map(addr), Some(addr(&node_of(&tree).edges[1])));
    assert_eq!(pos.edge.map(addr), Some(addr(nav.current())));
    assert_eq!(pos.offset, 2);
}

#[test]
fn init_offset_and_seek_beyond_length() {
    let tree1 = CordRepBtree::create(make_flat(b"abc"));
    let tree2 = CordRepBtree::create(make_flat(b"def"));

    let mut nav = CordRepBtreeNavigator::new();
    nav.init_first(&tree1);
    assert!(nav.seek(3).edge.is_none());
    assert!(nav.seek(100).edge.is_none());
    assert_eq!(addr(nav.btree().unwrap()), addr(&tree1));
    assert_eq!(addr(nav.current()), addr(&node_of(&tree1).edges[0]));

    assert!(nav.init_offset(&tree2, 3).edge.is_none());
    assert!(nav.init_offset(&tree2, 100).edge.is_none());
    assert_eq!(addr(nav.btree().unwrap()), addr(&tree1));
    assert_eq!(addr(nav.current()), addr(&node_of(&tree1).edges[0]));
}

#[test]
fn navigator_tests_read() {
    for count in COUNTS {
        let f = Fixture::new(count);
        let (flats, data) = (&f.flats, &f.data);
        for offset in 0..data.len() {
            for length in 1..=(data.len() - offset) {
                let mut nav = CordRepBtreeNavigator::new();
                nav.init_first(&f.tree);

                // Skip towards the edge holding offset.
                let edge_offset = nav.skip(offset).offset;

                // Read node.
                let result = nav.read(edge_offset, length);
                let tree = result.tree.unwrap();
                assert_eq!(tree.len(), length);
                if tree.is_btree() {
                    assert!(Validation::new().is_valid(&tree, false));
                }

                // Verify contents.
                assert_eq!(to_bytes(&tree), &data[offset..offset + length]);

                // Verify 'partial last edge' reads.
                let partial = (offset + length) % CHARS;
                assert_eq!(result.n, partial);

                // Verify ending position if not at the end.
                if offset + length < data.len() {
                    let index = (offset + length) / CHARS;
                    assert_eq!(addr(nav.current()), flats[index]);
                }
            }
        }
    }
}

#[test]
fn read_beyond_length_of_tree() {
    for count in COUNTS {
        let f = Fixture::new(count);
        let mut nav = CordRepBtreeNavigator::new();
        nav.init_first(&f.tree);
        let result = nav.read(2, f.tree.len());
        assert!(result.tree.is_none());
        assert_eq!(result.n, 2);
    }
}

#[test]
fn navigate_maximum_tree_depth() {
    let flat1 = make_flat(b"Hello world");
    let flat2 = make_flat(b"World Hello");

    let mut node = CordRepBtree::create(flat1.clone());
    node = CordRepBtree::append(node, flat2.clone());
    while node_of(&node).height < MAX_HEIGHT {
        node = CordRepBtree::new_with(node);
    }

    let mut nav = CordRepBtreeNavigator::new();
    let edge = nav.init_first(&node);
    assert_eq!(addr(edge), addr(&flat1));
    assert_eq!(nav.next().map(addr), Some(addr(&flat2)));
    assert!(nav.next().is_none());
    assert_eq!(nav.previous().map(addr), Some(addr(&flat1)));
    assert!(nav.previous().is_none());
}

#[test]
fn navigator_is_copy() {
    let tree = CordRepBtree::create(make_flat(b"abc"));
    let mut nav = CordRepBtreeNavigator::new();
    nav.init_first(&tree);
    let copy = nav.clone();
    assert_eq!(addr(copy.current()), addr(nav.current()));
}

// --- Reader -------------------------------------------------------------------

fn counts() -> Vec<usize> {
    let cap = MAX_CAPACITY;
    vec![1, 2, cap, cap * cap, cap * cap + 1, cap * cap * 2 + 17]
}

fn reader_tree(data: &[u8], chunk: usize) -> Rep {
    tree_of(data.chunks(chunk).map(make_flat).collect())
}

#[test]
fn next() {
    for count in counts() {
        let data = create_random_string(count * CHARS);
        let node = reader_tree(&data, CHARS);

        let mut reader = CordRepBtreeReader::new();
        let mut remaining = data.len();
        let mut chunk = reader.init(&node);
        assert_eq!(chunk, &data[..chunk.len()]);

        remaining -= chunk.len();
        assert_eq!(reader.remaining(), remaining);

        while remaining > 0 {
            let offset = data.len() - remaining;
            chunk = reader.next();
            assert_eq!(chunk, &data[offset..offset + chunk.len()]);
            remaining -= chunk.len();
            assert_eq!(reader.remaining(), remaining);
        }
        assert_eq!(reader.remaining(), 0);

        // Reading beyond the end returns nothing.
        assert!(reader.next().is_empty());
    }
}

#[test]
fn reader_tests_skip() {
    for count in counts() {
        let data = create_random_string(count * CHARS);
        let node = reader_tree(&data, CHARS);

        for skip1 in 0..(data.len() - CHARS) {
            for skip2 in 0..(data.len() - CHARS) {
                let mut reader = CordRepBtreeReader::new();
                let mut remaining = data.len();
                let mut chunk = reader.init(&node);
                remaining -= chunk.len();

                chunk = reader.skip(skip1);
                let offset = data.len() - remaining;
                assert_eq!(chunk, &data[offset + skip1..offset + skip1 + chunk.len()]);
                remaining -= chunk.len() + skip1;
                assert_eq!(reader.remaining(), remaining);

                if remaining == 0 {
                    continue;
                }

                let skip = (remaining - 1).min(skip2);
                chunk = reader.skip(skip);
                let offset = data.len() - remaining;
                assert_eq!(chunk, &data[offset + skip..offset + skip + chunk.len()]);
            }
        }
    }
}

#[test]
fn skip_beyond_length() {
    let mut tree = CordRepBtree::create(make_flat(b"abc"));
    tree = CordRepBtree::append(tree, make_flat(b"def"));
    let mut reader = CordRepBtreeReader::new();
    reader.init(&tree);
    assert!(reader.skip(100).is_empty());
    assert_eq!(reader.remaining(), 0);
}

#[test]
fn reader_tests_seek() {
    for count in counts() {
        let data = create_random_string(count * CHARS);
        let node = reader_tree(&data, CHARS);

        for seek in 0..(data.len() - 1) {
            let mut reader = CordRepBtreeReader::new();
            reader.init(&node);
            let chunk = reader.seek(seek);
            assert!(!chunk.is_empty());
            assert_eq!(chunk, &data[seek..seek + chunk.len()]);
            assert_eq!(reader.remaining(), data.len() - seek - chunk.len());
        }
    }
}

#[test]
fn seek_beyond_length() {
    let mut tree = CordRepBtree::create(make_flat(b"abc"));
    tree = CordRepBtree::append(tree, make_flat(b"def"));
    let mut reader = CordRepBtreeReader::new();
    reader.init(&tree);
    assert_eq!(reader.length(), 6);
    assert!(reader.seek(6).is_empty());
    assert_eq!(reader.remaining(), 0);
    assert!(reader.seek(100).is_empty());
    assert_eq!(reader.remaining(), 0);
}

#[test]
fn reader_tests_read() {
    let data = b"abcdefghijklmno";
    let node = reader_tree(data, 5);
    let mut reader = CordRepBtreeReader::new();

    // Read zero bytes.
    let chunk = reader.init(&node);
    let (chunk, tree) = reader.read(0, chunk.len());
    assert!(tree.is_none());
    assert_eq!(chunk, b"abcde");
    assert_eq!(reader.remaining(), 10);
    assert_eq!(reader.next(), b"fghij");

    // Read in full.
    let chunk = reader.init(&node);
    let (chunk, tree) = reader.read(15, chunk.len());
    assert_eq!(to_bytes(&tree.unwrap()), b"abcdefghijklmno");
    assert_eq!(chunk, b"");
    assert_eq!(reader.remaining(), 0);

    // Read < chunk bytes.
    let chunk = reader.init(&node);
    let (chunk, tree) = reader.read(3, chunk.len());
    assert_eq!(to_bytes(&tree.unwrap()), b"abc");
    assert_eq!(chunk, b"de");
    assert_eq!(reader.remaining(), 10);
    assert_eq!(reader.next(), b"fghij");

    // Read < chunk bytes at offset.
    let chunk = reader.init(&node);
    let (chunk, tree) = reader.read(2, chunk.len() - 2);
    assert_eq!(to_bytes(&tree.unwrap()), b"cd");
    assert_eq!(chunk, b"e");
    assert_eq!(reader.remaining(), 10);
    assert_eq!(reader.next(), b"fghij");

    // Read from consumed chunk.
    reader.init(&node);
    let (chunk, tree) = reader.read(3, 0);
    assert_eq!(to_bytes(&tree.unwrap()), b"fgh");
    assert_eq!(chunk, b"ij");
    assert_eq!(reader.remaining(), 5);
    assert_eq!(reader.next(), b"klmno");

    // Read across chunks.
    let chunk = reader.init(&node);
    let (chunk, tree) = reader.read(12, chunk.len() - 2);
    assert_eq!(to_bytes(&tree.unwrap()), b"cdefghijklmn");
    assert_eq!(chunk, b"o");
    assert_eq!(reader.remaining(), 0);

    // Read across chunks landing on an exact edge boundary.
    let chunk = reader.init(&node);
    let (chunk, tree) = reader.read(10 - 2, chunk.len() - 2);
    assert_eq!(to_bytes(&tree.unwrap()), b"cdefghij");
    assert_eq!(chunk, b"klmno");
    assert_eq!(reader.remaining(), 0);
}

#[test]
fn read_exhaustive() {
    let cap = MAX_CAPACITY;
    for count in [1, 2, cap, cap * cap + 1, cap * cap * cap * 2 + 17] {
        let data = create_random_string(count * CHARS);
        let node = reader_tree(&data, CHARS);

        for read_size in [CHARS - 1, CHARS, CHARS + 7, cap * cap] {
            let mut reader = CordRepBtreeReader::new();
            let mut chunk = reader.init(&node);

            let mut consumed = 0;
            let mut remaining = data.len();
            while remaining > 0 {
                let n = remaining.min(read_size);
                let (next_chunk, tree) = reader.read(n, chunk.len());
                chunk = next_chunk;
                assert_eq!(to_bytes(&tree.unwrap()), &data[consumed..consumed + n]);

                consumed += n;
                remaining -= n;
                assert_eq!(reader.remaining(), remaining - chunk.len());

                if remaining > 0 {
                    assert!(!chunk.is_empty());
                    assert_eq!(chunk, &data[consumed..consumed + chunk.len()]);
                } else {
                    assert!(chunk.is_empty());
                }
            }
        }
    }
}
