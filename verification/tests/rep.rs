//! Blocks, windows, reference counts and external blocks.

use bytes::Bytes;
use cord_rs::rep::btree::{CordRepBtree, BTREE_REP_SIZE};
use cord_rs::rep::edge::{
    create_substring, edge_data, is_data_edge, make_substring, make_substring_from, ref_get, resize_edge,
};
use cord_rs::rep::external::{Owner, EXTERNAL_REP_SIZE};
use cord_rs::rep::flat::{
    allocated_size_to_tag, round_up_for_tag, tag_to_allocated_size, tag_to_length, CordRepFlat, FLAT,
    FLAT_OVERHEAD, MAX_FLAT_LENGTH, MAX_FLAT_TAG, MAX_LARGE_FLAT_LENGTH, MAX_LARGE_FLAT_SIZE,
    MIN_FLAT_LENGTH, MIN_FLAT_SIZE,
};
use cord_rs::rep::refcount::Refcount;
use cord_rs::rep::{CordRep, CordRepSubstring, BTREE, EXTERNAL, MAX_INLINE, SUBSTRING};
use std::sync::atomic::{AtomicUsize, Ordering};
use std::sync::Arc;

const VALUE: &[u8] = b"Lorem ipsum dolor sit amet, consectetur adipiscing elit.";

fn make_flat(value: &[u8]) -> Arc<CordRep> {
    CordRep::flat(CordRepFlat::create(value, 0))
}

fn make_external(value: &[u8]) -> Arc<CordRep> {
    CordRep::external(Owner::Vector(value.to_vec()))
}

/// A window as it stands, also onto another window.
fn window(start: usize, length: usize, child: Arc<CordRep>) -> Arc<CordRep> {
    Arc::new(CordRep::Substring(CordRepSubstring { start, length, child }))
}

#[test]
fn header_layout() {
    // Length, count and tag stand before the payload of a flat block.
    assert_eq!(FLAT_OVERHEAD, 8 + 4 + 1);
    assert!(FLAT_OVERHEAD + 3 < MIN_FLAT_SIZE);
    assert!(MIN_FLAT_LENGTH > MAX_INLINE);
}

#[test]
fn refcount_basics() {
    let mut rc = Refcount::new();
    assert!(rc.is_one());
    assert_eq!(rc.get(), 1);
    rc.increment();
    assert!(!rc.is_one());
    assert_eq!(rc.get(), 2);
    assert!(rc.decrement());
    assert!(rc.is_one());
    assert!(!rc.decrement());
}

#[test]
fn refcount_last_reference() {
    let mut rc = Refcount::new();
    assert!(!rc.is_immortal());
    rc.increment();
    assert!(rc.decrement_expect_high_refcount());
    assert!(!rc.decrement_expect_high_refcount());
    assert_eq!(rc.get(), 0);
}

#[test]
fn tag_roundtrip() {
    let mut size = MIN_FLAT_SIZE;
    let mut expected_tag = FLAT;
    while size <= MAX_LARGE_FLAT_SIZE {
        assert_eq!(allocated_size_to_tag(size), expected_tag, "size {size}");
        assert_eq!(tag_to_allocated_size(expected_tag), size, "tag {expected_tag}");
        assert_eq!(round_up_for_tag(size), size);
        assert_eq!(tag_to_length(expected_tag), size - FLAT_OVERHEAD);
        let step = if size < 512 {
            8
        } else if size < 8192 {
            64
        } else {
            4096
        };
        size += step;
        expected_tag += 1;
    }
    assert_eq!(expected_tag, MAX_FLAT_TAG + 1);
}

#[test]
fn round_up_for_tag_rounds_to_next_step() {
    assert_eq!(round_up_for_tag(33), 40);
    assert_eq!(round_up_for_tag(512), 512);
    assert_eq!(round_up_for_tag(513), 576);
    assert_eq!(round_up_for_tag(8192), 8192);
    assert_eq!(round_up_for_tag(8193), 12288);
}

#[test]
fn new_and_delete_sizes() {
    for &len in &[
        0usize,
        1,
        MIN_FLAT_LENGTH,
        MIN_FLAT_LENGTH + 1,
        100,
        1000,
        MAX_FLAT_LENGTH,
        MAX_FLAT_LENGTH + 1,
        1 << 20,
    ] {
        let flat = CordRepFlat::new(len);
        assert_eq!(flat.len(), 0);
        let cap = flat.capacity();
        assert!(cap >= len.min(MAX_FLAT_LENGTH));
        assert!(cap <= MAX_FLAT_LENGTH);
        assert!(cap >= MIN_FLAT_LENGTH);
        let rep = CordRep::flat(flat);
        assert_eq!(ref_get(&rep), 1);
        assert_eq!(rep.len(), 0);
        assert!(rep.is_flat());

        let large = CordRepFlat::new_large(len);
        let cap = large.capacity();
        assert!(cap >= len.min(MAX_LARGE_FLAT_LENGTH));
        assert!(cap <= MAX_LARGE_FLAT_LENGTH);
    }
}

#[test]
fn create_copies_data() {
    let flat = CordRepFlat::create(b"hello world", 100);
    assert!(flat.capacity() >= 111);
    let rep = CordRep::flat(flat);
    assert_eq!(rep.len(), 11);
    assert_eq!(edge_data(&rep), b"hello world");
}

#[test]
fn is_data_edge_on_flat() {
    assert!(is_data_edge(&make_flat(VALUE)));
}

#[test]
fn is_data_edge_on_external() {
    assert!(is_data_edge(&make_external(VALUE)));
}

#[test]
fn is_data_edge_on_substring_of_flat() {
    assert!(is_data_edge(&window(1, 20, make_flat(VALUE))));
}

#[test]
fn is_data_edge_on_substring_of_external() {
    assert!(is_data_edge(&window(1, 20, make_external(VALUE))));
}

#[test]
fn is_data_edge_on_btree() {
    assert!(!is_data_edge(&CordRepBtree::new_with(make_flat(VALUE))));
}

#[test]
fn is_data_edge_on_bad_substr() {
    assert!(!is_data_edge(&window(1, 18, window(1, 20, make_flat(VALUE)))));
}

#[test]
fn edge_data_on_flat() {
    assert_eq!(edge_data(&make_flat(VALUE)), VALUE);
}

#[test]
fn edge_data_on_external() {
    assert_eq!(edge_data(&make_external(VALUE)), VALUE);
}

#[test]
fn edge_data_on_substring_of_flat() {
    assert_eq!(edge_data(&window(1, 20, make_flat(VALUE))), &VALUE[1..21]);
}

#[test]
fn edge_data_on_substring_of_external() {
    assert_eq!(edge_data(&window(1, 20, make_external(VALUE))), &VALUE[1..21]);
}

#[test]
fn edge_data_test() {
    let f = make_flat(b"Hello world");
    let external = make_external(b"Hello external");
    let substr1 = window(1, 6, f.clone());
    let substr2 = window(1, 6, external.clone());
    let bad_substr = window(1, 2, substr1.clone());

    assert!(is_data_edge(&f));
    assert_eq!(edge_data(&f), b"Hello world");

    assert!(is_data_edge(&external));
    assert_eq!(edge_data(&external), b"Hello external");

    assert!(is_data_edge(&substr1));
    assert_eq!(edge_data(&substr1).as_ptr(), edge_data(&f)[1..].as_ptr());
    assert_eq!(edge_data(&substr1), b"ello w");

    assert!(is_data_edge(&substr2));
    assert_eq!(edge_data(&substr2).as_ptr(), edge_data(&external)[1..].as_ptr());
    assert_eq!(edge_data(&substr2), b"ello e");

    assert!(!is_data_edge(&bad_substr));
}

#[test]
fn windows_onto_windows_are_folded() {
    let f = make_flat(VALUE);
    let outer = create_substring(f.clone(), 3, 40);
    let inner = create_substring(outer, 5, 10);
    assert_eq!(edge_data(&inner), &VALUE[8..18]);
    match &*inner {
        CordRep::Substring(sub) => {
            assert_eq!(sub.start, 8);
            assert!(Arc::ptr_eq(&sub.child, &f));
        }
        _ => panic!("expected a window"),
    }
    assert!(make_substring(f.clone(), 3, 0).is_none());
    assert!(Arc::ptr_eq(&make_substring(f.clone(), 0, VALUE.len()).unwrap(), &f));
    assert_eq!(edge_data(&make_substring_from(f.clone(), 6)), &VALUE[6..]);
}

#[test]
fn resize_in_place_only_if_private() {
    let f = make_flat(VALUE);
    let shared = f.clone();
    let resized = resize_edge(f, 5);
    assert!(resized.is_substring());
    assert_eq!(edge_data(&resized), b"Lorem");
    assert_eq!(edge_data(&shared), VALUE);

    drop(resized);
    let resized = resize_edge(shared, 5);
    assert!(resized.is_flat());
    assert_eq!(edge_data(&resized), b"Lorem");
}

#[test]
fn rep_ref_basic_accessors_on_flat() {
    let rep = make_flat(VALUE);
    assert_eq!(rep.len(), VALUE.len());
    assert!(rep.tag() >= FLAT);
    assert!(rep.is_flat());
    assert!(!rep.is_btree());
    assert!(!rep.is_external());
    assert!(!rep.is_substring());
    assert!(is_data_edge(&rep));
    assert_eq!(ref_get(&rep), 1);
    assert_eq!(edge_data(&rep), VALUE);
}

#[test]
fn rep_ref_basic_accessors_on_external() {
    let rep = make_external(VALUE);
    assert_eq!(rep.tag(), EXTERNAL);
    assert!(rep.is_external());
    assert!(!rep.is_flat());
    assert!(is_data_edge(&rep));
    assert_eq!(edge_data(&rep), VALUE);
}

#[test]
fn rep_ref_basic_accessors_on_substring() {
    let rep = window(1, 20, make_flat(VALUE));
    assert_eq!(rep.tag(), SUBSTRING);
    assert!(rep.is_substring());
    assert!(is_data_edge(&rep));
    assert_eq!(edge_data(&rep), &VALUE[1..21]);
}

#[test]
fn rep_ref_basic_accessors_on_btree() {
    let rep = CordRepBtree::new_with(make_flat(VALUE));
    assert_eq!(rep.tag(), BTREE);
    assert!(rep.is_btree());
    assert!(!is_data_edge(&rep));
}

#[test]
fn rep_ref_ref_is_one_reflects_sharing() {
    let rep = make_flat(VALUE);
    assert_eq!(ref_get(&rep), 1);
    let _second = rep.clone();
    assert_eq!(ref_get(&rep), 2);
}

#[test]
fn view_returns_flat() {
    match &*make_flat(VALUE) {
        CordRep::Flat(f) => {
            assert_eq!(f.data(), VALUE);
            assert_eq!(f.len(), VALUE.len());
        }
        _ => panic!("expected a flat block"),
    }
}

#[test]
fn view_returns_external() {
    match &*make_external(VALUE) {
        CordRep::External(e) => assert_eq!(e.data(), VALUE),
        _ => panic!("expected an external block"),
    }
}

#[test]
fn view_returns_substring() {
    match &*window(1, 20, make_flat(VALUE)) {
        CordRep::Substring(sub) => {
            assert_eq!(sub.start, 1);
            assert_eq!(edge_data(&sub.child), VALUE);
        }
        _ => panic!("expected a window"),
    }
}

#[test]
fn view_returns_btree() {
    match &*CordRepBtree::new_with(make_flat(VALUE)) {
        CordRep::Btree(b) => assert_eq!(b.height, 0),
        _ => panic!("expected a tree node"),
    }
}

#[test]
fn owned_rep_drop_decrements_and_clone_increments() {
    let owned = make_flat(VALUE);
    assert_eq!(ref_get(&owned), 1);
    let cloned = owned.clone();
    assert_eq!(ref_get(&owned), 2);
    assert_eq!(ref_get(&cloned), 2);
    assert_eq!(owned.len(), VALUE.len());
    drop(cloned);
    assert_eq!(ref_get(&owned), 1);
}

#[test]
fn rep_ref_to_owned_takes_a_fresh_reference() {
    let rep = make_flat(VALUE);
    let owned = Arc::clone(&rep);
    assert_eq!(ref_get(&rep), 2);
    assert_eq!(owned.len(), VALUE.len());
    drop(owned);
    assert_eq!(ref_get(&rep), 1);
}

#[test]
fn flat_ref_accessors() {
    let f = CordRepFlat::create(VALUE, 0);
    assert_eq!(f.len(), VALUE.len());
    assert_eq!(f.capacity(), f.allocated_size() - FLAT_OVERHEAD);
    assert_eq!(f.allocated_size(), tag_to_allocated_size(f.tag));
    assert_eq!(f.data(), VALUE);
}

#[test]
fn external_ref_accessors() {
    match &*make_external(VALUE) {
        CordRep::External(e) => {
            assert_eq!(e.len(), VALUE.len());
            assert_eq!(e.data(), VALUE);
            assert_eq!(e.allocated_size(), VALUE.len() + EXTERNAL_REP_SIZE);
        }
        _ => panic!("expected an external block"),
    }
}

#[test]
fn btree_ref_accessors_and_edges() {
    let mut tree = CordRepBtree::create(make_flat(b"0x0000"));
    for i in 1..3 {
        tree = CordRepBtree::append(tree, make_flat(format!("0x{i:04x}").as_bytes()));
    }
    match &*tree {
        CordRep::Btree(b) => {
            assert_eq!(b.height, 0);
            assert_eq!(b.length, tree.len());
            assert!(tree.is_btree());
            let collected: Vec<Vec<u8>> = b.edges.iter().map(|e| edge_data(e).to_vec()).collect();
            let expected: Vec<Vec<u8>> = (0..3).map(|i| format!("0x{i:04x}").into_bytes()).collect();
            assert_eq!(collected, expected);
        }
        _ => panic!("expected a tree node"),
    }
}

struct DropCounter(Vec<u8>, Arc<AtomicUsize>);

impl AsRef<[u8]> for DropCounter {
    fn as_ref(&self) -> &[u8] {
        &self.0
    }
}

impl Drop for DropCounter {
    fn drop(&mut self) {
        self.1.fetch_add(1, Ordering::SeqCst);
    }
}

#[test]
fn external_rep_drops_owner_once() {
    let drops = Arc::new(AtomicUsize::new(0));
    let owner = DropCounter(b"external data".to_vec(), drops.clone());
    let rep = CordRep::external(Owner::Buffer(Bytes::from_owner(owner)));
    assert!(rep.is_external());
    assert_eq!(rep.len(), 13);
    assert_eq!(edge_data(&rep), b"external data");
    let second = rep.clone();
    drop(second);
    assert_eq!(drops.load(Ordering::SeqCst), 0);
    drop(rep);
    assert_eq!(drops.load(Ordering::SeqCst), 1);
}

#[test]
fn generic_and_global_owners() {
    let rep = CordRep::external(Owner::Static(b"static bytes"));
    assert_eq!(edge_data(&rep), b"static bytes");

    let boxed: Box<[u8]> = vec![7u8; 10_000].into_boxed_slice();
    let rep = CordRep::external(Owner::Boxed(boxed));
    assert_eq!(edge_data(&rep).len(), 10_000);
    assert!(edge_data(&rep).iter().all(|&b| b == 7));

    let string = String::from("owned string data");
    let rep = CordRep::external(Owner::Text(string));
    assert_eq!(edge_data(&rep), b"owned string data");

    let arc: Arc<[u8]> = Arc::from(&b"arc bytes"[..]);
    let rep = CordRep::external(Owner::SharedSlice(arc.clone()));
    assert_eq!(Arc::strong_count(&arc), 2);
    drop(rep);
    assert_eq!(Arc::strong_count(&arc), 1);
}

#[test]
fn every_owner_gives_its_bytes() {
    let text = "r\u{e9}sum\u{e9}";
    let bytes = text.as_bytes();
    for owner in [
        Owner::Vector(bytes.to_vec()),
        Owner::Text(text.to_string()),
        Owner::Boxed(bytes.into()),
        Owner::SharedSlice(Arc::from(bytes)),
        Owner::SharedVector(Arc::new(bytes.to_vec())),
        Owner::SharedStr(Arc::from(text)),
        Owner::SharedText(Arc::new(text.to_string())),
        Owner::StaticStr("r\u{e9}sum\u{e9}"),
        Owner::Buffer(Bytes::copy_from_slice(bytes)),
    ] {
        assert_eq!(owner.as_bytes(), bytes);
    }
}

#[test]
fn global_owners_preserve_payload_pointer() {
    let vec = vec![1u8; 4096];
    let expected = vec.as_ptr();
    let rep = CordRep::external(Owner::Vector(vec));
    assert_eq!(edge_data(&rep).as_ptr(), expected);

    let string = "x".repeat(4096);
    let expected = string.as_ptr();
    let rep = CordRep::external(Owner::Text(string));
    assert_eq!(edge_data(&rep).as_ptr(), expected);

    let boxed = vec![2u8; 4096].into_boxed_slice();
    let expected = boxed.as_ptr();
    let rep = CordRep::external(Owner::Boxed(boxed));
    assert_eq!(edge_data(&rep).as_ptr(), expected);
}

#[test]
fn global_node_matches_accounted_size() {
    // A header, the base of the bytes, how to release them, and the size of their allocation.
    assert_eq!(EXTERNAL_REP_SIZE, 16 + 8 + 8 + 8);
    assert_eq!(EXTERNAL_REP_SIZE, 40);
}

#[test]
fn size_is_multiple_of_64() {
    assert_eq!(BTREE_REP_SIZE % 64, 0, "Should be multiple of 64");
}

#[test]
fn filling_a_block() {
    let mut flat = CordRepFlat::new(30);
    assert_eq!(flat.capacity(), 35);
    assert_eq!(flat.fill(&[b'a'; 30]), 30);
    assert_eq!(flat.fill(&[b'b'; 30]), 5);
    assert_eq!(flat.fill(b"c"), 0);
    assert_eq!(flat.len(), 35);
    assert_eq!(&flat.data()[28..], b"aabbbbb");
}
