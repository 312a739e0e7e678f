//! Trees: building, merging, cutting, checking and rebuilding them.

use cord_rs::rep::btree::{node_of, CordRepBtree, MAX_CAPACITY, MAX_HEIGHT};
use cord_rs::rep::dump::{dump as dump_lines, DumpLabel};
use cord_rs::rep::edge::{edge_data, ref_get};
use cord_rs::rep::external::Owner;
use cord_rs::rep::flat::{CordRepFlat, MAX_FLAT_LENGTH};
use cord_rs::rep::rebuild::rebuild as rebuild_tree;
use cord_rs::rep::extract::extract_block;
use cord_rs::rep::stack::StackOperations;
use cord_rs::rep::subtree::{append_in_place, append_to_last};
use cord_rs::rep::valid::{Invalid, Validation};
use cord_rs::rep::{CordRep, CordRepSubstring};
use std::collections::VecDeque;
use std::sync::Arc;

type Rep = Arc<CordRep>;

const SHARED: [bool; 2] = [false, true];
const DUAL: [(bool, bool); 4] = [(false, false), (false, true), (true, false), (true, true)];

// --- Helpers ----------------------------------------------------------------

fn addr(rep: &Rep) -> usize {
    Arc::as_ptr(rep).addr()
}

fn make_flat(value: &[u8]) -> Rep {
    assert!(value.len() <= MAX_FLAT_LENGTH);
    CordRep::flat(CordRepFlat::create(value, 0))
}

fn make_external(value: &[u8]) -> Rep {
    CordRep::external(Owner::Vector(value.to_vec()))
}

fn make_substring(start: usize, length: usize, child: Rep) -> Rep {
    Arc::new(CordRep::Substring(CordRepSubstring { start, length, child }))
}

fn make_hex_flat(i: usize) -> Rep {
    make_flat(format!("0x{i:04x}").as_bytes())
}

fn flat_room(rep: &Rep) -> usize {
    match &**rep {
        CordRep::Flat(flat) => flat.capacity() - flat.len(),
        _ => panic!("expected a flat block"),
    }
}

struct MinstdRand(u32);

impl MinstdRand {
    fn new() -> Self {
        Self(1)
    }

    fn next_u32(&mut self) -> u32 {
        self.0 = ((u64::from(self.0) * 48271) % 2_147_483_647) as u32;
        self.0
    }

    fn uniform(&mut self, lo: usize, hi: usize) -> usize {
        lo + (self.next_u32() as usize) % (hi - lo + 1)
    }
}

fn create_random_string(n: usize) -> Vec<u8> {
    const DATA: &[u8] = b"abcdefghijklmnopqrstuvwxyz\
        ABCDEFGHIJKLMNOPQRSTUVWXYZ\
        0123456789~!@#$%^&*()_+=-<>?:\"{}[]|";
    let mut rnd = MinstdRand::new();
    (0..n).map(|_| DATA[rnd.uniform(0, DATA.len() - 1)]).collect()
}

fn create_flats_from_string(data: &[u8], chunk_size: usize) -> Vec<Rep> {
    data.chunks(chunk_size).map(make_flat).collect()
}

/// A tree of `flats`, which it takes over.
fn create_tree(flats: Vec<Rep>) -> Rep {
    let mut it = flats.into_iter();
    let mut tree = CordRepBtree::create(it.next().unwrap());
    for flat in it {
        tree = CordRepBtree::append(tree, flat);
    }
    tree
}

fn create_tree_from_string(data: &[u8], chunk_size: usize) -> Rep {
    create_tree(create_flats_from_string(data, chunk_size))
}

fn create_tree_reverse(data: &[u8], chunk_size: usize) -> Rep {
    let mut it = create_flats_from_string(data, chunk_size).into_iter().rev();
    let mut tree = CordRepBtree::create(it.next().unwrap());
    for flat in it {
        tree = CordRepBtree::prepend(tree, flat);
    }
    tree
}

fn make_leaf(size: usize) -> Rep {
    assert!(size <= MAX_CAPACITY);
    make_tree(size, true)
}

fn make_tree(size: usize, append: bool) -> Rep {
    let mut tree = CordRepBtree::create(make_hex_flat(0));
    for i in 1..size {
        tree = if append {
            CordRepBtree::append(tree, make_hex_flat(i))
        } else {
            CordRepBtree::prepend(tree, make_hex_flat(i))
        };
    }
    tree
}

fn height(rep: &Rep) -> usize {
    node_of(rep).height
}

fn edges_of(rep: &Rep) -> Vec<usize> {
    node_of(rep).edges.iter().map(addr).collect()
}

fn leaf_edges_into(rep: &Rep, edges: &mut Vec<usize>) {
    for edge in &node_of(rep).edges {
        if edge.is_btree() {
            leaf_edges_into(edge, edges);
        } else {
            edges.push(addr(edge));
        }
    }
}

fn get_leaf_edges(rep: &Rep) -> Vec<usize> {
    let mut edges = Vec::new();
    leaf_edges_into(rep, &mut edges);
    edges
}

fn to_bytes_into(rep: &Rep, out: &mut Vec<u8>) {
    match &**rep {
        CordRep::Btree(node) => {
            for edge in &node.edges {
                to_bytes_into(edge, out);
            }
        }
        _ => out.extend_from_slice(edge_data(rep)),
    }
}

fn to_bytes(rep: &Rep) -> Vec<u8> {
    let mut out = Vec::new();
    to_bytes_into(rep, &mut out);
    out
}

fn is_ok(rep: &Rep, shallow: bool) -> bool {
    Validation::new().is_valid(rep, shallow)
}

/// A valid tree node of the given height.
fn is_node(rep: &Rep, wanted: usize) -> bool {
    rep.is_btree() && Validation::new().check_valid(rep, false).is_ok() && height(rep) == wanted
}

fn is_substring(rep: &Rep, start: usize, length: usize) -> bool {
    match &**rep {
        CordRep::Substring(sub) => sub.start == start && sub.length == length,
        _ => false,
    }
}

fn child_of(rep: &Rep) -> usize {
    match &**rep {
        CordRep::Substring(sub) => addr(&sub.child),
        _ => panic!("expected a window"),
    }
}

/// Keeps handles alive.
struct Refs(Vec<Rep>);

impl Refs {
    fn new() -> Self {
        Refs(Vec::new())
    }

    fn add(&mut self, rep: &Rep) {
        self.0.push(rep.clone());
    }

    fn add_if(&mut self, condition: bool, rep: &Rep) {
        if condition {
            self.add(rep);
        }
    }
}

/// Hands out pieces of data, forwards or backwards.
struct DataConsumer<'a> {
    data: &'a [u8],
    consumed: usize,
    forward: bool,
}

impl<'a> DataConsumer<'a> {
    fn new(data: &'a [u8], forward: bool) -> Self {
        Self { data, consumed: 0, forward }
    }

    fn next(&mut self, n: usize) -> &'a [u8] {
        assert!(n <= self.data.len() - self.consumed);
        self.consumed += n;
        let start = if self.forward { self.consumed - n } else { self.data.len() - self.consumed };
        &self.data[start..start + n]
    }

    fn consumed(&self) -> &'a [u8] {
        if self.forward { &self.data[..self.consumed] } else { &self.data[self.data.len() - self.consumed..] }
    }
}

fn btree_add(node: Rep, append: bool, data: &[u8]) -> Rep {
    if append {
        CordRepBtree::append_data(node, data, 0)
    } else {
        CordRepBtree::prepend_data(node, data, 0)
    }
}

// --- Construction -----------------------------------------------------------

#[test]
fn new_destroy_empty_tree() {
    let tree = CordRepBtree::new_node(0);
    assert_eq!(tree.size(), 0);
    assert_eq!(tree.height, 0);
    assert!(tree.edges.is_empty());
}

#[test]
fn new_destroy_empty_tree_at_height() {
    let tree = CordRepBtree::new_node(3);
    assert_eq!(tree.size(), 0);
    assert_eq!(tree.height, 3);
    assert!(tree.edges.is_empty());
}

#[test]
fn btree() {
    let rep = Arc::new(CordRep::Btree(CordRepBtree::new_node(0)));
    assert!(rep.is_btree());
    assert_eq!(node_of(&rep).size(), 0);
}

#[test]
fn create_unref_leaf() {
    let f = make_flat(b"a");
    let flat = addr(&f);
    let leaf = CordRepBtree::create(f);
    assert_eq!(node_of(&leaf).size(), 1);
    assert_eq!(height(&leaf), 0);
    assert_eq!(edges_of(&leaf), vec![flat]);
}

#[test]
fn new_unref_node() {
    let leaf = CordRepBtree::create(make_flat(b"a"));
    let below = addr(&leaf);
    let tree = CordRepBtree::new_with(leaf);
    assert_eq!(node_of(&tree).size(), 1);
    assert_eq!(height(&tree), 1);
    assert_eq!(edges_of(&tree), vec![below]);
}

#[test]
fn create_from_tree_returns_tree() {
    for shared in SHARED {
        let mut refs = Refs::new();
        let leaf = CordRepBtree::create(make_flat(b"Hello world"));
        refs.add_if(shared, &leaf);
        let before = addr(&leaf);
        let result = CordRepBtree::create(leaf);
        assert_eq!(addr(&result), before);
    }
}

// --- Appending and prepending -----------------------------------------------

#[test]
fn append_to_leaf_to_capacity() {
    for shared in SHARED {
        let mut refs = Refs::new();
        let first = make_hex_flat(0);
        let mut flats = vec![addr(&first)];
        let mut leaf = CordRepBtree::create(first);
        for i in 1..MAX_CAPACITY {
            refs.add_if(shared, &leaf);
            let flat = make_hex_flat(i);
            flats.push(addr(&flat));
            let before = addr(&leaf);
            let result = CordRepBtree::append(leaf, flat);
            assert_eq!(height(&result), 0);
            assert_eq!(addr(&result) != before, shared, "shared = {shared}");
            assert_eq!(edges_of(&result), flats);
            leaf = result;
        }
    }
}

#[test]
fn prepend_to_leaf_to_capacity() {
    for shared in SHARED {
        let mut refs = Refs::new();
        let first = make_hex_flat(0);
        let mut flats = VecDeque::new();
        flats.push_front(addr(&first));
        let mut leaf = CordRepBtree::create(first);
        for i in 1..MAX_CAPACITY {
            refs.add_if(shared, &leaf);
            let flat = make_hex_flat(i);
            flats.push_front(addr(&flat));
            let before = addr(&leaf);
            let result = CordRepBtree::prepend(leaf, flat);
            assert_eq!(height(&result), 0);
            assert_eq!(addr(&result) != before, shared, "shared = {shared}");
            assert_eq!(edges_of(&result), Vec::from(flats.clone()));
            leaf = result;
        }
    }
}

#[test]
fn append_prepend_to_leaf_to_capacity() {
    for shared in SHARED {
        let mut refs = Refs::new();
        let first = make_hex_flat(0);
        let mut flats = VecDeque::new();
        flats.push_front(addr(&first));
        let mut leaf = CordRepBtree::create(first);
        for i in 1..MAX_CAPACITY {
            refs.add_if(shared, &leaf);
            let before = addr(&leaf);
            let flat = make_hex_flat(i);
            let result = if i % 2 != 0 {
                flats.push_front(addr(&flat));
                CordRepBtree::prepend(leaf, flat)
            } else {
                flats.push_back(addr(&flat));
                CordRepBtree::append(leaf, flat)
            };
            assert_eq!(height(&result), 0);
            assert_eq!(addr(&result) != before, shared, "shared = {shared}");
            assert_eq!(edges_of(&result), Vec::from(flats.clone()));
            leaf = result;
        }
    }
}

#[test]
fn append_to_leaf_beyond_capacity() {
    for shared in SHARED {
        let mut refs = Refs::new();
        let leaf = make_leaf(MAX_CAPACITY);
        refs.add_if(shared, &leaf);
        let before = addr(&leaf);
        let f = make_flat(b"abc");
        let flat = addr(&f);
        let result = CordRepBtree::append(leaf, f);
        assert!(is_node(&result, 1));
        assert_ne!(addr(&result), before);
        let edges = &node_of(&result).edges;
        assert_eq!(edges.len(), 2);
        assert_eq!(addr(&edges[0]), before);
        assert!(is_node(&edges[1], 0));
        assert_eq!(edges_of(&edges[1]), vec![flat]);
    }
}

#[test]
fn prepend_to_leaf_beyond_capacity() {
    for shared in SHARED {
        let mut refs = Refs::new();
        let leaf = make_leaf(MAX_CAPACITY);
        refs.add_if(shared, &leaf);
        let before = addr(&leaf);
        let f = make_flat(b"abc");
        let flat = addr(&f);
        let result = CordRepBtree::prepend(leaf, f);
        assert!(is_node(&result, 1));
        assert_ne!(addr(&result), before);
        let edges = &node_of(&result).edges;
        assert_eq!(edges.len(), 2);
        assert!(is_node(&edges[0], 0));
        assert_eq!(addr(&edges[1]), before);
        assert_eq!(edges_of(&edges[0]), vec![flat]);
    }
}

#[test]
fn append_to_tree_one_deep() {
    let max_cap = MAX_CAPACITY;
    for shared in SHARED {
        let mut refs = Refs::new();
        let first = make_hex_flat(0);
        let mut flats = vec![addr(&first)];
        let mut tree = CordRepBtree::create(first);
        for i in 1..=max_cap {
            let flat = make_hex_flat(i);
            flats.push(addr(&flat));
            tree = CordRepBtree::append(tree, flat);
        }
        assert!(is_node(&tree, 1));

        for i in (max_cap + 1)..(max_cap * max_cap) {
            refs.add_if(shared, &tree);
            refs.add_if(i % 4 == 0, node_of(&tree).edges.last().unwrap());

            let flat = make_hex_flat(i);
            flats.push(addr(&flat));
            let before = addr(&tree);
            let result = CordRepBtree::append(tree, flat);
            assert!(is_node(&result, 1));
            assert_eq!(addr(&result) != before, shared, "shared = {shared}");
            assert_eq!(get_leaf_edges(&result), flats);
            tree = result;
        }
    }
}

#[test]
fn append_to_tree_two_deep() {
    let max_cap = MAX_CAPACITY;
    for shared in SHARED {
        let mut refs = Refs::new();
        let first = make_hex_flat(0);
        let mut flats = vec![addr(&first)];
        let mut tree = CordRepBtree::create(first);
        for i in 1..=(max_cap * max_cap) {
            let flat = make_hex_flat(i);
            flats.push(addr(&flat));
            tree = CordRepBtree::append(tree, flat);
        }
        assert!(is_node(&tree, 2));
        for i in (max_cap * max_cap + 1)..(max_cap * max_cap * max_cap) {
            refs.add_if(shared, &tree);
            let back = node_of(&tree).edges.last().unwrap();
            refs.add_if(i % 16 == 0, back);
            refs.add_if(i % 4 == 0, node_of(back).edges.last().unwrap());

            let flat = make_hex_flat(i);
            flats.push(addr(&flat));
            let before = addr(&tree);
            let result = CordRepBtree::append(tree, flat);
            assert!(is_node(&result, 2));
            assert_eq!(addr(&result) != before, shared, "shared = {shared}");
            assert_eq!(get_leaf_edges(&result), flats);
            tree = result;
        }
    }
}

#[test]
fn prepend_to_tree_one_deep() {
    let max_cap = MAX_CAPACITY;
    for shared in SHARED {
        let mut refs = Refs::new();
        let first = make_hex_flat(0);
        let mut flats = VecDeque::new();
        flats.push_back(addr(&first));
        let mut tree = CordRepBtree::create(first);
        for i in 1..=max_cap {
            let flat = make_hex_flat(i);
            flats.push_front(addr(&flat));
            tree = CordRepBtree::prepend(tree, flat);
        }
        assert!(is_node(&tree, 1));

        for i in (max_cap + 1)..(max_cap * max_cap) {
            refs.add_if(shared, &tree);
            refs.add_if(i % 4 == 0, node_of(&tree).edges.last().unwrap());

            let flat = make_hex_flat(i);
            flats.push_front(addr(&flat));
            let before = addr(&tree);
            let result = CordRepBtree::prepend(tree, flat);
            assert!(is_node(&result, 1));
            assert_eq!(addr(&result) != before, shared, "shared = {shared}");
            assert_eq!(get_leaf_edges(&result), Vec::from(flats.clone()));
            tree = result;
        }
    }
}

#[test]
fn prepend_to_tree_two_deep() {
    let max_cap = MAX_CAPACITY;
    for shared in SHARED {
        let mut refs = Refs::new();
        let first = make_hex_flat(0);
        let mut flats = VecDeque::new();
        flats.push_back(addr(&first));
        let mut tree = CordRepBtree::create(first);
        for i in 1..=(max_cap * max_cap) {
            let flat = make_hex_flat(i);
            flats.push_front(addr(&flat));
            tree = CordRepBtree::prepend(tree, flat);
        }
        assert!(is_node(&tree, 2));
        for i in (max_cap * max_cap + 1)..(max_cap * max_cap * max_cap) {
            refs.add_if(shared, &tree);
            let back = node_of(&tree).edges.last().unwrap();
            refs.add_if(i % 16 == 0, back);
            refs.add_if(i % 4 == 0, node_of(back).edges.last().unwrap());

            let flat = make_hex_flat(i);
            flats.push_front(addr(&flat));
            let before = addr(&tree);
            let result = CordRepBtree::prepend(tree, flat);
            assert!(is_node(&result, 2));
            assert_eq!(addr(&result) != before, shared, "shared = {shared}");
            assert_eq!(get_leaf_edges(&result), Vec::from(flats.clone()));
            tree = result;
        }
    }
}

// --- Merging ----------------------------------------------------------------

fn merge(use_append: bool, left: Rep, right: Rep) -> Rep {
    if use_append {
        CordRepBtree::append(left, right)
    } else {
        CordRepBtree::prepend(right, left)
    }
}

#[test]
fn merge_leafs_not_exceeding_capacity() {
    for (first_shared, second_shared) in DUAL {
        for use_append in [false, true] {
            let mut refs = Refs::new();
            let mut flats = Vec::new();
            let left = make_leaf(3);
            leaf_edges_into(&left, &mut flats);
            refs.add_if(first_shared, &left);
            let right = make_leaf(2);
            leaf_edges_into(&right, &mut flats);
            refs.add_if(second_shared, &right);

            let tree = merge(use_append, left, right);
            assert!(is_node(&tree, 0));
            assert_eq!(
                edges_of(&tree),
                flats,
                "append = {use_append}, shared = {first_shared}/{second_shared}"
            );
        }
    }
}

#[test]
fn merge_leafs_exceeding_capacity() {
    for (first_shared, second_shared) in DUAL {
        for use_append in [false, true] {
            let mut refs = Refs::new();
            let left = make_leaf(MAX_CAPACITY - 2);
            refs.add_if(first_shared, &left);
            let right = make_leaf(MAX_CAPACITY - 1);
            refs.add_if(second_shared, &right);
            let expected = vec![addr(&left), addr(&right)];

            let tree = merge(use_append, left, right);
            assert!(is_node(&tree, 1));
            assert_eq!(edges_of(&tree), expected);
        }
    }
}

fn merge_trees_case(left_size: usize, right_size: usize, expected_size: usize) {
    for (first_shared, second_shared) in DUAL {
        for use_append in [false, true] {
            let mut refs = Refs::new();
            let mut flats = Vec::new();
            let left = make_tree(left_size, true);
            leaf_edges_into(&left, &mut flats);
            refs.add_if(first_shared, &left);
            let right = make_tree(right_size, true);
            leaf_edges_into(&right, &mut flats);
            refs.add_if(second_shared, &right);

            let tree = merge(use_append, left, right);
            assert!(is_node(&tree, 1));
            assert_eq!(node_of(&tree).size(), expected_size);
            assert_eq!(get_leaf_edges(&tree), flats);
        }
    }
}

#[test]
fn merge_equal_height_trees() {
    merge_trees_case(MAX_CAPACITY * 3, MAX_CAPACITY * 2, 5);
}

#[test]
fn merge_leaf_with_tree_not_exceeding_leaf_capacity() {
    merge_trees_case(MAX_CAPACITY * 2 + 2, 3, 3);
}

#[test]
fn merge_leaf_with_tree_exceeding_leaf_capacity() {
    merge_trees_case(MAX_CAPACITY * 3 - 2, 3, 4);
}

fn ref_edges_at(depth: usize, refs: &mut Refs, tree: &Rep) {
    let edges = &node_of(tree).edges;
    if depth == 0 {
        refs.add(&edges[0]);
        refs.add(edges.last().unwrap());
    } else {
        assert!(height(tree) > 0);
        ref_edges_at(depth - 1, refs, &edges[0]);
        ref_edges_at(depth - 1, refs, edges.last().unwrap());
    }
}

#[test]
fn merge_fuzz_test() {
    let max_cap = MAX_CAPACITY;
    let mut rnd = MinstdRand::new();
    for _ in 0..3000 {
        let random_leaf_count = |rnd: &mut MinstdRand| {
            let height = rnd.uniform(0, 3);
            let leaf = rnd.uniform(0, max_cap - 1);
            (if height > 0 { max_cap.pow(height as u32) } else { 0 }) + leaf
        };
        let mut refs = Refs::new();
        let mut flats = Vec::new();

        let count = random_leaf_count(&mut rnd);
        let append = rnd.uniform(0, 1) == 1;
        let left = make_tree(count, append);
        leaf_edges_into(&left, &mut flats);
        if rnd.uniform(1, 6) == 1 {
            let depth = rnd.uniform(0, height(&left));
            ref_edges_at(depth, &mut refs, &left);
        }

        let count = random_leaf_count(&mut rnd);
        let append = rnd.uniform(0, 1) == 1;
        let right = make_tree(count, append);
        leaf_edges_into(&right, &mut flats);
        if rnd.uniform(1, 6) == 1 {
            let depth = rnd.uniform(0, height(&right));
            ref_edges_at(depth, &mut refs, &right);
        }

        let tree = CordRepBtree::append(left, right);
        assert!(is_ok(&tree, false));
        assert_eq!(get_leaf_edges(&tree), flats);
    }
}

// --- Cutting ----------------------------------------------------------------

fn collect_flats(rep: &Rep, out: &mut Vec<Rep>) {
    match &**rep {
        CordRep::Btree(node) => {
            for edge in &node.edges {
                collect_flats(edge, out);
            }
        }
        CordRep::Substring(sub) => collect_flats(&sub.child, out),
        CordRep::Flat(_) => out.push(rep.clone()),
        CordRep::External(_) => {}
    }
}

#[test]
fn remove_suffix() {
    let max_cap = MAX_CAPACITY;
    for shared in SHARED {
        for cap in [max_cap - 1, max_cap * 2, max_cap * max_cap * 2] {
            let data = create_random_string(cap * 512);
            {
                let mut refs = Refs::new();
                let node = create_tree_from_string(&data, 512);
                refs.add_if(shared, &node);
                assert!(CordRepBtree::remove_suffix(node, data.len()).is_none());

                let node = create_tree_from_string(&data, 512);
                refs.add_if(shared, &node);
                let before = addr(&node);
                assert_eq!(addr(&CordRepBtree::remove_suffix(node, 0).unwrap()), before);
            }

            let step = if cap > max_cap * 2 { 7 } else { 1 };
            for n in (1..data.len()).step_by(step) {
                let mut refs = Refs::new();
                let flats = create_flats_from_string(&data, 512);
                let addresses: Vec<usize> = flats.iter().map(addr).collect();
                let node = create_tree(flats);
                refs.add_if(shared, &node);
                let rep = CordRepBtree::remove_suffix(node, n).unwrap();
                assert_eq!(rep.len(), data.len() - n);
                assert_eq!(to_bytes(&rep), &data[..data.len() - n]);

                let mut edges = Vec::new();
                collect_flats(&rep, &mut edges);
                assert!(edges.len() <= addresses.len());

                let last_edge = edges.pop().unwrap();
                let last_length = rep.len() - edges.len() * 512;

                let mut index = 0;
                for edge in edges {
                    assert_eq!(addr(&edge), addresses[index]);
                    index += 1;
                    assert_eq!(edge.len(), 512);
                }

                if last_length >= 500 {
                    assert_eq!(addr(&last_edge), addresses[index]);
                    if shared {
                        assert_eq!(last_edge.len(), 512);
                    } else {
                        // The tree and `last_edge` hold it.
                        assert_eq!(ref_get(&last_edge), 2);
                        assert_eq!(last_edge.len(), last_length);
                    }
                }
            }
        }
    }
}

#[test]
fn sub_tree() {
    let max_cap = MAX_CAPACITY;
    let n = max_cap * max_cap * 2;
    let data = create_random_string(n * 3);
    let flats: Vec<Rep> = data.chunks(3).map(make_flat).collect();
    let mut node = CordRepBtree::create(flats[0].clone());
    for f in &flats[1..] {
        node = CordRepBtree::append(node, f.clone());
    }
    for offset in 0..data.len() {
        for length in 1..=(data.len() - offset) {
            let rep = CordRepBtree::sub_tree(&node, offset, length).unwrap();
            assert_eq!(to_bytes(&rep), &data[offset..offset + length], "offset {offset} length {length}");
            if rep.is_btree() {
                assert!(is_ok(&rep, false));
            }
        }
    }
    assert!(CordRepBtree::sub_tree(&node, 5, 0).is_none());
}

#[test]
fn sub_tree_on_existing_substring() {
    let data = create_random_string(1000);
    let mut leaf = CordRepBtree::create(make_flat(b"abc"));
    let f = make_flat(&data);
    let flat = addr(&f);
    leaf = CordRepBtree::append(leaf, f);

    let result = CordRepBtree::sub_tree(&leaf, 0, 3 + 990).unwrap();
    assert!(result.is_btree());
    leaf = result;
    let edges = &node_of(&leaf).edges;
    assert_eq!(edges.len(), 2);
    assert!(is_substring(&edges[1], 0, 990));
    assert_eq!(child_of(&edges[1]), flat);

    let result = CordRepBtree::sub_tree(&leaf, 3 + 5, 970).unwrap();
    assert!(is_substring(&result, 5, 970));
    assert_eq!(child_of(&result), flat);
}

// --- Adding data ------------------------------------------------------------

#[test]
fn add_data_to_leaf() {
    let n = MAX_CAPACITY;
    let data = create_random_string(n * 3);
    for shared in SHARED {
        for append in [true, false] {
            let mut refs = Refs::new();
            let mut consumer = DataConsumer::new(&data, append);
            let mut leaf = CordRepBtree::create(make_flat(consumer.next(3)));
            for _ in 1..n {
                refs.add_if(shared, &leaf);
                let before = addr(&leaf);
                let result = btree_add(leaf, append, consumer.next(3));
                assert_eq!(addr(&result) != before, shared, "append = {append}, shared = {shared}");
                assert_eq!(to_bytes(&result), consumer.consumed());
                leaf = result;
            }
        }
    }
}

#[test]
fn append_data_to_tree() {
    for shared in SHARED {
        let mut refs = Refs::new();
        let n = MAX_CAPACITY + MAX_CAPACITY / 2;
        let data = create_random_string(n * 3);
        let tree = create_tree_from_string(&data, 3);
        refs.add_if(shared, &tree);
        let edges = edges_of(&tree);
        let (leaf0, leaf1) = (edges[0], edges[1]);
        let before = addr(&tree);
        let result = CordRepBtree::append_data(tree, b"123456789", 0);
        assert_eq!(addr(&result) != before, shared, "shared = {shared}");
        let result_edges = edges_of(&result);
        assert_eq!(result_edges.len(), 2);
        assert_eq!(result_edges[0], leaf0);
        assert_eq!(result_edges[1] != leaf1, shared);
        let mut expected = data.clone();
        expected.extend_from_slice(b"123456789");
        assert_eq!(to_bytes(&result), expected);
    }
}

#[test]
fn prepend_data_to_tree() {
    for shared in SHARED {
        let mut refs = Refs::new();
        let n = MAX_CAPACITY + MAX_CAPACITY / 2;
        let data = create_random_string(n * 3);
        let tree = create_tree_reverse(&data, 3);
        refs.add_if(shared, &tree);
        let edges = edges_of(&tree);
        let (leaf0, leaf1) = (edges[0], edges[1]);
        let before = addr(&tree);
        let result = CordRepBtree::prepend_data(tree, b"123456789", 0);
        assert_eq!(addr(&result) != before, shared, "shared = {shared}");
        let result_edges = edges_of(&result);
        assert_eq!(result_edges.len(), 2);
        assert_eq!(result_edges[0] != leaf0, shared);
        assert_eq!(result_edges[1], leaf1);
        let mut expected = b"123456789".to_vec();
        expected.extend_from_slice(&data);
        assert_eq!(to_bytes(&result), expected);
    }
}

#[test]
fn add_data_to_tree_three_levels_deep() {
    let max_cap = MAX_CAPACITY;
    let two_deep = max_cap * max_cap;
    let n = max_cap * max_cap * max_cap;
    let data = create_random_string(n * 3);
    for shared in SHARED {
        for append in [true, false] {
            let mut refs = Refs::new();
            let mut consumer = DataConsumer::new(&data, append);

            // Fill leaf.
            let mut tree = CordRepBtree::create(make_flat(consumer.next(3)));
            for _ in 1..max_cap {
                tree = btree_add(tree, append, consumer.next(3));
            }
            assert_eq!(to_bytes(&tree), consumer.consumed());

            // Fill to maximum at one deep.
            refs.add_if(shared, &tree);
            let mut before = addr(&tree);
            let mut kept = tree.clone();
            tree = btree_add(tree, append, consumer.next(3));
            assert!(is_node(&tree, 1));
            assert_ne!(addr(&tree), before);
            drop(kept);
            assert_eq!(to_bytes(&tree), consumer.consumed());
            for _ in (max_cap + 1)..two_deep {
                refs.add_if(shared, &tree);
                before = addr(&tree);
                tree = btree_add(tree, append, consumer.next(3));
                assert_eq!(addr(&tree) != before, shared);
                assert_eq!(to_bytes(&tree), consumer.consumed());
            }

            // Fill to maximum at two deep.
            refs.add_if(shared, &tree);
            before = addr(&tree);
            kept = tree.clone();
            tree = btree_add(tree, append, consumer.next(3));
            assert!(is_node(&tree, 2));
            assert_ne!(addr(&tree), before);
            drop(kept);
            assert_eq!(to_bytes(&tree), consumer.consumed());
            for _ in (two_deep + 1)..n {
                refs.add_if(shared, &tree);
                before = addr(&tree);
                tree = btree_add(tree, append, consumer.next(3));
                assert_eq!(addr(&tree) != before, shared);
                assert_eq!(to_bytes(&tree), consumer.consumed());
            }
        }
    }
}

#[test]
fn add_large_data_to_leaf() {
    let max_cap = MAX_CAPACITY;
    let n = max_cap * max_cap * max_cap * 3 + 2;
    let data = create_random_string(n * MAX_FLAT_LENGTH);
    for shared in SHARED {
        for append in [true, false] {
            let mut refs = Refs::new();
            let leaf = CordRepBtree::create(make_flat(b"abc"));
            refs.add_if(shared, &leaf);
            let result = btree_add(leaf, append, &data);
            let expected =
                if append { [b"abc".as_slice(), &data].concat() } else { [&data[..], b"abc"].concat() };
            assert!(is_ok(&result, false));
            assert_eq!(to_bytes(&result), expected);
        }
    }
}

// --- Queries ----------------------------------------------------------------

#[test]
fn get_character() {
    let n = MAX_CAPACITY * MAX_CAPACITY + 2;
    let mut data = create_random_string(n * 3);
    let mut tree = create_tree_from_string(&data, 3);
    tree = CordRepBtree::append(tree, make_substring(4, 5, make_flat(b"abcdefghijklm")));
    data.extend_from_slice(b"efghi");
    for (i, &b) in data.iter().enumerate() {
        assert_eq!(CordRepBtree::get_byte(&tree, i), b, "index {i}");
    }
}

#[test]
fn is_flat_single_flat() {
    let leaf = CordRepBtree::create(make_flat(b"Hello world"));
    assert_eq!(CordRepBtree::as_flat(&leaf), Some(&b"Hello world"[..]));
    assert_eq!(CordRepBtree::as_flat_range(&leaf, 0, 11), Some(&b"Hello world"[..]));
    assert_eq!(CordRepBtree::as_flat_range(&leaf, 1, 4), Some(&b"ello"[..]));
    assert_eq!(CordRepBtree::as_flat_range(&leaf, 6, 5), Some(&b"world"[..]));
    assert!(CordRepBtree::as_flat_range(&leaf, 6, 0).is_none());
}

#[test]
fn is_flat_multi_flat() {
    let n = MAX_CAPACITY * MAX_CAPACITY + 2;
    let mut data = create_random_string(n * 3);
    let mut tree = create_tree_from_string(&data, 3);
    tree = CordRepBtree::append(tree, make_substring(4, 3, make_flat(b"abcdefghijklm")));
    tree = CordRepBtree::append(tree, make_substring(8, 3, make_flat(b"abcdefghijklm")));
    data.extend_from_slice(b"efgijk");

    assert!(CordRepBtree::as_flat(&tree).is_none());
    for offset in (0..data.len()).step_by(3) {
        assert_eq!(CordRepBtree::as_flat_range(&tree, offset, 3), Some(&data[offset..offset + 3]));
        if offset > 0 {
            assert!(CordRepBtree::as_flat_range(&tree, offset - 1, 4).is_none());
        }
        if offset < data.len() - 4 {
            assert!(CordRepBtree::as_flat_range(&tree, offset, 4).is_none());
        }
    }
}

fn raised(mut tree: Rep, height: usize) -> Rep {
    for _ in 1..=height {
        tree = CordRepBtree::new_with(tree);
    }
    tree
}

#[test]
fn get_append_buffer_not_flat() {
    for height in 0..MAX_HEIGHT {
        let mut tree = raised(CordRepBtree::create(make_external(b"Foo")), height);
        assert_eq!(append_in_place(&mut tree, b"x"), 0, "height {height}");
    }
}

#[test]
fn get_append_buffer_flat_not_private() {
    for height in 0..MAX_HEIGHT {
        let f = make_flat(b"abc");
        let mut tree = raised(CordRepBtree::create(f.clone()), height);
        assert_eq!(append_in_place(&mut tree, b"x"), 0, "height {height}");
        assert_eq!(edge_data(&f), b"abc");
    }
}

#[test]
fn get_append_buffer_tree_not_private() {
    for height in 1..MAX_HEIGHT {
        let mut refs = Refs::new();
        let mut tree = CordRepBtree::create(make_flat(b"abc"));
        for i in 1..=height {
            if i == height.div_ceil(2) {
                refs.add(&tree);
            }
            tree = CordRepBtree::new_with(tree);
        }
        assert_eq!(append_in_place(&mut tree, b"x"), 0, "height {height}");
        assert_eq!(tree.len(), 3);
    }
}

#[test]
fn get_append_buffer_flat_no_capacity() {
    for height in 0..MAX_HEIGHT {
        let mut flat = CordRepFlat::create(b"abc", 0);
        let full = vec![b'z'; flat.capacity() - 3];
        flat.data.extend_from_slice(&full);
        let mut tree = raised(CordRepBtree::create(CordRep::flat(flat)), height);
        assert_eq!(append_in_place(&mut tree, b"x"), 0, "height {height}");
    }
}

#[test]
fn get_append_buffer_flat_with_capacity() {
    for height in 0..MAX_HEIGHT {
        let f = make_flat(b"abc");
        let room = flat_room(&f);
        let flat = addr(&f);
        let mut tree = raised(CordRepBtree::create(f), height);
        assert_eq!(append_in_place(&mut tree, b"de"), 2, "height {height}");
        assert_eq!(tree.len(), 5);
        assert_eq!(to_bytes(&tree), b"abcde");

        let avail = room - 2;
        let more = vec![b'm'; avail + 100];
        assert_eq!(append_in_place(&mut tree, &more), avail);
        assert_eq!(tree.len(), 5 + avail);
        assert_eq!(get_leaf_edges(&tree), vec![flat]);
    }
}

// --- Diagnostics ------------------------------------------------------------

#[test]
fn dump() {
    let f = make_flat(b"Hello world");
    let external = make_external(b"Hello external");
    let substr_flat = make_substring(1, 6, f.clone());
    let substr_external = make_substring(2, 7, external.clone());

    let mut tree = CordRepBtree::create(f.clone());
    while height(&tree) == 0 {
        tree = CordRepBtree::append(tree, external.clone());
        tree = CordRepBtree::append(tree, substr_flat.clone());
        tree = CordRepBtree::append(tree, substr_external.clone());
        tree = CordRepBtree::append(tree, f.clone());
    }

    for include_contents in [false, true] {
        let lines = dump_lines(&tree, include_contents);
        assert_eq!(lines[0].label, DumpLabel::Node(1, node_of(&tree).size()));
        assert_eq!((lines[0].depth, lines[0].len), (0, tree.len()));
        assert_eq!(lines[0].refcount, 1);
        assert!(lines.iter().any(|l| matches!(l.label, DumpLabel::Node(0, _)) && l.depth == 1));
        assert!(lines.iter().any(|l| l.refcount > 1));

        for (rep, len, text) in [
            (&f, 11, &b"Hello world"[..]),
            (&external, 14, &b"Hello external"[..]),
            (&substr_flat, 6, &b"ello w"[..]),
            (&substr_external, 7, &b"llo ext"[..]),
        ] {
            let line = lines.iter().find(|l| l.address == addr(rep)).unwrap();
            assert_eq!(line.len, len);
            assert_eq!(line.data.as_deref(), include_contents.then_some(text));
        }
        assert!(lines.iter().any(|l| l.label == DumpLabel::Substring(1)));
        assert!(lines.iter().any(|l| l.label == DumpLabel::Substring(2)));
        assert!(lines.iter().any(|l| l.label == DumpLabel::External));
    }

    // The text.
    let mut s = String::new();
    for (label, include_contents) in [("", false), ("Once upon a label", false), ("Once upon a label", true)] {
        s += &String::from_utf8(CordRepBtree::dump(None, label, include_contents)).unwrap();
    }
    assert!(s.contains("NULL"));
    for api in 0..=2 {
        let label = if api == 0 { "" } else { "Once upon a label" };
        let s = String::from_utf8(CordRepBtree::dump(Some(&tree), label, api == 2)).unwrap();
        for needle in ["Node(1)", "Leaf", "Private", "Shared"] {
            assert!(s.contains(needle), "api {api}: missing {needle}:\n{s}");
        }
        for needle in ["len = 11", "len = 14", "len = 6", "len = 7", "start = 1", "start = 2"] {
            assert!(s.contains(needle), "api {api}: missing {needle}:\n{s}");
        }
        for rep in [&f, &external, &substr_flat, &substr_external] {
            assert!(s.contains(&format!("{:#x}", addr(rep))), "api {api}: missing address:\n{s}");
        }
        if api != 0 {
            assert!(s.contains("Once upon a label"));
        }
        let contents = [
            "data = \"Hello world\"",
            "data = \"Hello external\"",
            "data = \"ello w\"",
            "data = \"llo ext\"",
        ];
        for needle in contents {
            assert_eq!(s.contains(needle), api == 2, "api {api}: {needle}");
        }
    }

    let long = make_flat(&[b'x'; 200]);
    assert_eq!(dump_lines(&long, true)[0].data.as_deref(), Some(&[b'x'; 60][..]));
}

/// The leaf node of `check`, which is that node or one above it.
fn leaf_mut(check: &mut Rep, as_tree: bool) -> &mut CordRepBtree {
    let node = node_mut(check);
    if as_tree {
        node_mut(&mut node.edges[0])
    } else {
        node
    }
}

fn node_mut(rep: &mut Rep) -> &mut CordRepBtree {
    match Arc::get_mut(rep).unwrap() {
        CordRep::Btree(node) => node,
        _ => panic!("expected a tree node"),
    }
}

#[test]
fn is_valid() {
    let empty = Arc::new(CordRep::Btree(CordRepBtree::new_node(0)));
    assert!(is_ok(&empty, false));
    assert!(!is_ok(&make_flat(b"abc"), false));

    for as_tree in [false, true] {
        let leaf = CordRepBtree::create(make_flat(b"abc"));
        let mut check = if as_tree { CordRepBtree::new_with(leaf) } else { leaf };

        assert!(is_ok(&check, false));
        leaf_mut(&mut check, as_tree).length -= 1;
        assert!(!is_ok(&check, false));
        leaf_mut(&mut check, as_tree).length += 1;

        // Height.
        assert!(is_ok(&check, false));
        leaf_mut(&mut check, as_tree).height = MAX_HEIGHT + 1;
        assert!(!is_ok(&check, false));
        leaf_mut(&mut check, as_tree).height = 1;
        assert!(!is_ok(&check, false));
        leaf_mut(&mut check, as_tree).height = 0;

        // Number of edges.
        assert!(is_ok(&check, false));
        for _ in 0..MAX_CAPACITY {
            let edge = make_flat(b"abc");
            let leaf = leaf_mut(&mut check, as_tree);
            leaf.edges.push(edge);
            leaf.length += 3;
        }
        assert!(!is_ok(&check, false));
        let leaf = leaf_mut(&mut check, as_tree);
        leaf.edges.truncate(1);
        leaf.length = 3;

        // Kind of a data edge.
        assert!(is_ok(&check, false));
        let below = CordRepBtree::create(make_flat(b"abc"));
        let edge = std::mem::replace(&mut leaf_mut(&mut check, as_tree).edges[0], below);
        assert!(!is_ok(&check, false));
        leaf_mut(&mut check, as_tree).edges[0] = edge;

        if as_tree {
            // Height.
            assert!(is_ok(&check, false));
            node_mut(&mut check).height = 2;
            assert!(!is_ok(&check, false));
            node_mut(&mut check).height = 1;

            // Kind of a tree edge.
            assert!(is_ok(&check, false));
            let edge = std::mem::replace(&mut node_mut(&mut check).edges[0], make_flat(b"abc"));
            assert!(!is_ok(&check, false));
            node_mut(&mut check).edges[0] = edge;
        }

        assert!(is_ok(&check, false));
    }
}

#[test]
fn each_fault_is_named() {
    let check = |rep: &Rep| Validation::new().check_valid(rep, false);
    assert_eq!(check(&make_flat(b"abc")), Err(Invalid::NotTree));

    let mut tree = CordRepBtree::create(make_flat(b"abc"));
    assert_eq!(check(&tree), Ok(()));
    node_mut(&mut tree).length = 4;
    assert_eq!(check(&tree), Err(Invalid::Length));
    node_mut(&mut tree).height = 1;
    assert_eq!(check(&tree), Err(Invalid::EdgeNotTree));
    node_mut(&mut tree).height = MAX_HEIGHT + 1;
    assert_eq!(check(&tree), Err(Invalid::TooHigh));
    node_mut(&mut tree).height = 0;
    node_mut(&mut tree).edges = (0..7).map(make_hex_flat).collect();
    assert_eq!(check(&tree), Err(Invalid::TooManyEdges));
    node_mut(&mut tree).edges = vec![CordRepBtree::create(make_flat(b"abc"))];
    assert_eq!(check(&tree), Err(Invalid::EdgeNotData));
    node_mut(&mut tree).height = 3;
    assert_eq!(check(&tree), Err(Invalid::EdgeHeight));
}

#[test]
fn assert_valid() {
    let tree = CordRepBtree::create(make_flat(b"abc"));
    assert!(is_ok(&tree, true));
    assert!(is_ok(&tree, false));
}

/// Puts 100 bytes into the first flat block below `rep`.
fn spoil_first(rep: &mut Rep) {
    match Arc::get_mut(rep).unwrap() {
        CordRep::Btree(node) => spoil_first(&mut node.edges[0]),
        CordRep::Flat(flat) => flat.data.resize(100, b'?'),
        _ => panic!("expected a flat block"),
    }
}

#[test]
fn check_assert_valid_shallow_vs_deep() {
    let mut tree = CordRepBtree::create(make_flat(b"abc"));
    let n = MAX_CAPACITY * MAX_CAPACITY * 2;
    for _ in 0..n {
        tree = CordRepBtree::append(tree, make_flat(b"Hello world"));
    }
    spoil_first(&mut tree);

    assert!(!is_ok(&tree, false));
    assert!(is_ok(&tree, true));
    assert!(Validation::new().check_valid(&tree, false).is_err());

    let mut validation = Validation::new();
    validation.set_exhaustive_validation(true);
    assert!(validation.is_exhaustive_validation_enabled());
    assert!(!validation.is_valid(&tree, true));
}

// --- Rebuilding -------------------------------------------------------------

#[test]
fn rebuild() {
    for shared in SHARED {
        for &size in &[3usize, 8, 100, 10000, 200_000] {
            let mut flats = Vec::with_capacity(size);
            for _ in 0..size {
                let mut f = CordRepFlat::new(2);
                f.data.push(b'x');
                flats.push(CordRep::flat(f));
            }
            let addresses: Vec<usize> = flats.iter().map(addr).collect();

            // Build into `right`, and every so many edges combine `left` and
            // `right` into a new `left` and start a new `right`.
            let mut split_count = 0;
            let mut split_limit = 3;
            let mut it = flats.into_iter();
            let mut left: Option<Rep> = None;
            let mut right = CordRepBtree::new_with(it.next().unwrap());
            for f in it {
                split_count += 1;
                if split_count >= split_limit {
                    split_limit += split_limit / 16;
                    left = Some(match left {
                        None => right,
                        Some(left) => CordRepBtree::append(left, right),
                    });
                    right = CordRepBtree::new_with(f);
                } else {
                    right = CordRepBtree::append(right, f);
                }
            }
            let left = match left {
                None => right,
                Some(left) => CordRepBtree::append(left, right),
            };

            let mut refs = Refs::new();
            refs.add_if(shared, &left);
            let rebuilt = rebuild_tree(left);
            assert!(is_ok(&rebuilt, false));
            assert!(get_leaf_edges(&rebuilt) == addresses, "edges differ (size {size}, shared {shared})");
            let mut full = 1;
            for _ in 0..height(&rebuilt) {
                full *= MAX_CAPACITY;
            }
            assert!(height(&rebuilt) == 0 || size > full, "not packed (size {size})");
        }
    }
}

#[test]
fn heights_stay_within_the_limit() {
    // Merging ever higher chains forces a rebuild.
    let mut tree = raised(CordRepBtree::create(make_flat(b"a")), MAX_HEIGHT);
    for i in 0..100usize {
        let other = raised(CordRepBtree::create(make_hex_flat(i)), MAX_HEIGHT);
        tree = CordRepBtree::append(tree, other);
        assert!(height(&tree) <= MAX_HEIGHT);
        assert!(is_ok(&tree, false));
    }
    assert_eq!(tree.len(), 1 + 100 * 6);
}

// --- Extracting -------------------------------------------------------------

/// The addresses of what is left and of what was taken out.
fn extract(tree: Rep, capacity: usize) -> (Option<usize>, Option<usize>, Option<Rep>) {
    let r = CordRepBtree::extract_append_buffer(tree, capacity);
    (r.tree.as_ref().map(addr), r.extracted.as_ref().map(addr), r.tree)
}

#[test]
fn extract_append_buffer_leaf_single_flat() {
    let f = make_flat(b"Abc");
    let flat = addr(&f);
    let leaf = CordRepBtree::create(f);
    let (tree, taken, _) = extract(leaf, 1);
    assert_eq!((tree, taken), (None, Some(flat)));
}

#[test]
fn extract_append_buffer_node_single_flat() {
    let f = make_flat(b"Abc");
    let flat = addr(&f);
    let node = CordRepBtree::new_with(CordRepBtree::create(f));
    let (tree, taken, _) = extract(node, 1);
    assert_eq!((tree, taken), (None, Some(flat)));
}

fn flats_of(data: &[u8]) -> (Vec<usize>, Vec<Rep>) {
    let flats = create_flats_from_string(data, 3);
    (flats.iter().map(addr).collect(), flats)
}

#[test]
fn extract_append_buffer_leaf_two_flats() {
    let (flats, reps) = flats_of(b"abcdef");
    let leaf = create_tree(reps);
    let (tree, taken, _) = extract(leaf, 1);
    assert_eq!((tree, taken), (Some(flats[0]), Some(flats[1])));
}

#[test]
fn extract_append_buffer_node_two_flats() {
    let (flats, reps) = flats_of(b"abcdef");
    let node = CordRepBtree::new_with(create_tree(reps));
    let (tree, taken, _) = extract(node, 1);
    assert_eq!((tree, taken), (Some(flats[0]), Some(flats[1])));
}

#[test]
fn extract_append_buffer_node_two_flats_in_two_leafs() {
    let (flats, mut reps) = flats_of(b"abcdef");
    let leaf2 = CordRepBtree::create(reps.pop().unwrap());
    let leaf1 = CordRepBtree::create(reps.pop().unwrap());
    let node = CordRepBtree::new_pair(leaf1, leaf2);
    let (tree, taken, _) = extract(node, 1);
    assert_eq!((tree, taken), (Some(flats[0]), Some(flats[1])));
}

#[test]
fn extract_append_buffer_leaf_three_flats() {
    let (flats, reps) = flats_of(b"abcdefghi");
    let leaf = create_tree(reps);
    let before = addr(&leaf);
    let (tree, taken, rest) = extract(leaf, 1);
    assert_eq!((tree, taken), (Some(before), Some(flats[2])));
    assert_eq!(edges_of(&rest.unwrap()), flats[..2].to_vec());
}

#[test]
fn extract_append_buffer_node_three_flats_right_no_folding() {
    let f = make_flat(b"Abc");
    let flat = addr(&f);
    let (flats, reps) = flats_of(b"defghi");
    let leaf1 = CordRepBtree::create(f);
    let leaf2 = create_tree(reps);
    let (first, second) = (addr(&leaf1), addr(&leaf2));
    let node = CordRepBtree::new_pair(leaf1, leaf2);
    let before = addr(&node);
    let (tree, taken, rest) = extract(node, 1);
    assert_eq!((tree, taken), (Some(before), Some(flats[1])));
    let rest = rest.unwrap();
    assert_eq!(edges_of(&rest), vec![first, second]);
    assert_eq!(edges_of(&node_of(&rest).edges[0]), vec![flat]);
    assert_eq!(edges_of(&node_of(&rest).edges[1]), vec![flats[0]]);
    assert_eq!(rest.len(), 6);
}

#[test]
fn extract_append_buffer_node_three_flats_right_leaf_folding() {
    let f = make_flat(b"Abc");
    let flat = addr(&f);
    let (flats, reps) = flats_of(b"defghi");
    let leaf1 = create_tree(reps);
    let first = addr(&leaf1);
    let leaf2 = CordRepBtree::create(f);
    let node = CordRepBtree::new_pair(leaf1, leaf2);
    let (tree, taken, rest) = extract(node, 1);
    assert_eq!((tree, taken), (Some(first), Some(flat)));
    assert_eq!(edges_of(&rest.unwrap()), flats);
}

#[test]
fn extract_append_buffer_no_capacity() {
    let (flats, reps) = flats_of(b"abcdef");
    let avail = flat_room(&reps[1]);
    let leaf = create_tree(reps);
    let before = addr(&leaf);
    let (tree, taken, rest) = extract(leaf, avail + 1);
    assert_eq!((tree, taken), (Some(before), None));
    let (tree, taken, _) = extract(rest.unwrap(), avail);
    assert_eq!((tree, taken), (Some(flats[0]), Some(flats[1])));
}

#[test]
fn extract_append_buffer_not_flat() {
    let mut flats = create_flats_from_string(b"abcdef", 3);
    let substr = make_substring(1, 2, flats.pop().unwrap());
    flats.push(substr);
    let leaf = create_tree(flats);
    let before = addr(&leaf);
    let (tree, taken, _) = extract(leaf, 1);
    assert_eq!((tree, taken), (Some(before), None));
}

#[test]
fn extract_append_buffer_shared() {
    let flats = create_flats_from_string(b"abcdef", 3);
    let held = flats[1].clone();
    let leaf = create_tree(flats);
    let before = addr(&leaf);

    let (tree, taken, rest) = extract(leaf, 1);
    assert_eq!((tree, taken), (Some(before), None));
    drop(held);

    let leaf = rest.unwrap();
    let held = leaf.clone();
    let (tree, taken, rest) = extract(leaf, 1);
    assert_eq!((tree, taken), (Some(before), None));
    drop(held);

    let node = CordRepBtree::new_with(rest.unwrap());
    let before = addr(&node);
    let _held = node.clone();
    let (tree, taken, _) = extract(node, 1);
    assert_eq!((tree, taken), (Some(before), None));
}

#[test]
fn positions_inside_a_node() {
    let tree = create_tree_from_string(b"abcdefghijkl", 3);
    let node = node_of(&tree);
    let at = |p: cord_rs::rep::subtree::Position| (p.index, p.n);
    assert_eq!(at(node.index_of(0)), (0, 0));
    assert_eq!(at(node.index_of(3)), (1, 0));
    assert_eq!(at(node.index_of(11)), (3, 2));
    assert_eq!(at(node.index_before(3)), (0, 3));
    assert_eq!(at(node.index_before(4)), (1, 1));
    assert_eq!(at(node.index_of_length(12)), (3, 3));
    assert_eq!(at(node.index_of_length(7)), (2, 1));
    assert_eq!(at(node.index_beyond(4)), (2, 2));
    assert_eq!(at(node.index_beyond(12)), (4, 0));
}

#[test]
fn extraction_follows_what_is_private() {
    // Four levels of one edge, and two blocks in the leaf.
    let (flats, reps) = flats_of(b"abcdef");
    let room = flat_room(&reps[1]);
    let build = |reps: Vec<Rep>| StackOperations::build_stack(raised(create_tree(reps), 3), true, 3);

    let (ops, leaf) = build(reps);
    let r = ops.extract_last(leaf, true, room);
    assert_eq!(r.extracted.as_ref().map(addr), Some(flats[1]));
    assert_eq!(r.tree.as_ref().map(addr), Some(flats[0]));

    let (_, reps) = flats_of(b"abcdef");
    let (ops, leaf) = build(reps);
    let r = ops.extract_last(leaf, true, room + 1);
    assert!(r.extracted.is_none());
    let tree = r.tree.unwrap();
    assert!(is_node(&tree, 3));
    assert_eq!(to_bytes(&tree), b"abcdef");

    let (ops, leaf) = StackOperations::build_stack(tree, true, 3);
    let r = ops.extract_last(leaf, false, 0);
    assert!(r.extracted.is_none());
    assert_eq!(to_bytes(&r.tree.unwrap()), b"abcdef");

    let (flats, reps) = flats_of(b"abcdef");
    let (ops, leaf) = build(reps);
    let r = ops.extract_counted(leaf, 1, 2, 0);
    assert!(r.extracted.is_none());
    let (ops, leaf) = StackOperations::build_stack(r.tree.unwrap(), true, 3);
    let r = ops.extract_counted(leaf, 1, 1, 0);
    assert_eq!(r.extracted.as_ref().map(addr), Some(flats[1]));

    let flat = make_flat(b"abc");
    let room = flat_room(&flat);
    let at = addr(&flat);
    let r = extract_block(flat, false, 0);
    assert!(r.extracted.is_none());
    let r = extract_block(r.tree.unwrap(), true, room + 1);
    assert!(r.extracted.is_none());
    let r = extract_block(r.tree.unwrap(), true, room);
    assert_eq!(r.extracted.as_ref().map(addr), Some(at));
    assert!(r.tree.is_none());
    assert!(extract_block(make_external(b"abc"), true, 0).extracted.is_none());
}

#[test]
fn appending_to_the_last_block() {
    let flat = make_flat(b"abc");
    let room = flat_room(&flat);
    let data = vec![b'x'; room + 5];
    let mut tree = raised(CordRepBtree::create(flat.clone()), 2);
    assert_eq!(append_to_last(&mut tree, &data, false), 0);
    // Someone else holds the block: what is told to be private is copied.
    assert_eq!(append_to_last(&mut tree, b"de", true), 2);
    assert_eq!(to_bytes(&tree), b"abcde");
    assert_eq!(edge_data(&flat), b"abc");
    assert_eq!(append_to_last(&mut tree, &data, true), room - 2);
    assert!(is_node(&tree, 2));
    let mut external = make_external(b"abc");
    assert_eq!(append_to_last(&mut external, b"x", true), 0);
}

#[test]
fn parts_of_a_tree_are_folded() {
    let tree = create_tree_from_string(&create_random_string(3 * 6 * 6 * 6), 3);
    assert_eq!(height(&tree), 2);
    let whole = CordRepBtree::sub_tree(&tree, 0, tree.len()).unwrap();
    assert_eq!(height(&whole), 2);
    // Inside one edge of the root, of a leaf node, and of a block.
    let below = CordRepBtree::sub_tree(&tree, 110, 100).unwrap();
    assert_eq!(height(&below), 1);
    assert_eq!(height(&CordRepBtree::sub_tree(&tree, 1, 16).unwrap()), 0);
    assert!(is_substring(&CordRepBtree::sub_tree(&tree, 1, 2).unwrap(), 1, 2));
    assert_eq!(height(&CordRepBtree::remove_suffix(tree, 3 * 6 * 6 * 6 - 20).unwrap()), 1);
}
