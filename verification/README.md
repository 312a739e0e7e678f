# cord_rs

Cords: byte sequences with cheap append, prepend, slicing and cloning. A cord
is a 16-byte handle. It holds up to 15 bytes in place, and more of them in a
B-tree of reference-counted blocks that it may share with other cords.

The library is written in Verus: every function states what it does to the
sequence of bytes that a cord stands for (its view, `cord@`), and most also
say which blocks the result shares with its arguments.

```rust
use cord_rs::{Cord, CordBuffer};

let mut cord = Cord::from("hello");
cord.append(" world");
cord.prepend(">> ");
assert!(cord.slice(9..) == "world");

let mut buffer = CordBuffer::with_capacity(1024);
buffer.put_slice(b" tail");
cord.append(buffer);
assert!(cord.ends_with(" tail"));
```

## Layout

- `src/cord.rs`, `edit.rs`, `read.rs`, `search.rs`, `iter.rs`, `io.rs`,
  `ranges.rs`, `convert.rs`, `text.rs`, `hash.rs`: cords.
- `src/buffer.rs`, `buffer_eq.rs`: buffers that become blocks of a cord.
- `src/source.rs`: what can be added to a cord and compared with one.
- `src/inline_data.rs`: the 16-byte handle.
- `src/rep/`: blocks, windows onto blocks, and trees of them.
- `src/laws.rs`: what holds of the operations together.
- `app/`: the traits of `std`, `bytes` and `serde` on thin wrappers.

## What is trusted

Sharing is decided at run time by the reference counts of `std::sync::Arc`,
which the proofs know nothing of: every function is proved for both outcomes.
Beyond that the proofs rest on short contracts of a few functions of `std` and
of `bytes::Bytes`; each is stated, with its reason, where it stands.
