//! Cords: immutable-by-sharing byte sequences stored as small inline buffers,
//! flat blocks, borrowed or shared external blocks, and B-trees of those.

pub mod arena;
pub mod buffer;
pub mod buffer_eq;
pub mod bytes_impl;
pub mod checksum;
pub mod convert;
pub mod cord;
pub mod edit;
pub mod hash;
pub mod inline_data;
pub mod internal;
pub mod io;
pub mod iter;
pub mod laws;
pub mod order;
pub mod ranges;
pub mod read;
pub mod rep;
pub mod search;
pub mod seqs;
pub mod serde_impl;
pub mod source;
pub mod text;

pub use buffer::CordBuffer;
pub use bytes_impl::CordWriter;
pub use cord::Cord;
pub use internal::MemoryAccounting;
pub use iter::{Bytes, Chunks, Cursor};
pub use ranges::CordIndex;
pub use source::{CordLike, CordSource};
