//! External blocks: bytes that were allocated elsewhere and are only held.

use bytes::Bytes as SharedBuffer;
use std::sync::Arc;
use vstd::prelude::*;
use vstd::utf8::encode_utf8;

verus! {

/// The bookkeeping that an external block accounts for besides its bytes.
pub const EXTERNAL_REP_SIZE: usize = 40;

/// What holds the bytes of an external block.
pub enum Owner {
    /// An owned vector.
    Vector(Vec<u8>),
    /// An owned string.
    Text(String),
    /// An owned boxed slice.
    Boxed(Box<[u8]>),
    /// A shared slice.
    SharedSlice(Arc<[u8]>),
    /// A shared vector.
    SharedVector(Arc<Vec<u8>>),
    /// A shared string slice.
    SharedStr(Arc<str>),
    /// A shared string.
    SharedText(Arc<String>),
    /// Bytes that live as long as the program.
    Static(&'static [u8]),
    /// Text that lives as long as the program.
    StaticStr(&'static str),
    /// A reference counted buffer of the `bytes` crate.
    Buffer(SharedBuffer),
}

/// The `bytes` crate's reference counted, immutable buffer.
#[verifier::external_type_specification]
#[verifier::external_body]
pub struct ExBytes(SharedBuffer);

/// The bytes that a buffer of the `bytes` crate holds.
pub uninterp spec fn buffer_bytes(buffer: SharedBuffer) -> Seq<u8>;

/// `<Bytes as Deref>::deref`: the bytes that `buffer` holds, as a slice.
#[verifier::external_body]
pub(crate) fn buffer_slice(buffer: &SharedBuffer) -> (data: &[u8])
    ensures
        data@ == buffer_bytes(*buffer),
{
    buffer
}

/// What `owner` holds may occupy `capacity` bytes. How many it occupies is
/// known only to whoever asks, so which numbers these are is known only here.
pub closed spec fn occupies(owner: Owner, capacity: usize) -> bool {
    capacity >= owner.bytes().len()
}

impl Owner {
    /// The bytes held.
    pub open spec fn bytes(self) -> Seq<u8> {
        match self {
            Owner::Vector(v) => v@,
            Owner::Text(s) => encode_utf8(s@),
            Owner::Boxed(b) => b@,
            Owner::SharedSlice(b) => b@,
            Owner::SharedVector(v) => v@,
            Owner::SharedStr(s) => encode_utf8(s@),
            Owner::SharedText(s) => encode_utf8(s@),
            Owner::Static(b) => b@,
            Owner::StaticStr(s) => encode_utf8(s@),
            Owner::Buffer(b) => buffer_bytes(b),
        }
    }

    /// The bytes held.
    pub fn as_bytes(&self) -> (data: &[u8])
        ensures
            data@ == self.bytes(),
    {
        match self {
            Owner::Vector(v) => v.as_slice(),
            Owner::Text(s) => s.as_str().as_bytes(),
            Owner::Boxed(b) => &**b,
            Owner::SharedSlice(b) => &**b,
            Owner::SharedVector(v) => v.as_slice(),
            Owner::SharedStr(s) => s.as_bytes(),
            Owner::SharedText(s) => s.as_str().as_bytes(),
            Owner::Static(b) => b,
            Owner::StaticStr(s) => s.as_bytes(),
            Owner::Buffer(b) => buffer_slice(b),
        }
    }
}

/// An external block.
pub struct CordRepExternal {
    /// What holds the bytes.
    pub owner: Owner,
}

impl CordRepExternal {
    /// The bytes of the block.
    pub open spec fn bytes(self) -> Seq<u8> {
        self.owner.bytes()
    }

    /// The bytes of the block.
    pub fn data(&self) -> (data: &[u8])
        ensures
            data@ == self.bytes(),
    {
        self.owner.as_bytes()
    }

    /// The number of bytes of the block.
    pub fn len(&self) -> (len: usize)
        ensures
            len == self.bytes().len(),
    {
        self.owner.as_bytes().len()
    }
}

} // verus!
