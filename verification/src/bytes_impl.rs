//! Exchange with the buffers of the `bytes` crate, and a buffered writer.

use crate::buffer::{default_capacity, CordBuffer};
use crate::cord::{is_flat_of, Cord};
use crate::edit::{copied_to_back, extends_back, takes_buffer};
use crate::iter::{chunks_of, Cursor};
use crate::read::is_contiguous;
use crate::rep::external::{buffer_bytes, CordRepExternal, Owner};
use crate::rep::flat::{lemma_capacity_for, MAX_FLAT_SIZE};
use crate::rep::shared::shares;
use crate::rep::{CordRep, MAX_BYTES_TO_COPY, MAX_INLINE};
use crate::source::CordSource;
use bytes::Bytes as SharedBuffer;
use vstd::prelude::*;
use vstd::slice::slice_to_vec;
use vstd::std_specs::convert::FromSpecImpl;

verus! {

impl From<SharedBuffer> for Cord {
    /// The bytes of `data`: `data` itself if they are many, and otherwise a copy.
    fn from(data: SharedBuffer) -> (cord: Cord)
        ensures
            cord@ == buffer_bytes(data),
            buffer_bytes(data).len() <= MAX_INLINE <==> cord.contents() is Inline,
            MAX_INLINE < buffer_bytes(data).len() <= MAX_BYTES_TO_COPY ==> is_flat_of(
                cord.contents(),
                buffer_bytes(data).len() as int,
            ),
            buffer_bytes(data).len() > MAX_BYTES_TO_COPY ==> cord.contents() is Tree
                && *cord.contents()->Tree_0 == CordRep::External(CordRepExternal { owner: Owner::Buffer(data) }),
    {
        let owner = Owner::Buffer(data);
        let capacity: usize = owner.as_bytes().len();
        Cord::from_owned(owner, capacity)
    }
}

impl FromSpecImpl<SharedBuffer> for Cord {
    open spec fn obeys_from_spec() -> bool {
        false
    }

    open spec fn from_spec(data: SharedBuffer) -> Cord {
        arbitrary()
    }
}

/// A cord whose bytes are held by one block.
pub struct FlatCord {
    cord: Cord,
}

impl FlatCord {
    #[verifier::type_invariant]
    spec fn inv(self) -> bool {
        self.cord.contents() is Tree ==> is_contiguous(*self.cord.contents()->Tree_0)
    }

    /// The cord.
    pub closed spec fn source(self) -> Cord {
        self.cord
    }

    /// The bytes of the cord.
    pub open spec fn view(self) -> Seq<u8> {
        self.source()@
    }
}

impl AsRef<[u8]> for FlatCord {
    fn as_ref(&self) -> (data: &[u8])
        ensures
            data@ == self@,
    {
        proof {
            use_type_invariant(self);
        }
        self.cord.as_flat().unwrap()
    }
}

/// `Bytes::copy_from_slice`: a buffer with a copy of `data`.
#[verifier::external_body]
fn buffer_from_slice(data: &[u8]) -> (buffer: SharedBuffer)
    ensures
        buffer_bytes(buffer) == data@,
{
    SharedBuffer::copy_from_slice(data)
}

/// `Bytes::from_owner`: a buffer that keeps `owner` and holds the bytes that
/// `owner` gives as a slice.
#[verifier::external_body]
fn buffer_from_owner(owner: FlatCord) -> (buffer: SharedBuffer)
    ensures
        buffer_bytes(buffer) == owner@,
{
    SharedBuffer::from_owner(owner)
}

/// `<Bytes as From<Vec<u8>>>::from`: a buffer that takes over `data`.
#[verifier::external_body]
fn buffer_from_vec(data: Vec<u8>) -> (buffer: SharedBuffer)
    ensures
        buffer_bytes(buffer) == data@,
{
    SharedBuffer::from(data)
}

/// How the bytes of a cord are handed to a shared buffer.
pub enum SharedForm {
    /// A copy of the bytes, which are few.
    Few(Vec<u8>),
    /// The block that holds them all, without copying.
    Block(FlatCord),
    /// A copy of the bytes of several blocks.
    Joined(Vec<u8>),
}

impl SharedForm {
    /// How the bytes of `cord` are to be handed to a shared buffer: its block
    /// if one holds them all and they are not few, and otherwise a copy.
    pub fn of(cord: Cord) -> (form: SharedForm)
        ensures
            match form {
                SharedForm::Few(data) => cord@.len() <= MAX_INLINE && chunks_of(cord.contents()).len() <= 1 && data@
                    == cord@,
                SharedForm::Block(flat) => cord@.len() > MAX_INLINE && chunks_of(cord.contents()).len() <= 1
                    && flat.source() == cord,
                SharedForm::Joined(data) => chunks_of(cord.contents()).len() > 1 && data@ == cord@,
            },
    {
        match cord.as_flat() {
            Some(data) => {
                if data.len() <= MAX_INLINE {
                    return SharedForm::Few(slice_to_vec(data));
                }
            },
            None => {
                return SharedForm::Joined(cord.to_vec());
            },
        }
        SharedForm::Block(FlatCord { cord })
    }
}

impl From<Cord> for SharedBuffer {
    /// The bytes of `cord`: its block if one holds them all and they are not
    /// few, and otherwise a copy.
    fn from(cord: Cord) -> (buffer: SharedBuffer)
        ensures
            buffer_bytes(buffer) == cord@,
    {
        match SharedForm::of(cord) {
            SharedForm::Few(data) => buffer_from_slice(data.as_slice()),
            SharedForm::Block(flat) => buffer_from_owner(flat),
            SharedForm::Joined(data) => buffer_from_vec(data),
        }
    }
}

impl FromSpecImpl<Cord> for SharedBuffer {
    open spec fn obeys_from_spec() -> bool {
        false
    }

    open spec fn from_spec(cord: Cord) -> SharedBuffer {
        arbitrary()
    }
}

impl Cord {
    /// Takes the first `len` bytes out of the cord, without copying if one block holds them.
    pub fn copy_to_bytes(&mut self, len: usize) -> (buffer: SharedBuffer)
        requires
            len <= old(self)@.len(),
        ensures
            buffer_bytes(buffer) == old(self)@.take(len as int),
            final(self)@ == old(self)@.skip(len as int),
            shares(final(self).edges(), old(self).edges()),
            final(self).contents() is Inline <==> len == old(self)@.len() || old(self).contents() is Inline,
    {
        SharedBuffer::from(self.split_to(len))
    }
}

impl<'a> Cursor<'a> {
    /// The next `len` bytes, and moves behind them.
    pub fn copy_to_bytes(&mut self, len: usize) -> (buffer: SharedBuffer)
        requires
            old(self).wf(),
            len <= old(self).rest().len(),
        ensures
            final(self).wf(),
            final(self).source() == old(self).source(),
            final(self).at() == old(self).at() + len,
            buffer_bytes(buffer) == old(self).rest().take(len as int),
    {
        SharedBuffer::from(self.read_cord(len))
    }
}

/// A writer that appends to a cord through buffers that become part of it.
///
/// What is buffered is appended by `flush` or `into_inner`, or when a buffer is
/// full. More bytes than the buffer has room for bypass it.
///
/// Dropping a writer does not append what is buffered, and that may be bytes
/// which were taken out of the last block of the cord: end with `flush` or `into_inner`.
pub struct CordWriter<'a> {
    /// The cord.
    pub cord: &'a mut Cord,
    /// The buffer being filled.
    pub buffer: Option<CordBuffer>,
}

/// `after` is `cord` with the buffer appended, where there is one.
pub open spec fn flushed(cord: Cord, buffer: Option<CordBuffer>, after: Cord) -> bool {
    match buffer {
        Some(buffer) => {
            &&& after@ == cord@ + buffer@
            &&& extends_back(cord, after)
            &&& buffer.added_at_back(cord, after)
        },
        None => after == cord,
    }
}

/// There is a buffer that is not full.
pub open spec fn has_room(buffer: Option<CordBuffer>) -> bool {
    buffer matches Some(buffer) && buffer@.len() < buffer.spec_capacity()
}

/// `held` is the buffer to write to next, and `rest` the cord without it: the
/// buffer at hand if it has room, and otherwise one that is taken out of the
/// cord once that is flushed.
pub open spec fn next_buffer(cord: Cord, buffer: Option<CordBuffer>, held: CordBuffer, rest: Cord) -> bool {
    if has_room(buffer) {
        buffer == Some(held) && rest == cord
    } else {
        exists|whole: Cord|
            {
                &&& #[trigger] flushed(cord, buffer, whole)
                &&& takes_buffer(whole, rest, held, 0, CordBuffer::DEFAULT_MAX_CAPACITY, 16)
            }
    }
}

/// `src` was written to `held` if it fits there, and otherwise behind it to the cord.
pub open spec fn written(held: CordBuffer, rest: Cord, src: Seq<u8>, buffer: Option<CordBuffer>, cord: Cord) -> bool {
    if src.len() <= held.spec_capacity() - held@.len() {
        &&& buffer matches Some(filled)
        &&& filled@ == held@ + src
        &&& filled.spec_capacity() == held.spec_capacity()
        &&& cord == rest
    } else {
        &&& buffer is None
        &&& exists|whole: Cord| #[trigger] flushed(rest, Some(held), whole) && copied_to_back(whole, cord, src)
    }
}

impl<'a> CordWriter<'a> {
    /// The cord, without what is buffered.
    pub open spec fn inner(self) -> Cord {
        *self.cord
    }

    /// The bytes of the cord and those that are buffered.
    pub open spec fn view(self) -> Seq<u8> {
        match self.buffer {
            Some(buffer) => (*self.cord)@ + buffer@,
            None => (*self.cord)@,
        }
    }

    /// A writer that appends to `cord`.
    pub fn new(cord: &'a mut Cord) -> (writer: CordWriter<'a>)
        ensures
            writer@ == old(cord)@,
            *final(writer.cord) == *final(cord),
            writer.buffer is None,
    {
        CordWriter { cord, buffer: None }
    }

    /// Appends what is buffered to the cord.
    pub fn flush(&mut self)
        requires
            old(self)@.len() <= usize::MAX,
        ensures
            final(self)@ == old(self)@,
            final(self).buffer is None,
            flushed(*old(self).cord, old(self).buffer, *final(self).cord),
            *final(final(self).cord) == *final(old(self).cord),
    {
        if let Some(buffer) = self.buffer.take() {
            self.cord.append(buffer);
        }
    }

    /// Appends what is buffered to the cord, and returns the cord.
    pub fn into_inner(self) -> (cord: &'a mut Cord)
        requires
            self@.len() <= usize::MAX,
        ensures
            cord@ == self@,
            flushed(self.inner(), self.buffer, *cord),
            *final(cord) == *final(self.cord),
    {
        let mut writer = self;
        writer.flush();
        writer.cord
    }

    /// Makes room in the buffer. A full buffer is appended and replaced, by the
    /// last block of the cord if possible. A buffer with room stays as it is.
    /// Returns the room.
    pub fn make_room(&mut self) -> (room: usize)
        requires
            old(self)@.len() <= usize::MAX,
        ensures
            final(self)@ == old(self)@,
            final(self).buffer matches Some(buffer) && room == buffer.spec_capacity() - buffer@.len(),
            room > 0,
            next_buffer(*old(self).cord, old(self).buffer, final(self).buffer->0, *final(self).cord),
            *final(final(self).cord) == *final(old(self).cord),
    {
        let full: bool = match &self.buffer {
            Some(buffer) => buffer.available() == 0,
            None => true,
        };
        if full {
            self.flush();
            let ghost whole = *self.cord;
            let _data = self.cord.data();
            let buffer = self.cord.take_append_buffer(CordBuffer::DEFAULT_MAX_CAPACITY);
            let _capacity: usize = buffer.capacity();
            proof {
                let limit = CordBuffer::DEFAULT_MAX_CAPACITY as int;
                assert forall|n: int| n >= limit implies #[trigger] default_capacity(n) == limit by {
                    lemma_capacity_for(n, MAX_FLAT_SIZE as int);
                }
            }
            self.buffer = Some(buffer);
            assert(flushed(*old(self).cord, old(self).buffer, whole));
        }
        match &self.buffer {
            Some(buffer) => buffer.available(),
            None => 0,
        }
    }

    /// The number of bytes that can still be written.
    pub fn remaining_mut(&self) -> (n: usize)
        requires
            self@.len() <= usize::MAX,
        ensures
            n == usize::MAX - self@.len(),
    {
        let held: usize = match &self.buffer {
            Some(buffer) => buffer.len(),
            None => 0,
        };
        usize::MAX - self.cord.len() - held
    }

    /// Writes `src`.
    pub fn put_slice(&mut self, src: &[u8])
        requires
            old(self)@.len() + src@.len() <= usize::MAX,
        ensures
            final(self)@ == old(self)@ + src@,
            exists|held: CordBuffer, rest: Cord|
                {
                    &&& #[trigger] next_buffer(*old(self).cord, old(self).buffer, held, rest)
                    &&& written(held, rest, src@, final(self).buffer, *final(self).cord)
                },
            *final(final(self).cord) == *final(old(self).cord),
    {
        let room: usize = self.make_room();
        let ghost held = self.buffer->0;
        let ghost rest = *self.cord;
        assert(next_buffer(*old(self).cord, old(self).buffer, held, rest));
        if src.len() <= room {
            if let Some(mut buffer) = self.buffer.take() {
                buffer.put_slice(src);
                self.buffer = Some(buffer);
                assert(self@ =~= old(self)@ + src@);
            }
        } else {
            self.flush();
            let ghost whole = *self.cord;
            self.cord.append(src);
            assert(flushed(rest, Some(held), whole) && copied_to_back(whole, *self.cord, src@));
        }
    }
}

} // verus!
