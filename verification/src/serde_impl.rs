//! Building a cord from a sequence of single bytes, as a deserializer yields them.

use crate::buffer::{default_capacity, CordBuffer};
use crate::cord::Cord;
use crate::iter::chunks_of;
use crate::rep::flat::{capacity_for, lemma_capacity_for, CordRepFlat, MAX_FLAT_LENGTH, MAX_FLAT_SIZE};
use crate::rep::pieces::{cut, lemma_cut_whole};
use crate::rep::MAX_INLINE;
use vstd::prelude::*;

verus! {

/// The capacity of the block that is made for `len` bytes with the default limit.
fn flat_capacity_for(len: usize) -> (capacity: usize)
    ensures
        capacity == capacity_for(len as int, MAX_FLAT_SIZE as int),
{
    CordRepFlat::new(len).capacity()
}

/// Appends `buffer` to `cord` as a chunk of its own: a copy where the buffer is
/// longer than its contents need, and otherwise the buffer itself.
fn commit(cord: &mut Cord, buffer: CordBuffer)
    requires
        old(cord)@.len() + buffer@.len() <= usize::MAX,
        old(cord)@.len() == 0 || old(cord).contents() is Tree,
        buffer.spec_capacity() <= MAX_FLAT_LENGTH,
    ensures
        final(cord)@ == old(cord)@ + buffer@,
        buffer@.len() == 0 ==> *final(cord) == *old(cord),
        buffer@.len() > 0 ==> chunks_of(final(cord).contents()) == chunks_of(old(cord).contents()).push(buffer@),
        old(cord).contents() is Tree || buffer@.len() > MAX_INLINE ==> final(cord).contents() is Tree,
{
    let len: usize = buffer.len();
    let capacity: usize = buffer.capacity();
    if len == 0 {
        assert(cord@ =~= old(cord)@ + buffer@);
        return;
    }
    if len <= MAX_INLINE || flat_capacity_for(len) < capacity {
        cord.append_precise(buffer.as_slice());
    } else {
        cord.append_buffer(buffer);
    }
    let _data = cord.data();
}

/// The capacity of the buffer that replaces a full one of `capacity` bytes,
/// which is below the default limit: four times as much, up to that limit.
pub open spec fn grown_capacity(capacity: int) -> int {
    default_capacity(
        if capacity * 4 < CordBuffer::DEFAULT_MAX_CAPACITY {
            capacity * 4
        } else {
            CordBuffer::DEFAULT_MAX_CAPACITY as int
        },
    )
}

/// The capacity of the buffer that follows a whole chunk, after `len` bytes in
/// all: for what is left of those expected, and a whole chunk if nothing is.
pub open spec fn next_capacity(expected: Option<usize>, len: int) -> int {
    match expected {
        Some(total) => if total > len {
            default_capacity(total - len)
        } else {
            default_capacity(CordBuffer::DEFAULT_MAX_CAPACITY as int)
        },
        None => default_capacity(CordBuffer::DEFAULT_MAX_CAPACITY as int),
    }
}

/// A cord that is built byte by byte.
pub struct SeqCollector {
    hint: Option<usize>,
    cord: Cord,
    buffer: CordBuffer,
    consumed: usize,
}

impl SeqCollector {
    /// The cord holds whole chunks, and the buffer what follows them.
    pub closed spec fn wf(self) -> bool {
        &&& self.buffer.spec_capacity() <= CordBuffer::DEFAULT_MAX_CAPACITY
        &&& self.buffer@.len() <= self.buffer.spec_capacity()
        &&& MAX_INLINE <= self.buffer.spec_capacity()
        &&& self.consumed == self.cord@.len() + self.buffer@.len()
        &&& self.cord@.len() as int % MAX_FLAT_LENGTH as int == 0
        &&& self.cord@.len() == 0 || self.cord.contents() is Tree
        &&& chunks_of(self.cord.contents()) == cut(true, self.cord@)
    }

    /// The bytes so far.
    pub closed spec fn view(self) -> Seq<u8> {
        self.cord@ + self.buffer@
    }

    /// The number of bytes that are expected in all, if that is known.
    pub closed spec fn expected(self) -> Option<usize> {
        self.hint
    }

    /// The bytes that are not in the cord yet.
    pub closed spec fn staged(self) -> Seq<u8> {
        self.buffer@
    }

    /// The capacity of the buffer that the staged bytes are in.
    pub closed spec fn staging_capacity(self) -> int {
        self.buffer.spec_capacity()
    }

    /// No bytes yet. If `hint` is given, about so many are expected, and the
    /// first buffer is made for them; otherwise it is held in place.
    pub fn new(hint: Option<usize>) -> (r: SeqCollector)
        ensures
            r.wf(),
            r@ == Seq::<u8>::empty(),
            r.expected() == hint,
            r.staged() == Seq::<u8>::empty(),
            r.staging_capacity() == match hint {
                Some(n) => default_capacity(n as int),
                None => default_capacity(0),
            },
    {
        let capacity: usize = match hint {
            Some(n) => n,
            None => 0,
        };
        let r = SeqCollector { hint, cord: Cord::new(), buffer: CordBuffer::with_capacity(capacity), consumed: 0 };
        assert(r@ =~= Seq::<u8>::empty());
        r
    }

    /// Adds `byte`. A full buffer is replaced by a larger one up to the default
    /// limit, and appended to the cord after that.
    pub fn push(&mut self, byte: u8)
        requires
            old(self).wf(),
            old(self)@.len() < usize::MAX,
        ensures
            final(self).wf(),
            final(self)@ == old(self)@.push(byte),
            final(self).expected() == old(self).expected(),
            ({
                let full = old(self).staged().len() == old(self).staging_capacity();
                let whole = old(self).staging_capacity() == CordBuffer::DEFAULT_MAX_CAPACITY;
                &&& final(self).staged() == if full && whole {
                    seq![byte]
                } else {
                    old(self).staged().push(byte)
                }
                &&& final(self).staging_capacity() == if !full {
                    old(self).staging_capacity()
                } else if whole {
                    next_capacity(old(self).expected(), old(self)@.len() as int)
                } else {
                    grown_capacity(old(self).staging_capacity())
                }
            }),
    {
        if self.buffer.available() == 0 {
            self.make_room();
        }
        let one: [u8; 1] = [byte];
        self.buffer.put_slice(one.as_slice());
        self.consumed = self.consumed + 1;
        assert(self@ =~= old(self)@.push(byte));
    }

    /// Replaces a full buffer by one with room. A buffer below the default
    /// limit grows, so that a wrong hint does not leave a short chunk.
    fn make_room(&mut self)
        requires
            old(self).wf(),
            old(self)@.len() < usize::MAX,
            old(self).buffer@.len() == old(self).buffer.spec_capacity(),
        ensures
            final(self).wf(),
            final(self)@ == old(self)@,
            final(self).buffer@.len() < final(self).buffer.spec_capacity(),
            final(self).consumed == old(self).consumed,
            final(self).hint == old(self).hint,
            old(self).staging_capacity() < CordBuffer::DEFAULT_MAX_CAPACITY ==> {
                &&& final(self).staged() == old(self).staged()
                &&& final(self).staging_capacity() == grown_capacity(old(self).staging_capacity())
            },
            old(self).staging_capacity() == CordBuffer::DEFAULT_MAX_CAPACITY ==> {
                &&& final(self).staged() == Seq::<u8>::empty()
                &&& final(self).staging_capacity() == next_capacity(old(self).hint, old(self)@.len() as int)
            },
    {
        let capacity: usize = self.buffer.capacity();
        if capacity < CordBuffer::DEFAULT_MAX_CAPACITY {
            let wanted: usize = if capacity * 4 < CordBuffer::DEFAULT_MAX_CAPACITY {
                capacity * 4
            } else {
                CordBuffer::DEFAULT_MAX_CAPACITY
            };
            let mut grown = CordBuffer::with_capacity(wanted);
            proof {
                lemma_capacity_for(wanted as int, MAX_FLAT_SIZE as int);
            }
            grown.put_slice(self.buffer.as_slice());
            self.buffer = grown;
            assert(self.buffer@ =~= old(self).buffer@);
            assert(self@ =~= old(self)@);
        } else {
            let left: usize = match self.hint {
                Some(total) => total.saturating_sub(self.consumed),
                None => 0,
            };
            let wanted: usize = if left != 0 {
                left
            } else {
                CordBuffer::DEFAULT_MAX_CAPACITY
            };
            let mut full = CordBuffer::with_capacity(wanted);
            core::mem::swap(&mut self.buffer, &mut full);
            commit(&mut self.cord, full);
            proof {
                let before = old(self).cord@;
                lemma_cut_whole(before, full@);
                assert(cut(true, before) + seq![full@] =~= cut(true, before).push(full@));
                assert(self@ =~= old(self)@);
            }
        }
    }

    /// The cord of all bytes. Its chunks are those of a copy of the bytes,
    /// whatever hint was given.
    pub fn finish(self) -> (cord: Cord)
        requires
            self.wf(),
        ensures
            cord@ == self@,
            chunks_of(cord.contents()) == cut(true, self@),
    {
        let mut cord = self.cord;
        let buffer = self.buffer;
        commit(&mut cord, buffer);
        proof {
            let before = self.cord@;
            let last = self.buffer@;
            lemma_cut_whole(before, last);
            assert(cut(true, before) + cut(true, last) =~= if last.len() == 0 {
                cut(true, before)
            } else {
                cut(true, before).push(last)
            });
        }
        cord
    }
}

} // verus!
