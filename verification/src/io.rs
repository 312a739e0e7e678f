//! Reading and seeking with a cursor.

use crate::iter::Cursor;
use crate::read::copy_at;
use vstd::prelude::*;
use vstd::slice::slice_subrange;

verus! {

/// Where to move a cursor.
#[derive(Clone, Copy, Debug, PartialEq, Eq, Structural)]
pub enum SeekTo {
    /// An offset from the start.
    Start(u64),
    /// An offset from the end.
    End(i64),
    /// An offset from the current position.
    Current(i64),
}

/// A seek to a negative position or to one behind the end.
#[derive(Clone, Copy, Debug, PartialEq, Eq, Structural)]
pub struct InvalidSeek;

impl SeekTo {
    /// The position, for a cursor at `at` of a cord of `len` bytes.
    pub open spec fn target(self, at: int, len: int) -> int {
        match self {
            SeekTo::Start(n) => n as int,
            SeekTo::End(delta) => len + delta,
            SeekTo::Current(delta) => at + delta,
        }
    }
}

/// A seek from the start goes to its offset, one from the end to the length
/// plus its offset, and one from the position to the position plus its offset,
/// forwards and backwards.
pub proof fn law_seek_target(at: int, len: int, n: u64, delta: i64)
    ensures
        SeekTo::Start(n).target(at, len) == n,
        SeekTo::End(delta).target(at, len) - len == delta,
        SeekTo::Current(delta).target(at, len) - at == delta,
{
}

/// Moving by an offset and then by its negative leads back, and moving by two
/// offsets is moving by their sum, from every position and in every cord.
pub proof fn law_seek_back(at: int, len: int, there: i64, back: i64, both: i64)
    requires
        both == there + back,
    ensures
        ({
            let mid = SeekTo::Current(there).target(at, len);
            let end = SeekTo::Current(back).target(mid, len);
            &&& end == SeekTo::Current(both).target(at, len)
            &&& back == -there ==> end == at
        }),
{
}

/// Every position can be sought from every other in each of the three ways,
/// as far as the offset fits.
pub proof fn law_seek_ways(at: int, len: int, wanted: int)
    requires
        0 <= at <= len <= i64::MAX,
        0 <= wanted <= len,
    ensures
        SeekTo::Start(wanted as u64).target(at, len) == wanted,
        SeekTo::End((wanted - len) as i64).target(at, len) == wanted,
        SeekTo::Current((wanted - at) as i64).target(at, len) == wanted,
{
}

impl<'a> Cursor<'a> {
    /// Copies the next bytes to `buf`, as many as there are and as fit, moves
    /// behind them, and returns their number.
    pub fn read(&mut self, buf: &mut [u8]) -> (n: usize)
        requires
            old(self).wf(),
        ensures
            n == if old(self).rest().len() <= old(buf)@.len() { old(self).rest().len() } else { old(buf)@.len() },
            final(buf)@ == old(self).rest().take(n as int) + old(buf)@.skip(n as int),
            final(self).wf(),
            final(self).source() == old(self).source(),
            final(self).at() == old(self).at() + n,
    {
        let ghost all = self.rest();
        let ghost start = buf@;
        let room: usize = buf.len();
        let mut written: usize = 0;
        proof {
            assert(all.skip(0) =~= all);
            assert(buf@ =~= all.take(0) + start.skip(0));
        }
        while written < room && self.has_remaining()
            invariant
                self.wf(),
                self.source() == old(self).source(),
                self.at() == old(self).at() + written,
                room == start.len(),
                written <= room,
                written <= all.len(),
                all == old(self).rest(),
                start == old(buf)@,
                self.rest() == all.skip(written as int),
                buf@ == all.take(written as int) + start.skip(written as int),
            decreases room - written,
        {
            let chunk = self.chunk();
            let n: usize = if chunk.len() <= room - written {
                chunk.len()
            } else {
                room - written
            };
            let part = slice_subrange(chunk, 0, n);
            let ghost before = buf@;
            copy_at(buf, written, part);
            proof {
                assert(part@ =~= all.subrange(written as int, written + n));
                assert(buf@ =~= all.take(written + n) + start.skip(written + n));
                assert(all.skip(written as int).skip(n as int) =~= all.skip(written + n));
            }
            self.advance(n);
            written = written + n;
        }
        written
    }

    /// Appends all bytes behind the position to `buf`, moves to the end, and
    /// returns their number.
    pub fn read_to_end(&mut self, buf: &mut Vec<u8>) -> (n: usize)
        requires
            old(self).wf(),
        ensures
            n == old(self).rest().len(),
            final(buf)@ == old(buf)@ + old(self).rest(),
            final(self).wf(),
            final(self).source() == old(self).source(),
            final(self).at() == old(self).bytes().len(),
    {
        let ghost start = buf@;
        let n: usize = self.remaining();
        proof {
            self.lemma_at();
        }
        let mut chunks = self.chunks();
        while chunks.remaining() > 0
            invariant
                chunks.wf(),
                buf@ + chunks.rest() == start + self.rest(),
            decreases chunks.rest().len(),
        {
            let ghost held = buf@;
            let ghost left = chunks.rest();
            let chunk = chunks.next().unwrap();
            buf.extend_from_slice(chunk);
            assert(buf@ =~= held + chunk@);
            assert(held + left =~= buf@ + chunks.rest());
        }
        assert(buf@ + chunks.rest() =~= buf@);
        self.advance(n);
        n
    }

    /// Moves to `pos`. The cursor stays where it is if that is no position of the cord.
    pub fn seek(&mut self, pos: SeekTo) -> (r: Result<u64, InvalidSeek>)
        requires
            old(self).wf(),
        ensures
            final(self).wf(),
            final(self).source() == old(self).source(),
            ({
                let len = old(self).bytes().len() as int;
                let target = pos.target(old(self).at(), len);
                &&& r is Ok <==> 0 <= target <= len
                &&& r matches Ok(reached) ==> reached == target && final(self).at() == target
                &&& r is Err ==> *final(self) == *old(self)
            }),
            pos matches SeekTo::Start(n) ==> (r is Ok <==> n <= old(self).bytes().len()),
            pos matches SeekTo::End(delta) ==> (r is Ok <==> -delta <= old(self).bytes().len() && delta <= 0),
            pos matches SeekTo::Current(delta) ==> (r is Ok <==> -delta <= old(self).at() && delta
                <= old(self).rest().len()),
            r is Ok ==> match pos {
                SeekTo::Start(n) => final(self).at() == n,
                SeekTo::End(delta) => final(self).at() == old(self).bytes().len() + delta,
                SeekTo::Current(delta) => final(self).at() == old(self).at() + delta,
            },
    {
        proof {
            self.lemma_at();
        }
        let current: usize = self.position();
        let len: usize = current + self.remaining();
        let target: Option<u64> = match pos {
            SeekTo::Start(n) => Some(n),
            SeekTo::End(delta) => (len as u64).checked_add_signed(delta),
            SeekTo::Current(delta) => (current as u64).checked_add_signed(delta),
        };
        match target {
            Some(target) => {
                if target > len as u64 {
                    return Err(InvalidSeek);
                }
                let wanted: usize = target as usize;
                if wanted >= current {
                    self.advance(wanted - current);
                } else {
                    let mut moved = Cursor::new(self.cord());
                    proof {
                        moved.lemma_at();
                    }
                    moved.advance(wanted);
                    *self = moved;
                }
                Ok(target)
            },
            None => Err(InvalidSeek),
        }
    }

    /// The position.
    pub fn stream_position(&self) -> (n: u64)
        requires
            self.wf(),
        ensures
            n == self.at(),
    {
        self.position() as u64
    }
}

} // verus!
