//! What a cord feeds to a hasher: its length and its bytes in blocks of a
//! fixed size, so that it does not matter how the bytes are held.

use crate::cord::Cord;
use vstd::prelude::*;
use vstd::slice::slice_subrange;

verus! {

/// The size of all blocks but the last.
pub const HASH_BLOCK: usize = 1024;

/// `bytes` in blocks of `HASH_BLOCK` bytes, where the last block may be shorter but is not empty.
pub open spec fn hash_blocks(bytes: Seq<u8>) -> Seq<Seq<u8>>
    decreases bytes.len(),
{
    if bytes.len() == 0 {
        Seq::empty()
    } else if bytes.len() <= HASH_BLOCK {
        seq![bytes]
    } else {
        seq![bytes.take(HASH_BLOCK as int)] + hash_blocks(bytes.skip(HASH_BLOCK as int))
    }
}

/// The contents of `blocks`.
pub open spec fn block_views(blocks: Seq<Vec<u8>>) -> Seq<Seq<u8>> {
    Seq::new(blocks.len(), |i: int| blocks[i]@)
}

/// Full blocks followed by what is not in a block yet.
proof fn lemma_hash_blocks(full: Seq<Seq<u8>>, part: Seq<u8>, rest: Seq<u8>, bytes: Seq<u8>)
    requires
        bytes.len() > 0,
        part.len() == HASH_BLOCK,
        rest.len() > 0,
        full + hash_blocks(part + rest) == hash_blocks(bytes),
    ensures
        full.push(part) + hash_blocks(rest) == hash_blocks(bytes),
{
    let both = part + rest;
    assert(both.take(HASH_BLOCK as int) =~= part);
    assert(both.skip(HASH_BLOCK as int) =~= rest);
    assert(full.push(part) + hash_blocks(rest) =~= full + hash_blocks(both));
}

impl Cord {
    /// The blocks to feed to a hasher, after the length.
    pub fn blocks_for_hash(&self) -> (blocks: Vec<Vec<u8>>)
        ensures
            block_views(blocks@) == hash_blocks(self@),
    {
        let mut blocks: Vec<Vec<u8>> = Vec::new();
        let mut buffer: Vec<u8> = Vec::new();
        let mut chunks = self.chunks();
        proof {
            assert(buffer@ + chunks.rest() =~= self@);
            assert(block_views(blocks@) + hash_blocks(self@) =~= hash_blocks(self@));
        }
        while chunks.remaining() > 0
            invariant
                chunks.wf(),
                buffer@.len() <= HASH_BLOCK,
                block_views(blocks@) + hash_blocks(buffer@ + chunks.rest()) == hash_blocks(self@),
                chunks.rest().len() > 0 ==> self@.len() > 0,
            decreases chunks.rest().len(),
        {
            let ghost left = chunks.rest();
            let chunk = chunks.next().unwrap();
            let len: usize = chunk.len();
            let mut done: usize = 0;
            proof {
                assert(chunk@.skip(0) =~= chunk@);
                assert(buffer@ + left =~= buffer@ + (chunk@.skip(0) + chunks.rest()));
            }
            while done < len
                invariant
                    done <= len,
                    len == chunk@.len(),
                    self@.len() > 0,
                    buffer@.len() <= HASH_BLOCK,
                    block_views(blocks@) + hash_blocks(buffer@ + (chunk@.skip(done as int) + chunks.rest()))
                        == hash_blocks(self@),
                decreases len - done, HASH_BLOCK - buffer@.len(),
            {
                if buffer.len() == HASH_BLOCK {
                    let ghost rest = chunk@.skip(done as int) + chunks.rest();
                    let ghost full = blocks@;
                    let mut empty: Vec<u8> = Vec::new();
                    core::mem::swap(&mut buffer, &mut empty);
                    proof {
                        lemma_hash_blocks(block_views(full), empty@, rest, self@);
                    }
                    blocks.push(empty);
                    proof {
                        assert(block_views(blocks@) =~= block_views(full).push(empty@));
                        assert(buffer@ + rest =~= rest);
                    }
                }
                let room: usize = HASH_BLOCK - buffer.len();
                let n: usize = if len - done <= room {
                    len - done
                } else {
                    room
                };
                let piece = slice_subrange(chunk, done, done + n);
                let ghost held = buffer@;
                buffer.extend_from_slice(piece);
                proof {
                    assert(buffer@ =~= held + piece@);
                    assert(held + (chunk@.skip(done as int) + chunks.rest()) =~= buffer@ + (chunk@.skip(done + n)
                        + chunks.rest()));
                }
                done = done + n;
            }
            assert(chunk@.skip(done as int) + chunks.rest() =~= chunks.rest());
        }
        assert(buffer@ + chunks.rest() =~= buffer@);
        if buffer.len() > 0 {
            let ghost full = blocks@;
            blocks.push(buffer);
            assert(block_views(blocks@) =~= block_views(full) + hash_blocks(buffer@));
        } else {
            assert(block_views(blocks@) =~= block_views(blocks@) + hash_blocks(buffer@));
        }
        blocks
    }
}

} // verus!
