//! Copying a few bytes.

use super::MAX_INLINE;
use vstd::prelude::*;

verus! {

/// Copies `src`, of at most `MAX_INLINE` bytes, to the start of `dst`. With
/// `NULLIFY_TAIL` zeros follow them, up to `MAX_INLINE` bytes in all. What
/// lies behind stays as it is.
pub fn small_memmove<const NULLIFY_TAIL: bool>(dst: &mut [u8], src: &[u8])
    requires
        src@.len() <= MAX_INLINE,
        src@.len() <= old(dst)@.len(),
        NULLIFY_TAIL ==> old(dst)@.len() >= MAX_INLINE,
    ensures
        final(dst)@.len() == old(dst)@.len(),
        final(dst)@.take(src@.len() as int) == src@,
        forall|i: int|
            #![trigger final(dst)@[i]]
            src@.len() <= i < old(dst)@.len() ==> final(dst)@[i] == if NULLIFY_TAIL && i < MAX_INLINE {
                0
            } else {
                old(dst)@[i]
            },
{
    let n: usize = src.len();
    let mut i: usize = 0;
    while i < n
        invariant
            i <= n,
            n == src@.len(),
            n <= dst@.len(),
            dst@.len() == old(dst)@.len(),
            forall|k: int| #![trigger dst@[k]] 0 <= k < i ==> dst@[k] == src@[k],
            forall|k: int| #![trigger dst@[k]] i <= k < dst@.len() ==> dst@[k] == old(dst)@[k],
        decreases n - i,
    {
        dst[i] = src[i];
        i += 1;
    }
    if NULLIFY_TAIL {
        while i < MAX_INLINE
            invariant
                n <= i <= MAX_INLINE,
                n == src@.len(),
                dst@.len() >= MAX_INLINE,
                dst@.len() == old(dst)@.len(),
                forall|k: int| #![trigger dst@[k]] 0 <= k < n ==> dst@[k] == src@[k],
                forall|k: int| #![trigger dst@[k]] n <= k < i ==> dst@[k] == 0,
                forall|k: int| #![trigger dst@[k]] i <= k < dst@.len() ==> dst@[k] == old(dst)@[k],
            decreases MAX_INLINE - i,
        {
            dst[i] = 0;
            i += 1;
        }
    }
    assert(dst@.take(n as int) =~= src@);
}

} // verus!
