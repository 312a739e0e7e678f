//! A running checksum over the outcomes of checks.

use vstd::bytes::{spec_u64_to_le_bytes, u64_to_le_bytes};
use vstd::prelude::*;

verus! {

/// The factor of each step.
pub const FNV_PRIME: u64 = 0x0000_0100_0000_01b3;
/// The initial state.
pub const FNV_OFFSET: u64 = 0xcbf2_9ce4_8422_2325;

/// A step of the FNV-1a hash.
pub open spec fn fnv_step(state: u64, byte: u8) -> u64 {
    (((state ^ (byte as u64)) as int * FNV_PRIME as int) % 0x1_0000_0000_0000_0000) as u64
}

/// The FNV-1a hash of `bytes`, from `state` on.
pub open spec fn fnv(state: u64, bytes: Seq<u8>) -> u64
    decreases bytes.len(),
{
    if bytes.len() == 0 {
        state
    } else {
        fnv_step(fnv(state, bytes.drop_last()), bytes.last())
    }
}

/// The FNV-1a hash.
#[derive(Clone, Copy)]
pub struct Fnv {
    /// The hash so far.
    pub state: u64,
}

impl Fnv {
    /// The hash of nothing.
    pub fn new() -> (r: Fnv)
        ensures
            r.state == FNV_OFFSET,
    {
        Fnv { state: FNV_OFFSET }
    }

    /// Adds `bytes`.
    pub fn write(&mut self, bytes: &[u8])
        ensures
            final(self).state == fnv(old(self).state, bytes@),
    {
        let mut i: usize = 0;
        assert(bytes@.take(0) =~= Seq::<u8>::empty());
        while i < bytes.len()
            invariant
                i <= bytes@.len(),
                self.state == fnv(old(self).state, bytes@.take(i as int)),
            decreases bytes@.len() - i,
        {
            proof {
                assert(bytes@.take(i + 1).drop_last() =~= bytes@.take(i as int));
            }
            let mixed: u64 = self.state ^ (bytes[i] as u64);
            self.state = mixed.wrapping_mul(FNV_PRIME);
            i += 1;
        }
        assert(bytes@.take(i as int) =~= bytes@);
    }

    /// The hash.
    pub fn finish(&self) -> (state: u64)
        ensures
            state == self.state,
    {
        self.state
    }
}

/// A checksum over the outcomes of checks, and the first of them that failed.
pub struct Checker {
    /// The checksum.
    pub sum: u64,
    /// The number of the first check that failed, or zero.
    pub first_failure: u32,
    /// The number of checks that failed.
    pub failures: u32,
    /// The number of the next check.
    pub next_id: u32,
}

impl Checker {
    /// Not more checks failed than were made.
    pub open spec fn wf(self) -> bool {
        self.failures < self.next_id && self.first_failure < self.next_id && (self.first_failure == 0
            <==> self.failures == 0)
    }

    /// No checks so far.
    pub fn new() -> (r: Checker)
        ensures
            r.wf(),
            r.sum == 0x9e37_79b9_7f4a_7c15,
            r.failures == 0,
            r.next_id == 1,
    {
        Checker { sum: 0x9e37_79b9_7f4a_7c15, first_failure: 0, failures: 0, next_id: 1 }
    }

    /// Mixes `value` into the checksum.
    pub fn mix(&mut self, value: u64)
        ensures
            final(self).sum == fnv(old(self).sum, spec_u64_to_le_bytes(value)),
            final(self).first_failure == old(self).first_failure,
            final(self).failures == old(self).failures,
            final(self).next_id == old(self).next_id,
    {
        let mut hash = Fnv { state: self.sum };
        let bytes = u64_to_le_bytes(value);
        hash.write(bytes.as_slice());
        self.sum = hash.finish();
    }

    /// Records a check that succeeded if `ok`.
    pub fn check(&mut self, ok: bool)
        requires
            old(self).wf(),
            old(self).next_id < u32::MAX,
        ensures
            final(self).wf(),
            final(self).next_id == old(self).next_id + 1,
            final(self).failures == old(self).failures + if ok { 0int } else { 1int },
            final(self).first_failure == if ok || old(self).first_failure != 0 {
                old(self).first_failure
            } else {
                old(self).next_id
            },
            final(self).sum == fnv(old(self).sum, spec_u64_to_le_bytes(if ok { 1u64 } else { 0u64 })),
    {
        let id: u32 = self.next_id;
        self.next_id = id + 1;
        if !ok {
            self.failures = self.failures + 1;
            if self.first_failure == 0 {
                self.first_failure = id;
            }
        }
        let value: u64 = if ok {
            1
        } else {
            0
        };
        self.mix(value);
    }
}

/// Adding bytes in two steps is adding them at once.
pub proof fn law_fnv_append(state: u64, a: Seq<u8>, b: Seq<u8>)
    ensures
        fnv(state, a + b) == fnv(fnv(state, a), b),
    decreases b.len(),
{
    if b.len() == 0 {
        assert(a + b =~= a);
    } else {
        law_fnv_append(state, a, b.drop_last());
        assert((a + b).drop_last() =~= a + b.drop_last());
    }
}

} // verus!
