//! FNV-1a over the small binding keys of the scope registry: no SipHash
//! rounds and no randomness (the keys are internal ids, not user input).

use vstd::prelude::*;

verus! {

/// The FNV-1a 64-bit offset basis.
pub const FNV_OFFSET: u64 = 0xcbf2_9ce4_8422_2325;

/// The FNV-1a 64-bit prime.
pub const FNV_PRIME: u64 = 0x0000_0100_0000_01b3;

/// One FNV-1a round: xor the byte in, multiply by the prime (mod 2^64).
pub open spec fn fnv_round(h: u64, b: u8) -> u64 {
    ((((h ^ (b as u64)) as int) * (FNV_PRIME as int)) % 0x1_0000_0000_0000_0000) as u64
}

/// The FNV-1a state after feeding `bytes` to state `h`.
pub open spec fn fnv_feed(h: u64, bytes: Seq<u8>) -> u64
    decreases bytes.len(),
{
    if bytes.len() == 0 {
        h
    } else {
        fnv_round(fnv_feed(h, bytes.drop_last()), bytes.last())
    }
}

/// Feeding in two pieces is feeding their concatenation: the hash is a
/// pure function of the byte stream, however it is split into writes.
pub proof fn lemma_fnv_feed_concat(h: u64, a: Seq<u8>, b: Seq<u8>)
    ensures
        fnv_feed(fnv_feed(h, a), b) == fnv_feed(h, a + b),
    decreases b.len(),
{
    if b.len() == 0 {
        assert(a + b =~= a);
    } else {
        lemma_fnv_feed_concat(h, a, b.drop_last());
        assert((a + b).drop_last() =~= a + b.drop_last());
        assert((a + b).last() == b.last());
    }
}

/// The FNV-1a hasher state.
pub struct FnvHasher(pub u64);

impl Default for FnvHasher {
    /// A fresh hasher at the offset basis.
    fn default() -> (h: Self)
        ensures
            h.0 == FNV_OFFSET,
    {
        FnvHasher(FNV_OFFSET)
    }
}

impl FnvHasher {
    /// The hash of everything written so far.
    pub fn finish(&self) -> (r: u64)
        ensures
            r == self.0,
    {
        self.0
    }

    /// Feed `bytes`, one FNV-1a round per byte.
    pub fn write(&mut self, bytes: &[u8])
        ensures
            final(self).0 == fnv_feed(old(self).0, bytes@),
    {
        let ghost start = self.0;
        let mut i: usize = 0;
        while i < bytes.len()
            invariant
                i <= bytes@.len(),
                self.0 == fnv_feed(start, bytes@.take(i as int)),
                start == old(self).0,
            decreases bytes@.len() - i,
        {
            proof {
                assert(bytes@.take(i + 1).drop_last() =~= bytes@.take(i as int));
                assert(bytes@.take(i + 1).last() == bytes@[i as int]);
            }
            let mixed = self.0 ^ bytes[i] as u64;
            self.0 = mixed.wrapping_mul(FNV_PRIME);
            i += 1;
        }
        proof {
            assert(bytes@.take(i as int) =~= bytes@);
        }
    }
}

} // verus!
