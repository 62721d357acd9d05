//! The trivial XOR-fold hasher: input bytes are folded into eight lanes of a
//! 64-bit accumulator in a chunk-of-8 stride, remainder bytes into the
//! leading lanes; integer writes fold the value in directly.
//!
//! This is explicitly non-cryptographic. Its use assumes partition keys are
//! already well distributed; the snapshot format does not depend on it.

use vstd::prelude::*;

verus! {

/// The accumulator after folding the first `j` bytes of `s` into `h`: byte
/// `j` lands in lane `j % 8`, one lane being eight bits wide.
pub open spec fn xor_fold(h: u64, s: Seq<u8>, j: int) -> u64
    decreases j,
{
    if j <= 0 {
        h
    } else {
        xor_fold(h, s, j - 1) ^ ((s[j - 1] as u64) << (((j - 1) % 8) * 8))
    }
}

/// The XOR-fold accumulator.
pub struct TrivialHasher {
    hash: u64,
}

impl TrivialHasher {
    /// The current accumulator value.
    pub closed spec fn spec_hash(&self) -> u64 {
        self.hash
    }

    /// A fresh accumulator holding zero.
    pub fn new() -> (r: TrivialHasher)
        ensures
            r.spec_hash() == 0u64,
    {
        TrivialHasher { hash: 0 }
    }

    /// The accumulated hash.
    pub fn finish(&self) -> (r: u64)
        ensures
            r == self.spec_hash(),
    {
        self.hash
    }

    /// Folds the bytes in, lane by lane.
    pub fn write(&mut self, bytes: &[u8])
        ensures
            final(self).spec_hash() == xor_fold(old(self).spec_hash(), bytes@, bytes@.len() as int),
    {
        let ghost h0 = self.hash;
        let n = bytes.len();
        let mut j: usize = 0;
        while j < n
            invariant
                0 <= j <= n,
                n == bytes@.len(),
                self.hash == xor_fold(h0, bytes@, j as int),
            decreases n - j,
        {
            let lane = (j % 8) * 8;
            self.hash = self.hash ^ ((bytes[j] as u64) << lane);
            j += 1;
        }
    }

    /// Folds one byte into the first lane.
    pub fn write_u8(&mut self, i: u8)
        ensures
            final(self).spec_hash() == old(self).spec_hash() ^ (i as u64),
    {
        self.hash = self.hash ^ (i as u64);
    }

    /// Folds the value in directly.
    pub fn write_u16(&mut self, i: u16)
        ensures
            final(self).spec_hash() == old(self).spec_hash() ^ (i as u64),
    {
        self.hash = self.hash ^ (i as u64);
    }

    /// Folds the value in directly.
    pub fn write_u32(&mut self, i: u32)
        ensures
            final(self).spec_hash() == old(self).spec_hash() ^ (i as u64),
    {
        self.hash = self.hash ^ (i as u64);
    }

    /// Folds the value in directly.
    pub fn write_u64(&mut self, i: u64)
        ensures
            final(self).spec_hash() == old(self).spec_hash() ^ i,
    {
        self.hash = self.hash ^ i;
    }

    /// Folds the two 64-bit halves in.
    pub fn write_u128(&mut self, i: u128)
        ensures
            final(self).spec_hash() == old(self).spec_hash() ^ ((i as u64) ^ ((i >> 64) as u64)),
    {
        let lo = #[verifier::truncate] (i as u64);
        let hi = #[verifier::truncate] ((i >> 64) as u64);
        self.hash = self.hash ^ (lo ^ hi);
    }

    /// Folds the value in directly.
    pub fn write_usize(&mut self, i: usize)
        ensures
            final(self).spec_hash() == old(self).spec_hash() ^ (i as u64),
    {
        self.hash = self.hash ^ (i as u64);
    }

    /// Folds the value's bit pattern in.
    pub fn write_i8(&mut self, i: i8)
        ensures
            final(self).spec_hash() == old(self).spec_hash() ^ (i as u64),
    {
        let v = #[verifier::truncate] (i as u64);
        self.hash = self.hash ^ v;
    }

    /// Folds the value's bit pattern in.
    pub fn write_i16(&mut self, i: i16)
        ensures
            final(self).spec_hash() == old(self).spec_hash() ^ (i as u64),
    {
        let v = #[verifier::truncate] (i as u64);
        self.hash = self.hash ^ v;
    }

    /// Folds the value's bit pattern in.
    pub fn write_i32(&mut self, i: i32)
        ensures
            final(self).spec_hash() == old(self).spec_hash() ^ (i as u64),
    {
        let v = #[verifier::truncate] (i as u64);
        self.hash = self.hash ^ v;
    }

    /// Folds the value's bit pattern in.
    pub fn write_i64(&mut self, i: i64)
        ensures
            final(self).spec_hash() == old(self).spec_hash() ^ (i as u64),
    {
        let v = #[verifier::truncate] (i as u64);
        self.hash = self.hash ^ v;
    }

    /// Folds the two 64-bit halves of the bit pattern in.
    pub fn write_i128(&mut self, i: i128)
        ensures
            final(self).spec_hash() == old(self).spec_hash() ^ ((i as u64) ^ ((i >> 64) as u64)),
    {
        let lo = #[verifier::truncate] (i as u64);
        let hi = #[verifier::truncate] ((i >> 64) as u64);
        self.hash = self.hash ^ (lo ^ hi);
    }

    /// Folds the value's bit pattern in.
    pub fn write_isize(&mut self, i: isize)
        ensures
            final(self).spec_hash() == old(self).spec_hash() ^ (i as u64),
    {
        let v = #[verifier::truncate] (i as u64);
        self.hash = self.hash ^ v;
    }
}

impl Default for TrivialHasher {
    /// A fresh accumulator holding zero.
    fn default() -> (r: TrivialHasher)
        ensures
            r.spec_hash() == 0u64,
    {
        TrivialHasher { hash: 0 }
    }
}

} // verus!
