//! Scattered: characters fly into place from random canvas positions.
use vstd::prelude::*;
use vstd::string::StringSliceAdditionalSpecFns;

use crate::effects::bubbles::{inclusive_span, saturate_i32};
use crate::effects::random::{fnv1a, fnv1a64, high32, lcg64};

verus! {

/// The scattered effect.
#[derive(Clone, Copy, Debug, PartialEq, Eq, Structural)]
pub struct Scattered;

impl Scattered {
    pub fn new() -> (e: Self)
        ensures
            e == Scattered,
    {
        Scattered
    }

    pub fn name(&self) -> (n: &'static str)
        ensures
            n@ == "scattered"@,
    {
        "scattered"
    }
}

impl Default for Scattered {
    fn default() -> (e: Self)
        ensures
            e == Scattered,
    {
        Scattered::new()
    }
}

/// The seed of the effect: FNV-1a over the input's bytes.
pub fn input_hash(input: &str) -> (h: u64)
    ensures
        h == fnv1a64(input.spec_bytes()),
{
    fnv1a(input.as_bytes())
}

/// The effect's 64-bit linear congruential generator, drawing its high 32 bits.
pub struct Lcg(pub u64);

impl Lcg {
    /// Seeds the generator with the low bit set.
    pub fn new(seed: u64) -> (r: Self)
        ensures
            r.0 == seed | 1,
    {
        Lcg(seed | 1)
    }

    pub fn next_u32(&mut self) -> (v: u32)
        ensures
            final(self).0 == lcg64(old(self).0),
            v == high32(final(self).0),
    {
        self.0 = self.0.wrapping_mul(6364136223846793005).wrapping_add(1);
        (self.0 >> 32u64) as u32
    }

    /// A draw in `lo..=hi` (`lo` when the range is empty), added to `lo` with saturation.
    pub fn inclusive(&mut self, lo: i32, hi: i32) -> (v: i32)
        requires
            hi - lo + 1 != 0x1_0000_0000,
        ensures
            hi <= lo ==> v == lo && final(self).0 == old(self).0,
            lo < hi ==> {
                &&& final(self).0 == lcg64(old(self).0)
                &&& v == saturate_i32(lo + ((high32(final(self).0) % inclusive_span(lo, hi)) as i32))
            },
    {
        if hi <= lo {
            return lo;
        }
        let span = (hi as i64 - lo as i64 + 1) as u32;
        let offset = (self.next_u32() % span) as i32;
        let sum = lo as i64 + offset as i64;
        if sum > i32::MAX as i64 {
            i32::MAX
        } else if sum < i32::MIN as i64 {
            i32::MIN
        } else {
            sum as i32
        }
    }
}

} // verus!
