//! Rain: characters fall as raindrops into their places.
use vstd::prelude::*;

use crate::effects::random::xorshift64;
use crate::graphics::{from_hex_splits_char, parse_hex_color, Color};

verus! {

/// The rain effect.
#[derive(Clone, Copy, Debug, PartialEq, Eq, Structural)]
pub struct Rain;

impl Rain {
    pub fn new() -> (e: Self)
        ensures
            e == Rain,
    {
        Rain
    }

    pub fn name(&self) -> (n: &'static str)
        ensures
            n@ == "rain"@,
    {
        "rain"
    }
}

/// The color `hex` names, else a deep blue.
pub fn hex_color(hex: &str) -> (c: Color)
    requires
        !from_hex_splits_char(hex@),
    ensures
        c == (match parse_hex_color(hex@) {
            Some(x) => x,
            None => Color { r: 0, g: 49, b: 92 },
        }),
{
    match Color::from_hex(hex) {
        Some(c) => c,
        None => Color::rgb(0, 49, 92),
    }
}

/// The effect's xorshift64 generator, drawing the low 32 bits.
pub struct Rng {
    pub state: u64,
}

impl Rng {
    /// Seeds the generator; the low bit is set so the state is never zero.
    pub fn new(seed: u64) -> (r: Self)
        ensures
            r.state == seed | 1,
    {
        Rng { state: seed | 1 }
    }

    pub fn next_u32(&mut self) -> (v: u32)
        ensures
            final(self).state == xorshift64(old(self).state),
            v == final(self).state as u32,
    {
        let mut x = self.state;
        x = x ^ (x << 13u64);
        x = x ^ (x >> 7u64);
        x = x ^ (x << 17u64);
        self.state = x;
        x as u32
    }

    /// A draw in `lo..=hi`; `lo`, drawing nothing, when the range is empty.
    pub fn randint(&mut self, lo: usize, hi: usize) -> (v: usize)
        requires
            hi - lo + 1 <= usize::MAX,
        ensures
            hi <= lo ==> v == lo && final(self).state == old(self).state,
            lo < hi ==> {
                &&& final(self).state == xorshift64(old(self).state)
                &&& v == lo + ((final(self).state as u32) as int) % (hi - lo + 1)
                &&& lo <= v <= hi
            },
    {
        if hi <= lo {
            return lo;
        }
        lo + (self.next_u32() as usize % (hi - lo + 1))
    }
}

} // verus!
