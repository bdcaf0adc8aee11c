//! Bouncy balls: characters drop onto the text as colored balls and bounce
//! into place.
use vstd::prelude::*;

use vstd::string::StringSliceAdditionalSpecFns;

use crate::effects::random::{fnv1a, fnv1a64, high32, xorshift64};
use crate::graphics::Color;

verus! {

/// The bouncy-balls effect.
#[derive(Clone, Copy, Debug, PartialEq, Eq, Structural)]
pub struct Bouncyballs;

impl Bouncyballs {
    pub fn new() -> (e: Self)
        ensures
            e == Bouncyballs,
    {
        Bouncyballs
    }

    pub fn name(&self) -> (n: &'static str)
        ensures
            n@ == "bouncyballs"@,
    {
        "bouncyballs"
    }
}

impl Default for Bouncyballs {
    fn default() -> (e: Self)
        ensures
            e == Bouncyballs,
    {
        Bouncyballs::new()
    }
}

/// The colors a ball can take.
pub fn ball_palette() -> (p: [Color; 3])
    ensures
        p@ == seq![
            Color { r: 0xd1, g: 0xf4, b: 0xa5 },
            Color { r: 0x96, g: 0xe2, b: 0xa4 },
            Color { r: 0x5a, g: 0xcd, b: 0xa9 },
        ],
{
    let p = [Color::rgb(0xd1, 0xf4, 0xa5), Color::rgb(0x96, 0xe2, 0xa4), Color::rgb(0x5a, 0xcd, 0xa9)];
    proof {
        assert(p@ =~= seq![
            Color { r: 0xd1, g: 0xf4, b: 0xa5 },
            Color { r: 0x96, g: 0xe2, b: 0xa4 },
            Color { r: 0x5a, g: 0xcd, b: 0xa9 },
        ]);
    }
    p
}

/// The stops of the final gradient.
pub fn final_stops() -> (p: [Color; 2])
    ensures
        p@ == seq![Color { r: 0xf8, g: 0xff, b: 0xae }, Color { r: 0x43, g: 0xc6, b: 0xac }],
{
    let p = [Color::rgb(0xf8, 0xff, 0xae), Color::rgb(0x43, 0xc6, 0xac)];
    proof {
        assert(p@ =~= seq![Color { r: 0xf8, g: 0xff, b: 0xae }, Color { r: 0x43, g: 0xc6, b: 0xac }]);
    }
    p
}

/// The effect's xorshift64 generator.
pub struct Rng {
    pub state: u64,
}

impl Rng {
    /// Seeds the generator; the low bit is set so the state is never zero.
    pub fn new(seed: u64) -> (r: Self)
        ensures
            r.state == seed | 1,
    {
        Rng { state: seed | 1 }
    }

    pub fn next_u32(&mut self) -> (v: u32)
        ensures
            final(self).state == xorshift64(old(self).state),
            v == high32(final(self).state),
    {
        let mut x = self.state;
        x = x ^ (x << 13u64);
        x = x ^ (x >> 7u64);
        x = x ^ (x << 17u64);
        self.state = x;
        (x >> 32u64) as u32
    }

    /// A draw in `low..high`; `low` itself, drawing nothing, when the range is empty.
    pub fn gen_range(&mut self, low: usize, high: usize) -> (v: usize)
        ensures
            high <= low ==> v == low && final(self).state == old(self).state,
            low < high ==> {
                &&& final(self).state == xorshift64(old(self).state)
                &&& v == low + (high32(final(self).state) as int) % (high - low)
                &&& low <= v < high
            },
    {
        if high <= low {
            return low;
        }
        low + (self.next_u32() as usize) % (high - low)
    }
}

/// The seed of the effect: FNV-1a over the input's bytes.
pub fn hash_input(input: &str) -> (h: u64)
    ensures
        h == fnv1a64(input.spec_bytes()),
{
    fnv1a(input.as_bytes())
}

} // verus!
