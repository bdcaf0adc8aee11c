//! Swarm: characters gather in swarms that fly around the canvas before
//! settling into place.
use vstd::prelude::*;
use vstd::string::StringSliceAdditionalSpecFns;

use crate::effects::bubbles::{inclusive_span, saturate_i32};
use crate::effects::random::{high32, xorshift64};
use crate::geometry::Coord;

verus! {

/// The swarm effect.
#[derive(Clone, Copy, Debug, PartialEq, Eq, Structural)]
pub struct Swarm;

impl Swarm {
    pub fn new() -> (e: Self)
        ensures
            e == Swarm,
    {
        Swarm
    }

    pub fn name(&self) -> (n: &'static str)
        ensures
            n@ == "swarm"@,
    {
        "swarm"
    }
}

impl Default for Swarm {
    fn default() -> (e: Self)
        ensures
            e == Swarm,
    {
        Swarm::new()
    }
}

/// The seed of the effect: a multiply-by-131 fold over the input's bytes.
pub open spec fn seed_of(bytes: Seq<u8>) -> u64
    decreases bytes.len(),
{
    if bytes.len() == 0 {
        0x7377_6172_6d5f_7474u64
    } else {
        seed_of(bytes.drop_last()).wrapping_mul(131u64).wrapping_add(bytes.last() as u64)
    }
}

/// A draw in `lo..=hi` (added with saturation) and the state after it; `lo`, drawing
/// nothing, when the range is empty.
pub open spec fn draw(state: u64, lo: i32, hi: i32) -> (i32, u64) {
    if hi <= lo {
        (lo, state)
    } else {
        let next = xorshift64(state);
        (saturate_i32(lo + ((high32(next) % inclusive_span(lo, hi)) as i32)), next)
    }
}

/// The effect's xorshift64 generator.
pub struct Rng {
    pub state: u64,
}

impl Rng {
    /// Seeds the generator from the input; the low bit is set.
    pub fn from_input(input: &str) -> (r: Self)
        ensures
            r.state == seed_of(input.spec_bytes()) | 1,
    {
        let bytes = input.as_bytes();
        let mut seed: u64 = 0x7377_6172_6d5f_7474;
        let mut i: usize = 0;
        while i < bytes.len()
            invariant
                i <= bytes@.len(),
                bytes@ == input.spec_bytes(),
                seed == seed_of(bytes@.take(i as int)),
            decreases bytes.len() - i,
        {
            proof {
                assert(bytes@.take(i as int + 1).drop_last() =~= bytes@.take(i as int));
            }
            seed = seed.wrapping_mul(131).wrapping_add(bytes[i] as u64);
            i = i + 1;
        }
        proof {
            assert(bytes@.take(bytes@.len() as int) =~= bytes@);
        }
        Rng { state: seed | 1 }
    }

    pub fn next_u32(&mut self) -> (v: u32)
        ensures
            final(self).state == xorshift64(old(self).state),
            v == high32(final(self).state),
    {
        let mut x = self.state;
        x = x ^ (x << 13u64);
        x = x ^ (x >> 7u64);
        x = x ^ (x << 17u64);
        self.state = x;
        (x >> 32u64) as u32
    }

    /// A draw in `lo..=hi`; `lo`, drawing nothing, when the range is empty.
    pub fn inclusive(&mut self, lo: i32, hi: i32) -> (v: i32)
        requires
            hi - lo + 1 != 0x1_0000_0000,
        ensures
            (v, final(self).state) == draw(old(self).state, lo, hi),
    {
        if hi <= lo {
            return lo;
        }
        let span = (hi as i64 - lo as i64 + 1) as u32;
        let offset = (self.next_u32() % span) as i32;
        let sum = lo as i64 + offset as i64;
        if sum > i32::MAX as i64 {
            i32::MAX
        } else if sum < i32::MIN as i64 {
            i32::MIN
        } else {
            sum as i32
        }
    }

    /// A draw in `0..len`; `0`, drawing nothing, for fewer than two items.
    pub fn index(&mut self, len: usize) -> (i: usize)
        ensures
            len <= 1 ==> i == 0 && final(self).state == old(self).state,
            len > 1 ==> final(self).state == xorshift64(old(self).state) && i == (high32(final(self).state) as int)
                % (len as int),
            len > 1 ==> i < len,
    {
        if len <= 1 {
            0
        } else {
            (self.next_u32() as usize) % len
        }
    }
}

/// The ranges can be drawn from: neither spans all of `i32`.
pub open spec fn drawable(left: i32, right: i32, top: i32, bottom: i32) -> bool {
    right - left + 1 != 0x1_0000_0000 && top - bottom + 1 != 0x1_0000_0000
}

/// A cell drawn inside the bounds: the column first, then the row.
pub fn random_inside(rng: &mut Rng, left: i32, right: i32, top: i32, bottom: i32) -> (c: Coord)
    requires
        drawable(left, right, top, bottom),
    ensures
        ({
            let col = draw(old(rng).state, left, right);
            let row = draw(col.1, bottom, top);
            c == Coord { column: col.0, row: row.0 } && final(rng).state == row.1
        }),
{
    let column = rng.inclusive(left, right);
    let row = rng.inclusive(bottom, top);
    Coord::new(column, row)
}

/// A cell drawn just outside the bounds: a side is drawn (top, bottom, left, right),
/// then the position along it.
pub fn random_outside(rng: &mut Rng, left: i32, right: i32, top: i32, bottom: i32) -> (c: Coord)
    requires
        drawable(left, right, top, bottom),
        top < i32::MAX && bottom > i32::MIN && left > i32::MIN && right < i32::MAX,
    ensures
        ({
            let side = draw(old(rng).state, 0, 3);
            if side.0 == 0 {
                let col = draw(side.1, left, right);
                c == Coord { column: col.0, row: (top + 1) as i32 } && final(rng).state == col.1
            } else if side.0 == 1 {
                let col = draw(side.1, left, right);
                c == Coord { column: col.0, row: (bottom - 1) as i32 } && final(rng).state == col.1
            } else if side.0 == 2 {
                let row = draw(side.1, bottom, top);
                c == Coord { column: (left - 1) as i32, row: row.0 } && final(rng).state == row.1
            } else {
                let row = draw(side.1, bottom, top);
                c == Coord { column: (right + 1) as i32, row: row.0 } && final(rng).state == row.1
            }
        }),
{
    let side = rng.inclusive(0, 3);
    if side == 0 {
        Coord::new(rng.inclusive(left, right), top + 1)
    } else if side == 1 {
        Coord::new(rng.inclusive(left, right), bottom - 1)
    } else if side == 2 {
        Coord::new(left - 1, rng.inclusive(bottom, top))
    } else {
        Coord::new(right + 1, rng.inclusive(bottom, top))
    }
}

} // verus!
