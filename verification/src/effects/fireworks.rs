//! Fireworks: shells launch from the bottom, burst, and their sparks
//! drop into place as the text.
use vstd::prelude::*;

use crate::geometry::Coord;
use crate::graphics::{gradient_spectrum, Color, Gradient};

verus! {

/// The fireworks effect.
#[derive(Clone, Copy, Debug, PartialEq, Eq, Structural)]
pub struct Fireworks;

impl Fireworks {
    pub fn new() -> (e: Self)
        ensures
            e == Fireworks,
    {
        Fireworks
    }

    pub fn name(&self) -> (n: &'static str)
        ensures
            n@ == "fireworks"@,
    {
        "fireworks"
    }
}

impl Default for Fireworks {
    fn default() -> (e: Self)
        ensures
            e == Fireworks,
    {
        Fireworks::new()
    }
}

/// One splitmix64 step of the state.
pub open spec fn splitmix_state(state: u64) -> u64 {
    state.wrapping_add(0x9E3779B97F4A7C15u64)
}

/// The splitmix64 output for a (stepped) state.
pub open spec fn splitmix_output(z0: u64) -> u64 {
    let z1 = (z0 ^ (z0 >> 30u64)).wrapping_mul(0xBF58476D1CE4E5B9u64);
    let z2 = (z1 ^ (z1 >> 27u64)).wrapping_mul(0x94D049BB133111EBu64);
    z2 ^ (z2 >> 31u64)
}

/// The effect's splitmix64 generator.
pub struct Rng {
    pub state: u64,
}

/// A draw in `0..n` and the state after it (`0`, drawing nothing, for `n == 0`).
pub open spec fn draw_index(state: u64, n: usize) -> (usize, u64) {
    if n == 0 {
        (0, state)
    } else {
        let s = splitmix_state(state);
        (((splitmix_output(s) as usize) as int % (n as int)) as usize, s)
    }
}

/// A draw in `lo..=hi` and the state after it (`lo`, drawing nothing, for an empty range).
pub open spec fn draw_i32(state: u64, lo: i32, hi: i32) -> (i32, u64) {
    if hi <= lo {
        (lo, state)
    } else {
        let d = draw_index(state, (hi - lo + 1) as usize);
        ((lo + d.0) as i32, d.1)
    }
}

impl Rng {
    /// Seeds the generator with the low bit set.
    pub fn new(seed: u64) -> (r: Self)
        ensures
            r.state == seed | 1,
    {
        Rng { state: seed | 1 }
    }

    pub fn next_u64(&mut self) -> (v: u64)
        ensures
            final(self).state == splitmix_state(old(self).state),
            v == splitmix_output(final(self).state),
    {
        self.state = self.state.wrapping_add(0x9E3779B97F4A7C15);
        let mut z = self.state;
        z = (z ^ (z >> 30u64)).wrapping_mul(0xBF58476D1CE4E5B9);
        z = (z ^ (z >> 27u64)).wrapping_mul(0x94D049BB133111EB);
        z ^ (z >> 31u64)
    }

    /// A draw in `0..n`; `0`, drawing nothing, when `n` is zero.
    pub fn usize(&mut self, n: usize) -> (v: usize)
        ensures
            (v, final(self).state) == draw_index(old(self).state, n),
            n > 0 ==> v < n,
    {
        if n == 0 {
            0
        } else {
            (self.next_u64() as usize) % n
        }
    }

    /// A draw in `lo..=hi`; `lo`, drawing nothing, when the range is empty.
    pub fn i32(&mut self, lo: i32, hi: i32) -> (v: i32)
        requires
            lo < hi ==> hi - lo < i32::MAX,
        ensures
            (v, final(self).state) == draw_i32(old(self).state, lo, hi),
            lo <= hi ==> lo <= v <= hi,
    {
        if hi <= lo {
            lo
        } else {
            let d = self.usize((hi - lo + 1) as usize);
            lo + d as i32
        }
    }
}

/// A coordinate drawn inside the given bounds (given in either order): the column
/// first, then the row.
pub fn random_coord(rng: &mut Rng, left: i32, right: i32, bottom: i32, top: i32) -> (c: Coord)
    requires
        left - right < i32::MAX && right - left < i32::MAX,
        bottom - top < i32::MAX && top - bottom < i32::MAX,
    ensures
        ({
            let (c0, c1) = if left <= right { (left, right) } else { (right, left) };
            let (r0, r1) = if bottom <= top { (bottom, top) } else { (top, bottom) };
            let col = draw_i32(old(rng).state, c0, c1);
            let row = draw_i32(col.1, r0, r1);
            c == Coord { column: col.0, row: row.0 } && final(rng).state == row.1
        }),
{
    let (c0, c1) = if left <= right {
        (left, right)
    } else {
        (right, left)
    };
    let (r0, r1) = if bottom <= top {
        (bottom, top)
    } else {
        (top, bottom)
    };
    let column = rng.i32(c0, c1);
    let row = rng.i32(r0, r1);
    Coord::new(column, row)
}

/// Each color of `colors` shown twice in a row.
pub open spec fn doubled(colors: Seq<Color>) -> Seq<Color> {
    Seq::new(2 * colors.len(), |k: int| colors[k / 2])
}

/// The colors a shell blooms through, two frames each: from its color up to white in
/// six steps, then back down in twelve.
pub open spec fn blossom(firework: Color) -> Seq<Color> {
    let white = Color { r: 255, g: 255, b: 255 };
    doubled(gradient_spectrum(seq![firework, white], 6) + gradient_spectrum(seq![white, firework], 12))
}

fn push_doubled(frames: &mut Vec<Color>, colors: &[Color])
    ensures
        final(frames)@ == old(frames)@ + doubled(colors@),
{
    let mut i: usize = 0;
    while i < colors.len()
        invariant
            i <= colors@.len(),
            frames@ == old(frames)@ + doubled(colors@.take(i as int)),
        decreases colors.len() - i,
    {
        frames.push(colors[i]);
        frames.push(colors[i]);
        proof {
            assert(doubled(colors@.take(i + 1)) =~= doubled(colors@.take(i as int)).push(colors@[i as int]).push(
                colors@[i as int],
            ));
        }
        i = i + 1;
    }
    proof {
        assert(colors@.take(colors@.len() as int) =~= colors@);
    }
}

/// The bloom colors of a shell.
pub fn blossom_palette(firework: Color) -> (frames: Vec<Color>)
    ensures
        frames@ == blossom(firework),
{
    let white = Color::rgb(255, 255, 255);
    let up_stops = vec![firework, white];
    let down_stops = vec![white, firework];
    proof {
        assert(up_stops@ =~= seq![firework, white]);
        assert(down_stops@ =~= seq![white, firework]);
    }
    let up = Gradient::new(up_stops.as_slice(), 6);
    let down = Gradient::new(down_stops.as_slice(), 12);
    let mut frames: Vec<Color> = Vec::new();
    push_doubled(&mut frames, up.spectrum());
    push_doubled(&mut frames, down.spectrum());
    proof {
        let a = gradient_spectrum(seq![firework, white], 6);
        let b = gradient_spectrum(seq![white, firework], 12);
        assert(doubled(a) + doubled(b) =~= doubled(a + b));
    }
    if frames.len() == 0 {
        frames.push(firework);
        proof {
            assert(false);
        }
    }
    frames
}

} // verus!
