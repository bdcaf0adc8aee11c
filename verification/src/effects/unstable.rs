//! Unstable: the text rumbles, explodes to the canvas edges and reassembles.
use vstd::prelude::*;

use crate::effects::bubbles::{inclusive_span, saturate_i32};
use crate::effects::random::high32;
use crate::effects::smoke::mmix;
use crate::graphics::{from_hex_splits_char, parse_hex_color, Color};

verus! {

/// The unstable effect.
#[derive(Clone, Copy, Debug, PartialEq, Eq, Structural)]
pub struct Unstable;

impl Unstable {
    pub fn new() -> (e: Self)
        ensures
            e == Unstable,
    {
        Unstable
    }

    pub fn name(&self) -> (n: &'static str)
        ensures
            n@ == "unstable"@,
    {
        "unstable"
    }
}

/// Where a character is: holding and rumbling, flying out, flying back, or at rest.
#[derive(Clone, Copy, Debug, PartialEq, Eq, Structural)]
pub enum Stage {
    Hold,
    Out,
    Back,
    Rest,
}

/// The color of a spectrum shown `tick` frames in, each color held `hold` frames (at
/// least one), staying on the last; white for an empty spectrum.
pub open spec fn spectrum_at(spectrum: Seq<Color>, tick: u32, hold: u32) -> Color {
    if spectrum.len() == 0 {
        Color { r: 255, g: 255, b: 255 }
    } else {
        let idx = tick / (if hold > 1 { hold } else { 1 });
        spectrum[if idx < spectrum.len() - 1 { idx as int } else { spectrum.len() - 1 }]
    }
}

pub fn spectrum_color(spectrum: &[Color], tick: u32, hold: u32) -> (c: Color)
    ensures
        c == spectrum_at(spectrum@, tick, hold),
{
    if spectrum.len() == 0 {
        return Color::rgb(255, 255, 255);
    }
    let idx = (tick / (if hold > 1 { hold } else { 1 })) as usize;
    spectrum[if idx < spectrum.len() - 1 { idx } else { spectrum.len() - 1 }]
}

/// The color `hex` names, else `(r, g, b)`.
pub fn hex_color(hex: &str, r: u8, g: u8, b: u8) -> (c: Color)
    requires
        !from_hex_splits_char(hex@),
    ensures
        c == (match parse_hex_color(hex@) {
            Some(x) => x,
            None => Color { r, g, b },
        }),
{
    match Color::from_hex(hex) {
        Some(c) => c,
        None => Color::rgb(r, g, b),
    }
}

/// The effect's MMIX generator, drawing its high 32 bits.
pub struct SimpleRng(pub u64);

impl SimpleRng {
    /// Seeds the generator with the low bit set.
    pub fn new(seed: u64) -> (r: Self)
        ensures
            r.0 == seed | 1,
    {
        SimpleRng(seed | 1)
    }

    pub fn next(&mut self) -> (v: u32)
        ensures
            final(self).0 == mmix(old(self).0),
            v == high32(final(self).0),
    {
        self.0 = self.0.wrapping_mul(6364136223846793005).wrapping_add(1442695040888963407);
        (self.0 >> 32u64) as u32
    }

    /// A draw in `lo..=hi` (`lo` when the range is empty), added to `lo` with saturation.
    pub fn inclusive(&mut self, lo: i32, hi: i32) -> (v: i32)
        requires
            hi - lo + 1 != 0x1_0000_0000,
        ensures
            hi <= lo ==> v == lo && final(self).0 == old(self).0,
            lo < hi ==> {
                &&& final(self).0 == mmix(old(self).0)
                &&& v == saturate_i32(lo + ((high32(final(self).0) % inclusive_span(lo, hi)) as i32))
            },
    {
        if hi <= lo {
            return lo;
        }
        let span = (hi as i64 - lo as i64 + 1) as u32;
        let offset = (self.next() % span) as i32;
        let sum = lo as i64 + offset as i64;
        if sum > i32::MAX as i64 {
            i32::MAX
        } else if sum < i32::MIN as i64 {
            i32::MIN
        } else {
            sum as i32
        }
    }

    /// A draw in `0..n`; `0`, drawing nothing, when `n` is zero.
    pub fn index(&mut self, n: usize) -> (i: usize)
        ensures
            n == 0 ==> i == 0 && final(self).0 == old(self).0,
            n > 0 ==> final(self).0 == mmix(old(self).0) && i == (high32(final(self).0) as int) % (n as int),
            n > 0 ==> i < n,
    {
        if n == 0 {
            0
        } else {
            (self.next() as usize) % n
        }
    }
}

} // verus!
