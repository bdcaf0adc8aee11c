//! Spray: characters are sprayed from one point onto their places.
use vstd::prelude::*;

use crate::graphics::{long_channel, long_channel_of, Color};
use crate::text::{chars_of, strip_leading, strip_leading_chars};

verus! {

/// The spray effect.
#[derive(Clone, Copy, Debug, PartialEq, Eq, Structural)]
pub struct Spray;

impl Spray {
    pub fn new() -> (e: Self)
        ensures
            e == Spray,
    {
        Spray
    }

    pub fn name(&self) -> (n: &'static str)
        ensures
            n@ == "spray"@,
    {
        "spray"
    }
}

impl Default for Spray {
    fn default() -> (e: Self)
        ensures
            e == Spray,
    {
        Spray::new()
    }
}

/// The channel two hex digits name, 255 when they name none.
pub open spec fn channel_or_max(a: char, b: char) -> u8 {
    match long_channel(a, b) {
        Some(v) => v as u8,
        None => 255,
    }
}

/// The color of the first six characters after any leading `#`s, read as three
/// two-digit channels, each 255 when it is not hex.
pub fn hex_color(hex: &str) -> (c: Color)
    requires
        strip_leading(hex@, '#').len() >= 6,
        forall|i: int| 0 <= i < 6 ==> (#[trigger] strip_leading(hex@, '#')[i] as u32) < 0x80,
    ensures
        ({
            let h = strip_leading(hex@, '#');
            c == (Color {
                r: channel_or_max(h[0], h[1]),
                g: channel_or_max(h[2], h[3]),
                b: channel_or_max(h[4], h[5]),
            })
        }),
{
    let chars = chars_of(hex);
    let h = strip_leading_chars(&chars, '#');
    let r = match long_channel_of(h[0], h[1]) {
        Some(v) => v,
        None => 255,
    };
    let g = match long_channel_of(h[2], h[3]) {
        Some(v) => v,
        None => 255,
    };
    let b = match long_channel_of(h[4], h[5]) {
        Some(v) => v,
        None => 255,
    };
    Color::rgb(r, g, b)
}

} // verus!
