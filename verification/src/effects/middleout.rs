//! Middle out: the text grows from the center line outward.
use vstd::prelude::*;

use crate::graphics::{from_hex_splits_char, parse_hex_color, Color};

verus! {

/// The middleout effect.
#[derive(Clone, Copy, Debug, PartialEq, Eq, Structural)]
pub struct Middleout;

impl Middleout {
    pub fn new() -> (e: Self)
        ensures
            e == Middleout,
    {
        Middleout
    }

    pub fn name(&self) -> (n: &'static str)
        ensures
            n@ == "middleout"@,
    {
        "middleout"
    }
}

impl Default for Middleout {
    fn default() -> (e: Self)
        ensures
            e == Middleout,
    {
        Middleout::new()
    }
}

/// The color `hex` names, else the fallback channels.
pub fn hex_color(hex: &str, fallback: (u8, u8, u8)) -> (c: Color)
    requires
        !from_hex_splits_char(hex@),
    ensures
        c == (match parse_hex_color(hex@) {
            Some(x) => x,
            None => Color { r: fallback.0, g: fallback.1, b: fallback.2 },
        }),
{
    match Color::from_hex(hex) {
        Some(c) => c,
        None => Color::rgb(fallback.0, fallback.1, fallback.2),
    }
}

} // verus!
