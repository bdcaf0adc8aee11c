//! Spotlights: lights search the text, then converge and expand to light it all.
use vstd::prelude::*;

use crate::graphics::{from_hex_splits_char, parse_hex_color, Color};

verus! {

/// The spotlights effect.
#[derive(Clone, Copy, Debug, PartialEq, Eq, Structural)]
pub struct Spotlights;

impl Spotlights {
    pub fn new() -> (e: Self)
        ensures
            e == Spotlights,
    {
        Spotlights
    }

    pub fn name(&self) -> (n: &'static str)
        ensures
            n@ == "spotlights"@,
    {
        "spotlights"
    }
}

impl Default for Spotlights {
    fn default() -> (e: Self)
        ensures
            e == Spotlights,
    {
        Spotlights::new()
    }
}

/// The color `hex` names, else mid grey.
pub fn hex_color(hex: &str) -> (c: Color)
    requires
        !from_hex_splits_char(hex@),
    ensures
        c == (match parse_hex_color(hex@) {
            Some(x) => x,
            None => Color { r: 128, g: 128, b: 128 },
        }),
{
    match Color::from_hex(hex) {
        Some(c) => c,
        None => Color::rgb(128, 128, 128),
    }
}

} // verus!
