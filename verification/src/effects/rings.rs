//! Rings: characters disperse into concentric spinning rings, then return home.
use vstd::prelude::*;

use crate::graphics::{from_hex_splits_char, hex_or_white, Color};

verus! {

/// The rings effect.
#[derive(Clone, Copy, Debug, PartialEq, Eq, Structural)]
pub struct Rings;

impl Rings {
    pub fn new() -> (e: Self)
        ensures
            e == Rings,
    {
        Rings
    }

    pub fn name(&self) -> (n: &'static str)
        ensures
            n@ == "rings"@,
    {
        "rings"
    }
}

impl Default for Rings {
    fn default() -> (e: Self)
        ensures
            e == Rings,
    {
        Rings::new()
    }
}

/// The color `hex` names, white when it names none.
pub fn hex_color(hex: &str) -> (c: Color)
    requires
        !from_hex_splits_char(hex@),
    ensures
        c == hex_or_white(hex@),
{
    match Color::from_hex(hex) {
        Some(c) => c,
        None => Color::rgb(255, 255, 255),
    }
}

} // verus!
