//! Slide: rows slide in from the side, one after the other.
use vstd::prelude::*;

verus! {

/// The slide effect.
#[derive(Clone, Copy, Debug, PartialEq, Eq, Structural)]
pub struct Slide;

impl Slide {
    pub fn new() -> (e: Self)
        ensures
            e == Slide,
    {
        Slide
    }

    pub fn name(&self) -> (n: &'static str)
        ensures
            n@ == "slide"@,
    {
        "slide"
    }
}

impl Default for Slide {
    fn default() -> (e: Self)
        ensures
            e == Slide,
    {
        Slide::new()
    }
}

} // verus!
