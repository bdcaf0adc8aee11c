//! Expand: characters spread out from the center of the text to their places.
use vstd::prelude::*;

verus! {

/// The expand effect.
#[derive(Clone, Copy, Debug, PartialEq, Eq, Structural)]
pub struct Expand;

impl Expand {
    pub fn new() -> (e: Self)
        ensures
            e == Expand,
    {
        Expand
    }

    pub fn name(&self) -> (n: &'static str)
        ensures
            n@ == "expand"@,
    {
        "expand"
    }
}

} // verus!
