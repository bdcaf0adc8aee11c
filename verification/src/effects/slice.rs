//! Slice: the text is sliced in two and the halves slide together.
use vstd::prelude::*;

verus! {

/// The slice effect.
#[derive(Clone, Copy, Debug, PartialEq, Eq, Structural)]
pub struct Slice;

impl Slice {
    pub fn new() -> (e: Self)
        ensures
            e == Slice,
    {
        Slice
    }

    pub fn name(&self) -> (n: &'static str)
        ensures
            n@ == "slice"@,
    {
        "slice"
    }
}

impl Default for Slice {
    fn default() -> (e: Self)
        ensures
            e == Slice,
    {
        Slice::new()
    }
}

} // verus!
