use vstd::prelude::*;

verus! {

/// Identifies one character of the input text.
#[derive(Clone, Copy, Debug, PartialEq, Eq, Hash, PartialOrd, Ord, Structural)]
pub struct CharacterId(pub u32);

/// The characters directly around a character in the input text.
#[derive(Clone, Copy, Debug, Default, PartialEq, Eq, Structural)]
pub struct Neighbors {
    pub above: Option<CharacterId>,
    pub below: Option<CharacterId>,
    pub left: Option<CharacterId>,
    pub right: Option<CharacterId>,
}

} // verus!
