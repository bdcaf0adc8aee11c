use vstd::prelude::*;

pub mod animation;
pub mod canvas;
pub mod character;
pub mod easing;
pub mod effects;
pub mod geometry;
pub mod graphics;
pub mod motion;
pub mod sorting;
pub mod terminal;
pub mod text;
pub mod utils;

verus! {

} // verus!
