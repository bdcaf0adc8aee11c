use vstd::prelude::*;

use crate::geometry::Coord;

verus! {

/// A named stop on a motion path, optionally reached along a quadratic Bezier curve.
#[derive(Debug)]
pub struct Waypoint {
    pub waypoint_id: String,
    pub coord: Coord,
    pub bezier_control: Option<Coord>,
}

impl Clone for Waypoint {
    fn clone(&self) -> (w: Self)
        ensures
            w == *self,
    {
        Waypoint { waypoint_id: self.waypoint_id.clone(), coord: self.coord, bezier_control: self.bezier_control }
    }
}

} // verus!
