//! Points of the plane.
use vstd::prelude::*;

verus! {

/// A point of the plane.
pub type Point = crate::nbase::point::Point<2>;

/// The point with the given coordinates.
pub fn p2(x: i64, y: i64) -> (p: Point)
    ensures
        p@ == (crate::nbase::point::V2 { x: x as int, y: y as int }),
{
    crate::nbase::point::Point { vs: [x, y] }
}

} // verus!
