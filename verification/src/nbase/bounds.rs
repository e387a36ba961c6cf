//! Axis-aligned boxes given by two opposite corners.
use crate::nbase::point::Point;
use vstd::prelude::*;

verus! {

/// The box between a lowest and a highest corner.
#[derive(Clone, Copy, Debug, PartialEq, Eq)]
pub struct Bounds<const N: usize> {
    pub min: Point<N>,
    pub max: Point<N>,
}

impl Bounds<2> {
    /// Both corners are well-formed.
    pub open spec fn wf(self) -> bool {
        self.min.wf() && self.max.wf()
    }

    /// The closed box holds the point.
    pub open spec fn spec_contains(self, p: Point<2>) -> bool {
        self.min@.x <= p@.x <= self.max@.x && self.min@.y <= p@.y <= self.max@.y
    }

    /// Whether the closed box holds the point.
    pub fn contains(&self, p: Point<2>) -> (r: bool)
        ensures
            r == self.spec_contains(p),
    {
        self.min.vs[0] <= p.vs[0] && p.vs[0] <= self.max.vs[0] && self.min.vs[1] <= p.vs[1]
            && p.vs[1] <= self.max.vs[1]
    }

    /// The box grown by `d` on every side.
    pub fn expand_by(&self, d: i64) -> (r: Bounds<2>)
        requires
            self.wf(),
            -0x4000_0000_0000_0000 <= d <= 0x4000_0000_0000_0000,
        ensures
            r.min@.x == self.min@.x - d,
            r.min@.y == self.min@.y - d,
            r.max@.x == self.max@.x + d,
            r.max@.y == self.max@.y + d,
    {
        Bounds {
            min: Point { vs: [self.min.vs[0] - d, self.min.vs[1] - d] },
            max: Point { vs: [self.max.vs[0] + d, self.max.vs[1] + d] },
        }
    }
}

impl Bounds<3> {
    /// Both corners are well-formed.
    pub open spec fn wf(self) -> bool {
        self.min.wf() && self.max.wf()
    }

    /// The closed box holds the point.
    pub open spec fn spec_contains(self, p: Point<3>) -> bool {
        self.min@.x <= p@.x <= self.max@.x && self.min@.y <= p@.y <= self.max@.y && self.min@.z
            <= p@.z <= self.max@.z
    }

    /// Whether the closed box holds the point.
    pub fn contains(&self, p: Point<3>) -> (r: bool)
        ensures
            r == self.spec_contains(p),
    {
        self.min.vs[0] <= p.vs[0] && p.vs[0] <= self.max.vs[0] && self.min.vs[1] <= p.vs[1]
            && p.vs[1] <= self.max.vs[1] && self.min.vs[2] <= p.vs[2] && p.vs[2] <= self.max.vs[2]
    }

    /// The box grown by `d` on every side.
    pub fn expand_by(&self, d: i64) -> (r: Bounds<3>)
        requires
            self.wf(),
            -0x4000_0000_0000_0000 <= d <= 0x4000_0000_0000_0000,
        ensures
            r.min@ == self.min@.sub(crate::nbase::point::V3 { x: d as int, y: d as int, z: d as int }),
            r.max@ == self.max@.add(crate::nbase::point::V3 { x: d as int, y: d as int, z: d as int }),
    {
        Bounds {
            min: Point { vs: [self.min.vs[0] - d, self.min.vs[1] - d, self.min.vs[2] - d] },
            max: Point { vs: [self.max.vs[0] + d, self.max.vs[1] + d, self.max.vs[2] + d] },
        }
    }
}

} // verus!
