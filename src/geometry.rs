//! Points and axis-aligned boxes in the unsigned coordinate plane.

use vstd::prelude::*;

verus! {

/// A point (or a displacement) with unsigned integer coordinates.
#[derive(Clone, Copy, Debug, PartialEq, Eq, Structural)]
pub struct Point2 {
    pub x: u32,
    pub y: u32,
}

impl Point2 {
    pub fn new(x: u32, y: u32) -> (r: Point2)
        ensures
            r.x == x,
            r.y == y,
    {
        Point2 { x, y }
    }
}

/// An axis-aligned box given by its lower and upper corners.
#[derive(Clone, Copy, Debug, PartialEq, Eq, Structural)]
pub struct AABB2 {
    pub lower_bound: Point2,
    pub upper_bound: Point2,
}

impl AABB2 {
    /// The upper corner lies on or above the lower corner on both axes.
    pub open spec fn wf(self) -> bool {
        self.lower_bound.x <= self.upper_bound.x && self.lower_bound.y <= self.upper_bound.y
    }

    pub open spec fn width_spec(self) -> int {
        self.upper_bound.x - self.lower_bound.x
    }

    pub open spec fn height_spec(self) -> int {
        self.upper_bound.y - self.lower_bound.y
    }

    pub fn new(lower_bound: Point2, upper_bound: Point2) -> (r: AABB2)
        ensures
            r.lower_bound == lower_bound,
            r.upper_bound == upper_bound,
    {
        AABB2 { lower_bound, upper_bound }
    }

    pub fn get_width(&self) -> (r: u32)
        requires
            self.lower_bound.x <= self.upper_bound.x,
        ensures
            r == self.width_spec(),
    {
        self.upper_bound.x - self.lower_bound.x
    }

    pub fn get_height(&self) -> (r: u32)
        requires
            self.lower_bound.y <= self.upper_bound.y,
        ensures
            r == self.height_spec(),
    {
        self.upper_bound.y - self.lower_bound.y
    }
}

} // verus!
