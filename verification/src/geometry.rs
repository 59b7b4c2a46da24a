//! Points of the flat layout.

use crate::fixed::{in_range, COORD_MAX};
use vstd::prelude::*;

verus! {

/// A point or a displacement of the plane, in fixed-point millimetres.
#[derive(Clone, Copy, Debug, PartialEq, Eq, Structural)]
pub struct Point2 {
    pub x: i64,
    pub y: i64,
}

impl Point2 {
    /// Whether both coordinates are within the accepted range.
    pub open spec fn in_range(self) -> bool {
        in_range(self.x as int) && in_range(self.y as int)
    }

    /// Tests whether both coordinates are within the accepted range.
    pub fn is_in_range(&self) -> (ok: bool)
        ensures
            ok == self.in_range(),
    {
        -COORD_MAX <= self.x && self.x <= COORD_MAX && -COORD_MAX <= self.y && self.y <= COORD_MAX
    }
}

/// An axis-aligned rectangle given by its least and greatest corner.
#[derive(Clone, Copy, Debug, PartialEq, Eq, Structural)]
pub struct Rect {
    pub min: Point2,
    pub max: Point2,
}

impl Rect {
    /// The centre of the rectangle, each coordinate rounded down.
    pub open spec fn center_spec(self) -> Point2 {
        Point2 {
            x: ((self.min.x + self.max.x) / 2) as i64,
            y: ((self.min.y + self.max.y) / 2) as i64,
        }
    }

    /// The centre of the rectangle, each coordinate rounded down.
    pub fn center(&self) -> (c: Point2)
        ensures
            c == self.center_spec(),
    {
        let x: i128 = crate::fixed::floor_div(self.min.x as i128 + self.max.x as i128, 2);
        let y: i128 = crate::fixed::floor_div(self.min.y as i128 + self.max.y as i128, 2);
        Point2 { x: x as i64, y: y as i64 }
    }
}

} // verus!
