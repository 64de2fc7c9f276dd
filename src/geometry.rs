use vstd::prelude::*;

verus! {

/// Position units per world unit: positions are fixed-point thousandths.
pub const POS_SCALE: i64 = 1000;

/// Largest magnitude accepted for a coordinate or a radius, in position units.
pub const COORD_LIMIT: i64 = 0x1000_0000;

/// A point of the world plane, in position units.
#[derive(Clone, Copy, Debug, PartialEq, Eq, Structural)]
pub struct Point {
    pub x: i64,
    pub y: i64,
}

impl Point {
    /// Both coordinates lie within `COORD_LIMIT`, which keeps every product
    /// the engine forms inside its integer types.
    pub open spec fn valid(self) -> bool {
        -COORD_LIMIT <= self.x <= COORD_LIMIT && -COORD_LIMIT <= self.y <= COORD_LIMIT
    }

    pub fn new(x: i64, y: i64) -> (r: Point)
        ensures
            r.x == x,
            r.y == y,
    {
        Point { x, y }
    }
}

} // verus!
