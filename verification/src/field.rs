use vstd::prelude::*;

verus! {

/// The rectangular world the simulation runs in. Both dimensions must be
/// positive; every entity's bounding square stays inside `[0, width] x
/// [0, height]` at all times.
#[derive(Clone, Copy, PartialEq, Eq, Structural, Debug)]
pub struct Field {
    pub width: u32,
    pub height: u32,
}

impl Field {
    pub open spec fn wf(self) -> bool {
        self.width > 0 && self.height > 0
    }

    pub fn new(width: u32, height: u32) -> (r: Field)
        ensures
            r.width == width,
            r.height == height,
    {
        Field { width, height }
    }
}

/// One point in field coordinates.
#[derive(Clone, Copy, PartialEq, Eq, Structural, Debug)]
pub struct Point {
    pub x: u32,
    pub y: u32,
}

impl Point {
    pub fn new(x: u32, y: u32) -> (r: Point)
        ensures
            r.x == x,
            r.y == y,
    {
        Point { x, y }
    }
}

} // verus!
