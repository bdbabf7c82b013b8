//! Integer pixel-space geometry used for translating pointer positions into
//! grid coordinates. The engine never renders; these values only place the
//! board inside a window.

use vstd::prelude::*;

verus! {

/// Magnitude limit on the pixel positions and sizes the engine handles, so
/// that coordinate arithmetic stays far away from `i64` overflow.
pub const PIXEL_LIMIT: i64 = 0x4000_0000_0000;

/// A 2D pixel-space point or extent, in whole pixels. The y axis grows upward
/// from the board's bottom-left anchor.
#[derive(Debug, Clone, Copy, PartialEq, Eq, Structural)]
pub struct PixelPoint {
    pub x: i64,
    pub y: i64,
}

/// An axis-aligned pixel-space rectangle: a bottom-left anchor position and a
/// size.
#[derive(Debug, Clone, Copy, PartialEq, Eq, Structural)]
pub struct Bounds2 {
    pub position: PixelPoint,
    pub size: PixelPoint,
}

impl Bounds2 {
    /// Non-negative extents, everything within the pixel magnitude limit.
    pub open spec fn wf(self) -> bool {
        &&& 0 <= self.size.x <= PIXEL_LIMIT as int
        &&& 0 <= self.size.y <= PIXEL_LIMIT as int
        &&& -(PIXEL_LIMIT as int) <= self.position.x <= PIXEL_LIMIT as int
        &&& -(PIXEL_LIMIT as int) <= self.position.y <= PIXEL_LIMIT as int
    }

    /// Whether `p` lies in the rectangle: lower edges inclusive, upper edges
    /// exclusive.
    pub open spec fn spec_in_bounds(self, p: PixelPoint) -> bool {
        &&& self.position.x <= p.x < self.position.x + self.size.x
        &&& self.position.y <= p.y < self.position.y + self.size.y
    }

    /// The precise axis-aligned bounds test.
    pub fn in_bounds(&self, p: PixelPoint) -> (r: bool)
        requires
            self.wf(),
        ensures
            r == self.spec_in_bounds(p),
    {
        self.position.x <= p.x && p.x < self.position.x + self.size.x && self.position.y <= p.y
            && p.y < self.position.y + self.size.y
    }
}

} // verus!
