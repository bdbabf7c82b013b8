//! Grid-space cell index: `(column, row)` with the origin at the bottom-left
//! corner of the board.
//!
//! Coordinates are never validated against grid bounds at construction time;
//! bounds checks happen at the point of grid lookup. All arithmetic saturates,
//! so a coordinate can never underflow below zero nor wrap around.

use vstd::prelude::*;

verus! {

/// Saturating sum of a coordinate component and a signed delta, clamped into
/// the representable range of `u16`.
pub open spec fn sat_component(v: int, d: int) -> int {
    if v + d < 0 {
        0
    } else if v + d > u16::MAX {
        u16::MAX as int
    } else {
        v + d
    }
}

/// A 2D unsigned grid index. `coord_x` is the column, `coord_y` the row.
#[derive(Debug, Clone, Copy, Hash, PartialEq, Eq, Structural)]
pub struct Coordinates {
    pub coord_y: u16,
    pub coord_x: u16,
}

impl Coordinates {
    /// Component-wise saturating addition of two coordinates.
    pub fn add(self, rhs: Coordinates) -> (r: Coordinates)
        ensures
            r.coord_x as int == sat_component(self.coord_x as int, rhs.coord_x as int),
            r.coord_y as int == sat_component(self.coord_y as int, rhs.coord_y as int),
    {
        Coordinates {
            coord_x: self.coord_x.saturating_add(rhs.coord_x),
            coord_y: self.coord_y.saturating_add(rhs.coord_y),
        }
    }

    /// Applies a signed neighbor delta with saturation, so that underflow
    /// clamps to 0 instead of wrapping around.
    pub fn add_offset(self, offset: (i8, i8)) -> (r: Coordinates)
        ensures
            r.coord_x as int == sat_component(self.coord_x as int, offset.0 as int),
            r.coord_y as int == sat_component(self.coord_y as int, offset.1 as int),
    {
        let x: i32 = self.coord_x as i32 + offset.0 as i32;
        let y: i32 = self.coord_y as i32 + offset.1 as i32;
        Coordinates { coord_x: clamp_u16(x), coord_y: clamp_u16(y) }
    }

    /// Component-wise saturating subtraction.
    pub fn sub(self, rhs: Coordinates) -> (r: Coordinates)
        ensures
            r.coord_x as int == sat_component(self.coord_x as int, -(rhs.coord_x as int)),
            r.coord_y as int == sat_component(self.coord_y as int, -(rhs.coord_y as int)),
    {
        Coordinates {
            coord_x: self.coord_x.saturating_sub(rhs.coord_x),
            coord_y: self.coord_y.saturating_sub(rhs.coord_y),
        }
    }
}

/// Clamps a signed value into the range of `u16`.
fn clamp_u16(v: i32) -> (r: u16)
    ensures
        r as int == sat_component(v as int, 0),
{
    if v < 0 {
        0
    } else if v > u16::MAX as i32 {
        u16::MAX
    } else {
        v as u16
    }
}

} // verus!
