//! Classification of a single grid cell's contents.
//!
//! A tile's variant is fixed at grid-generation time and never mutated
//! afterwards; only the covering state layered above it changes.

use vstd::prelude::*;

verus! {

/// What a grid cell holds: nothing, a mine, or a count of neighboring mines.
///
/// A well-formed grid only uses `MineNeighbor(n)` with `1 <= n <= 8`, and a
/// `Mine` tile is never simultaneously a `MineNeighbor`.
#[derive(Debug, Clone, Copy, PartialEq, Eq, Structural)]
pub enum Tile {
    /// No mine here and no mine on any of the 8 neighboring cells.
    Empty,
    /// A mine.
    Mine,
    /// No mine here, but `n` of the 8 neighbor offsets land on a mine.
    MineNeighbor(u8),
}

impl Tile {
    /// True exactly of the `Mine` variant.
    pub fn is_mine(&self) -> (r: bool)
        ensures
            r <==> (*self is Mine),
    {
        matches!(self, Tile::Mine)
    }
}

} // verus!
