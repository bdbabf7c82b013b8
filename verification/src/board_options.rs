//! Configuration surface of a session: grid size, mine count, tile pixel
//! size, board anchoring, and the safe-start flag.

use vstd::prelude::*;

use crate::bounds::{PixelPoint, PIXEL_LIMIT};

verus! {

/// Grid dimensions of the board.
#[derive(Debug, Clone, Copy, PartialEq, Eq, Structural)]
pub struct BoardSize {
    pub columns: u16,
    pub rows: u16,
}

/// Tile size options. Only a fixed pixel size is supported; adaptive sizing
/// based on a display viewport is explicitly unsupported.
#[derive(Debug, Clone, Copy, PartialEq, Eq, Structural)]
pub enum TileSize {
    /// Fixed tile size, in pixels.
    Fixed(u32),
    /// Window-adaptive tile size; recognized but unsupported.
    Adaptive { min: u32, max: u32 },
}

/// Board anchor position options.
#[derive(Debug, Clone, Copy, PartialEq, Eq, Structural)]
pub enum BoardPosition {
    /// Centered board, shifted by an offset.
    Centered { offset: PixelPoint },
    /// Custom anchor position.
    Custom(PixelPoint),
}

/// The options a collaborator hands in when it asks for a board.
#[derive(Debug, Clone, Copy, PartialEq, Eq, Structural)]
pub struct BoardOptions {
    /// Tile map size.
    pub map_size: BoardSize,
    /// How many mines to place; must not exceed `columns * rows`.
    pub bomb_count: u16,
    /// Board anchor position in pixel space.
    pub position: BoardPosition,
    /// Tile pixel size.
    pub tile_size: TileSize,
    /// Pixel gap between tiles; presentation-only, passed through unread.
    pub tile_padding: u32,
    /// Whether the first `Empty` cell in scan order is flagged for an
    /// immediate auto-reveal, so the first interaction cannot be a loss.
    pub safe_start: bool,
}

impl BoardOptions {
    /// The fixed tile pixel size; unspecified for the unsupported adaptive
    /// variant.
    pub open spec fn spec_tile_size_px(self) -> int {
        match self.tile_size {
            TileSize::Fixed(size) => size as int,
            TileSize::Adaptive { .. } => arbitrary(),
        }
    }

    /// Width of the board in pixels.
    pub open spec fn spec_board_width_px(self) -> int {
        self.map_size.columns as int * self.spec_tile_size_px()
    }

    /// Height of the board in pixels.
    pub open spec fn spec_board_height_px(self) -> int {
        self.map_size.rows as int * self.spec_tile_size_px()
    }

    /// The pixel-space anchor (bottom left) of the board: either centered
    /// around the origin with an offset, halves rounded toward zero, or the
    /// custom position as given.
    pub open spec fn spec_board_position_px(self) -> PixelPoint {
        match self.position {
            BoardPosition::Centered { offset } => PixelPoint {
                x: (offset.x - self.spec_board_width_px() / 2) as i64,
                y: (offset.y - self.spec_board_height_px() / 2) as i64,
            },
            BoardPosition::Custom(p) => p,
        }
    }

    /// The board is configured with a fixed tile size, the pixel extents stay
    /// within the magnitude limit, and the anchor does too.
    pub open spec fn pixel_layout_ok(self) -> bool {
        &&& self.tile_size is Fixed
        &&& 1 <= self.spec_tile_size_px()
        &&& self.spec_board_width_px() <= PIXEL_LIMIT as int
        &&& self.spec_board_height_px() <= PIXEL_LIMIT as int
        &&& match self.position {
            BoardPosition::Centered { offset } => -(PIXEL_LIMIT as int) / 2 <= offset.x
                <= (PIXEL_LIMIT as int) / 2 && -(PIXEL_LIMIT as int) / 2 <= offset.y <= (
            PIXEL_LIMIT as int) / 2,
            BoardPosition::Custom(p) => -(PIXEL_LIMIT as int) <= p.x <= PIXEL_LIMIT as int && -(
            PIXEL_LIMIT as int) <= p.y <= PIXEL_LIMIT as int,
        }
    }

    /// The fixed tile pixel size. Adaptive sizing is not supported, so the
    /// options must carry a fixed size.
    pub fn tile_size_px(&self) -> (r: u32)
        requires
            self.tile_size is Fixed,
        ensures
            r as int == self.spec_tile_size_px(),
    {
        match self.tile_size {
            TileSize::Fixed(size) => size,
            TileSize::Adaptive { .. } => unreached(),
        }
    }

    /// The pixel extent of the whole board.
    pub fn board_size(&self) -> (r: PixelPoint)
        requires
            self.tile_size is Fixed,
        ensures
            r.x == self.spec_board_width_px(),
            r.y == self.spec_board_height_px(),
    {
        let tile_size_pixels = self.tile_size_px();
        proof {
            assert(self.map_size.columns as int * (tile_size_pixels as int) < 0x1_0000_0000_0000int
                && self.map_size.rows as int * (tile_size_pixels as int) < 0x1_0000_0000_0000int)
                by (nonlinear_arith)
                requires
                    0 <= self.map_size.columns as int <= 0xffff,
                    0 <= self.map_size.rows as int <= 0xffff,
                    0 <= tile_size_pixels as int <= 0xffff_ffff,
            ;
        }
        PixelPoint {
            x: (self.map_size.columns as i64) * (tile_size_pixels as i64),
            y: (self.map_size.rows as i64) * (tile_size_pixels as i64),
        }
    }

    /// The pixel-space anchor position (bottom left) of the board.
    pub fn board_position_px(&self) -> (r: PixelPoint)
        requires
            self.pixel_layout_ok(),
        ensures
            r == self.spec_board_position_px(),
    {
        let board_size = self.board_size();
        match self.position {
            BoardPosition::Centered { offset } => {
                let half_x = ((board_size.x as u64) / 2) as i64;
                let half_y = ((board_size.y as u64) / 2) as i64;
                PixelPoint { x: offset.x - half_x, y: offset.y - half_y }
            },
            BoardPosition::Custom(p) => p,
        }
    }
}

impl Default for TileSize {
    /// The recognized default tile sizing of the configuration surface.
    fn default() -> (r: Self)
        ensures
            r == (TileSize::Adaptive { min: 10u32, max: 50u32 }),
    {
        Self::Adaptive { min: 10, max: 50 }
    }
}

impl Default for BoardPosition {
    /// A board centered on the origin.
    fn default() -> (r: Self)
        ensures
            r == (BoardPosition::Centered { offset: PixelPoint { x: 0i64, y: 0i64 } }),
    {
        Self::Centered { offset: PixelPoint { x: 0, y: 0 } }
    }
}

} // verus!
