//! Logical engine of a grid-based mine-clearing puzzle.
//!
//! The engine owns the truth about which cells hold mines, which cells are
//! still covered or flagged, and the rules for reveal propagation and win
//! detection. Rendering, input handling and animation are left to a
//! collaborator that drives the engine through plain values and opaque
//! per-cell handles.

pub mod board;
pub mod board_options;
pub mod bounds;
pub mod coordinates;
pub mod events;
pub mod rng;
pub mod tile;
pub mod tile_map;

pub use board::Board;
pub use board::RevealOutcome;
pub use board_options::BoardOptions;
pub use board_options::BoardPosition;
pub use board_options::BoardSize;
pub use board_options::TileSize;
pub use bounds::Bounds2;
pub use bounds::PixelPoint;
pub use coordinates::Coordinates;
pub use events::BoardCompletedEvent;
pub use events::BombExplosionEvent;
pub use events::TileMarkEvent;
pub use events::TileTriggerEvent;
pub use tile::Tile;
pub use tile_map::TileMap;
