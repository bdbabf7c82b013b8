//! Structured outcomes the engine exchanges with its collaborator: player
//! intents keyed by coordinate in, loss and completion signals out.

use vstd::prelude::*;

use crate::coordinates::Coordinates;

verus! {

/// A player intent to reveal the tile at a coordinate.
#[derive(Debug, Clone, Copy, PartialEq, Eq, Structural)]
pub struct TileTriggerEvent {
    pub coordinates: Coordinates,
}

/// A player intent to toggle the flag on the tile at a coordinate.
#[derive(Debug, Clone, Copy, PartialEq, Eq, Structural)]
pub struct TileMarkEvent {
    pub coordinates: Coordinates,
}

/// Every non-mine cell has been revealed: the session is won.
#[derive(Debug, Clone, Copy, PartialEq, Eq, Structural)]
pub struct BoardCompletedEvent;

/// A mine was revealed: the session is lost.
#[derive(Debug, Clone, Copy, PartialEq, Eq, Structural)]
pub struct BombExplosionEvent;

} // verus!
