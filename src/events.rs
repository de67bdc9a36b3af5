use vstd::prelude::*;
use crate::coordinates::Coordinates;
use crate::tile::Tile;

verus! {

/// Event that occurs when a tile is triggered (left clicked)
#[derive(Debug, Copy, Clone, Eq, PartialEq, Structural)]
pub struct TileTriggerEvent(pub Coordinates);

/// Event that occurs when the board is completed
#[derive(Debug, Copy, Clone, Eq, PartialEq, Structural)]
pub struct BoardCompletedEvent;

/// Event that occurs when a player uncovers a bomb
#[derive(Debug, Copy, Clone, Eq, PartialEq, Structural)]
pub struct BombExplosionEvent;

/// Event that occurs when a tile is marked (right clicked)
#[derive(Debug, Copy, Clone, Eq, PartialEq, Structural)]
pub struct TileMarkEvent(pub Coordinates);

/// A tile uncovered by a reveal: where it is, the handle of its cover and
/// what it holds.
#[derive(Debug, Copy, Clone, Eq, PartialEq, Structural)]
pub struct RevealedTile {
    pub coordinates: Coordinates,
    pub handle: u64,
    pub tile: Tile,
}

/// What one trigger produced, in the order the presentation layer consumes
/// it: the uncovered tiles in the order they were revealed, then the
/// completion signal, then the explosion signal.
#[derive(Debug, Clone)]
pub struct RevealOutcome {
    pub revealed: Vec<RevealedTile>,
    pub completed: Option<BoardCompletedEvent>,
    pub explosion: Option<BombExplosionEvent>,
}

} // verus!
