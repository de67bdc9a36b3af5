//! Minesweeper board engine: tile map generation with random bomb
//! placement, adjacency counting, flood-fill reveal, flag toggling and
//! completion detection. Rendering and input live outside this crate; they
//! hand the board plain coordinates and take back handles and events.

pub mod assets;
pub mod board;
pub mod coordinates;
pub mod events;
pub mod tile;
pub mod tile_map;

pub use assets::bomb_color_index;
pub use board::{Board, BoardView};
pub use coordinates::Coordinates;
pub use events::{
    BoardCompletedEvent, BombExplosionEvent, RevealOutcome, RevealedTile, TileMarkEvent,
    TileTriggerEvent,
};
pub use tile::Tile;
pub use tile_map::{BoardError, TileMap, TileMapView};
