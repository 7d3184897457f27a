use vstd::prelude::*;
use crate::{MAP_WIDTH, MAP_HEIGHT};

verus! {

/// One cell of the dungeon grid.
///
/// `explored` is append-only: once a tile has been seen it stays explored
/// for the rest of the level and across saves.
#[derive(Clone, Copy, Debug, PartialEq, Eq, Structural)]
pub struct Tile {
    pub blocked: bool,
    pub block_sight: bool,
    pub explored: bool,
}

impl Tile {
    /// A walkable, see-through floor tile.
    pub fn empty() -> (t: Tile)
        ensures
            t == (Tile { blocked: false, block_sight: false, explored: false }),
    {
        Tile { blocked: false, block_sight: false, explored: false }
    }

    /// A solid wall tile.
    pub fn wall() -> (t: Tile)
        ensures
            t == (Tile { blocked: true, block_sight: true, explored: false }),
    {
        Tile { blocked: true, block_sight: true, explored: false }
    }
}

/// The dungeon grid: a column-major 2D array of tiles,
/// indexed as `grid[x][y]`.
pub type Grid = Vec<Vec<Tile>>;

/// The point (x, y) lies on the grid.
pub open spec fn in_bounds(x: int, y: int) -> bool {
    0 <= x < MAP_WIDTH && 0 <= y < MAP_HEIGHT
}

} // verus!
