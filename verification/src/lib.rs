use vstd::prelude::*;

pub mod tile;
pub mod geometry;
pub mod text;
pub mod object;
pub mod game;
pub mod rng;
pub mod mapgen;
pub mod reach;
pub mod engine;
pub mod inventory;
pub mod codec;

verus! {

/// Width of the dungeon grid, in tiles.
pub const MAP_WIDTH: i32 = 80;
/// Height of the dungeon grid, in tiles.
pub const MAP_HEIGHT: i32 = 43;

/// Largest side length a candidate room may have.
pub const ROOM_MAX_SIZE: i32 = 10;
/// Smallest side length a candidate room may have.
pub const ROOM_MIN_SIZE: i32 = 6;
/// Number of candidate rooms attempted per level.
pub const MAX_ROOMS: i32 = 5;

/// Hit points restored by one healing potion.
pub const POTION_HEAL_AMOUNT: i32 = 40;
/// Maximum distance at which a lightning bolt finds a target.
pub const LIGHTNING_RANGE: i32 = 5;
/// Damage dealt by a lightning bolt, bypassing defense.
pub const LIGHTNING_DAMAGE: i32 = 40;
/// Maximum distance at which a confusion scroll finds a target.
pub const CONFUSE_RANGE: i32 = 8;
/// Number of extra confused turns granted by a confusion scroll.
pub const CONFUSE_NUM_TURNS: i32 = 10;
/// Radius of a fireball blast, in tiles.
pub const FIREBALL_RADIUS: i32 = 3;
/// Damage dealt by a fireball to everything in its radius.
pub const FIREBALL_DAMAGE: i32 = 25;

/// Most items the inventory can hold.
pub const INVENTORY_CAPACITY: usize = 26;

/// The player always sits at this index in the entity list.
pub const PLAYER: usize = 0;

/// How far the player's torch lets the visibility oracle see.
pub const TORCH_RADIUS: i32 = 10;

/// Base experience needed for the first level-up.
pub const LEVEL_UP_BASE: i32 = 200;
/// Extra experience needed per level already gained.
pub const LEVEL_UP_FACTOR: i32 = 150;

} // verus!
