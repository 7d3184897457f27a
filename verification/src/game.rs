use vstd::prelude::*;
use crate::object::{Color, Object};
use crate::tile::Grid;

verus! {

/// The in-game message feed: lines of text with their colors.
pub type Messages = Vec<(String, Color)>;

/// Appends one line to a message feed.
pub fn log_add(log: &mut Messages, message: String, color: Color)
    ensures
        final(log)@ == old(log)@.push((message, color)),
{
    log.push((message, color));
}

/// The aggregate world state outside the entity list: the tile grid,
/// the message feed, the player's inventory, and the current depth.
pub struct Game {
    pub grid: Grid,
    pub log: Messages,
    pub inventory: Vec<Object>,
    pub dungeon_level: u32,
}

/// `l2` is `l1` with exactly one line appended.
pub open spec fn msgs_pushed(l1: Seq<(String, Color)>, l2: Seq<(String, Color)>, m: Seq<char>, c: Color) -> bool {
    &&& l2.len() == l1.len() + 1
    &&& l2.take(l1.len() as int) == l1
    &&& l2.last().0@ == m
    &&& l2.last().1 == c
}

/// `g2` is `g1` with exactly one line appended to the message feed.
pub open spec fn log_pushed(g1: Game, g2: Game, m: Seq<char>, c: Color) -> bool {
    &&& g2.grid == g1.grid
    &&& g2.inventory == g1.inventory
    &&& g2.dungeon_level == g1.dungeon_level
    &&& msgs_pushed(g1.log@, g2.log@, m, c)
}

/// `g2` is `g1` with exactly two lines appended to the message feed.
pub open spec fn log_pushed2(g1: Game, g2: Game, m1: Seq<char>, c1: Color, m2: Seq<char>, c2: Color) -> bool {
    &&& g2.grid == g1.grid
    &&& g2.inventory == g1.inventory
    &&& g2.dungeon_level == g1.dungeon_level
    &&& g2.log@.len() == g1.log@.len() + 2
    &&& g2.log@.take(g1.log@.len() as int) == g1.log@
    &&& g2.log@[g2.log@.len() - 2].0@ == m1
    &&& g2.log@[g2.log@.len() - 2].1 == c1
    &&& g2.log@.last().0@ == m2
    &&& g2.log@.last().1 == c2
}

} // verus!
