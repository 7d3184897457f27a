use vstd::prelude::*;
use crate::{MAP_WIDTH, MAP_HEIGHT, ROOM_MIN_SIZE, ROOM_MAX_SIZE, MAX_ROOMS};
use crate::tile::{Tile, Grid, in_bounds};
use crate::geometry::{Rect, rect_overlap};
use crate::object::{Object, Color, Fighter, DeathCallback, Ai, Item, Equipment, Slot, col, same_but_pos};
use crate::reach::{floor_at, reachable};
use crate::rng::{rand_range_i32, rand_coin, weighted_pick, weight_sum, lemma_weight_sum_push};

verus! {

/// The grid as a mathematical matrix of tiles.
pub open spec fn gv(g: Grid) -> Seq<Seq<Tile>> {
    g@.map_values(|v: Vec<Tile>| v@)
}

/// The grid has exactly `MAP_WIDTH` columns of `MAP_HEIGHT` tiles each.
pub open spec fn grid_wf(m: Seq<Seq<Tile>>) -> bool {
    &&& m.len() == MAP_WIDTH
    &&& forall|x: int| 0 <= x < m.len() ==> (#[trigger] m[x]).len() == MAP_HEIGHT
}

/// The cell cannot be walked onto: off the grid, a blocked tile, or
/// occupied by a movement-blocking entity.
pub open spec fn blocked_at(m: Seq<Seq<Tile>>, objects: Seq<Object>, x: int, y: int) -> bool {
    ||| !in_bounds(x as int, y as int)
    ||| m[x as int][y as int].blocked
    ||| exists|i: int|
        0 <= i < objects.len() && (#[trigger] objects[i]).blocks && objects[i].x == x
            && objects[i].y == y
}

/// Whether (x, y) can be walked onto; anything off the grid counts as
/// blocked.
pub fn is_blocked(x: i32, y: i32, map: &Grid, objects: &Vec<Object>) -> (b: bool)
    requires
        grid_wf(gv(*map)),
    ensures
        b == blocked_at(gv(*map), objects@, x as int, y as int),
{
    if x < 0 || x >= MAP_WIDTH || y < 0 || y >= MAP_HEIGHT {
        return true;
    }
    proof {
        assert(gv(*map)[x as int] == map@[x as int]@);
    }
    if map[x as usize][y as usize].blocked {
        return true;
    }
    let mut i: usize = 0;
    while i < objects.len()
        invariant
            i <= objects@.len(),
            forall|j: int|
                0 <= j < i ==> !((#[trigger] objects@[j]).blocks && objects@[j].x == x
                    && objects@[j].y == y),
        decreases objects@.len() - i,
    {
        let o = &objects[i];
        if o.blocks && o.x == x && o.y == y {
            return true;
        }
        i = i + 1;
    }
    false
}

/// One row of a depth table: from `level` on, the table yields `value`.
pub struct Transition {
    pub level: u32,
    pub value: u32,
}

/// The value of a depth table at a level: the value of the last row
/// whose threshold the level meets, or zero below every row.
pub open spec fn table_value(table: Seq<Transition>, level: u32) -> u32
    decreases table.len(),
{
    if table.len() == 0 {
        0
    } else if level >= table.last().level {
        table.last().value
    } else {
        table_value(table.drop_last(), level)
    }
}

/// Looks a level up in a depth table.
pub fn from_dungeon_level(table: &Vec<Transition>, level: u32) -> (v: u32)
    ensures
        v == table_value(table@, level),
{
    let mut i: usize = table.len();
    proof {
        assert(table@.take(table@.len() as int) =~= table@);
    }
    while i > 0
        invariant
            i <= table@.len(),
            table_value(table@, level) == table_value(table@.take(i as int), level),
        decreases i,
    {
        i = i - 1;
        let t = &table[i];
        if level >= t.level {
            proof {
                assert(table@.take(i as int + 1).last() == table@[i as int]);
            }
            return t.value;
        }
        proof {
            assert(table@.take(i as int + 1).drop_last() =~= table@.take(i as int));
            assert(table@.take(i as int + 1).last() == table@[i as int]);
        }
    }
    0
}

/// A depth table never yields more than its largest row value.
pub proof fn lemma_table_value_le(t: Seq<Transition>, level: u32, bound: u32)
    requires
        forall|i: int| 0 <= i < t.len() ==> (#[trigger] t[i]).value <= bound,
    ensures
        table_value(t, level) <= bound,
    decreases t.len(),
{
    if t.len() == 0 {
    } else if level >= t.last().level {
    } else {
        lemma_table_value_le(t.drop_last(), level, bound);
    }
}

/// Writes one tile of the grid, leaving every other cell untouched.
fn set_tile(map: &mut Grid, x: usize, y: usize, t: Tile)
    requires
        grid_wf(gv(*old(map))),
        x < MAP_WIDTH,
        y < MAP_HEIGHT,
    ensures
        grid_wf(gv(*final(map))),
        forall|i: int, j: int|
            0 <= i < MAP_WIDTH && 0 <= j < MAP_HEIGHT ==> (#[trigger] gv(*final(map))[i][j]) == (
            if i == x && j == y {
                t
            } else {
                gv(*old(map))[i][j]
            }),
{
    proof {
        assert(gv(*map)[x as int] == map@[x as int]@);
    }
    map[x][y] = t;
    proof {
        assert forall|i: int|
            0 <= i < MAP_WIDTH implies (#[trigger] gv(*map)[i]).len() == MAP_HEIGHT by {
            assert(gv(*map)[i] == map@[i]@);
            assert(gv(*old(map))[i] == old(map)@[i]@);
        }
        assert forall|i: int, j: int|
            0 <= i < MAP_WIDTH && 0 <= j < MAP_HEIGHT implies (#[trigger] gv(*map)[i][j]) == (
        if i == x && j == y {
            t
        } else {
            gv(*old(map))[i][j]
        }) by {
            assert(gv(*map)[i] == map@[i]@);
            assert(gv(*old(map))[i] == old(map)@[i]@);
        }
    }
}

/// Marks one cell explored, leaving everything else about it intact.
pub fn set_explored(map: &mut Grid, x: usize, y: usize)
    requires
        grid_wf(gv(*old(map))),
        x < MAP_WIDTH,
        y < MAP_HEIGHT,
    ensures
        grid_wf(gv(*final(map))),
        forall|i: int, j: int|
            0 <= i < MAP_WIDTH && 0 <= j < MAP_HEIGHT ==> (#[trigger] gv(*final(map))[i][j]) == (
            if i == x && j == y {
                Tile { explored: true, ..gv(*old(map))[i][j] }
            } else {
                gv(*old(map))[i][j]
            }),
{
    proof {
        assert(gv(*map)[x as int] == map@[x as int]@);
    }
    let t = map[x][y];
    set_tile(map, x, y, Tile { explored: true, ..t });
}

/// The point lies strictly inside the room, off its border.
pub open spec fn room_interior(r: Rect, x: int, y: int) -> bool {
    r.x1 < x < r.x2 && r.y1 < y < r.y2
}

/// The point lies on the horizontal segment at row `y` between columns
/// `x1` and `x2` (in either order, inclusive).
pub open spec fn on_h_segment(x1: int, x2: int, y: int, px: int, py: int) -> bool {
    py == y && (if x1 <= x2 {
        x1 <= px <= x2
    } else {
        x2 <= px <= x1
    })
}

/// The point lies on the vertical segment at column `x` between rows
/// `y1` and `y2` (in either order, inclusive).
pub open spec fn on_v_segment(y1: int, y2: int, x: int, px: int, py: int) -> bool {
    px == x && (if y1 <= y2 {
        y1 <= py <= y2
    } else {
        y2 <= py <= y1
    })
}

/// `m2` is `m1` with exactly the cells satisfying `carved` turned into
/// fresh floor; all other cells are untouched.
pub open spec fn carved_to_floor(m1: Seq<Seq<Tile>>, m2: Seq<Seq<Tile>>, carved: spec_fn(int, int) -> bool) -> bool {
    &&& m2.len() == m1.len()
    &&& forall|x: int| 0 <= x < m1.len() ==> (#[trigger] m2[x]).len() == m1[x].len()
    &&& forall|x: int, y: int|
        0 <= x < m1.len() && 0 <= y < m1[x].len() ==> (#[trigger] m2[x][y]) == (if carved(x, y) {
            Tile { blocked: false, block_sight: false, explored: false }
        } else {
            m1[x][y]
        })
}

/// Carving only turns cells into floor: every floor cell stays floor.
pub proof fn lemma_carved_monotone(m1: Seq<Seq<Tile>>, m2: Seq<Seq<Tile>>, carved: spec_fn(int, int) -> bool)
    requires
        grid_wf(m1),
        carved_to_floor(m1, m2, carved),
    ensures
        forall|x: int, y: int| floor_at(m1, x, y) ==> floor_at(m2, x, y),
{
    assert forall|x: int, y: int| floor_at(m1, x, y) implies floor_at(m2, x, y) by {
        assert(m2[x][y] == (if carved(x, y) {
            Tile { blocked: false, block_sight: false, explored: false }
        } else {
            m1[x][y]
        }));
    }
}

/// Carving never marks a cell explored.
pub proof fn lemma_carved_unexplored(m1: Seq<Seq<Tile>>, m2: Seq<Seq<Tile>>, carved: spec_fn(int, int) -> bool)
    requires
        grid_wf(m1),
        carved_to_floor(m1, m2, carved),
        all_unexplored(m1),
    ensures
        all_unexplored(m2),
{
    assert forall|x: int, y: int|
        0 <= x < m2.len() && 0 <= y < m2[x].len() implies !(#[trigger] m2[x][y]).explored by {
        assert(m2[x][y] == (if carved(x, y) {
            Tile { blocked: false, block_sight: false, explored: false }
        } else {
            m1[x][y]
        }));
    }
}

/// Carves the interior of a room into floor, leaving its border walls.
#[verifier::loop_isolation(false)]
pub fn create_room(room: Rect, map: &mut Grid)
    requires
        grid_wf(gv(*old(map))),
        0 <= room.x1 <= room.x2,
        room.x2 < MAP_WIDTH,
        0 <= room.y1 <= room.y2,
        room.y2 < MAP_HEIGHT,
    ensures
        grid_wf(gv(*final(map))),
        carved_to_floor(
            gv(*old(map)),
            gv(*final(map)),
            |x: int, y: int| room_interior(room, x, y),
        ),
{
    let mut x = room.x1 + 1;
    while x < room.x2
        invariant
            room.x1 < x,
            room.x2 < MAP_WIDTH,
            0 <= room.y1,
            room.y2 < MAP_HEIGHT,
            grid_wf(gv(*map)),
            carved_to_floor(
                gv(*old(map)),
                gv(*map),
                |px: int, py: int| room_interior(room, px, py) && px < x,
            ),
        decreases room.x2 - x,
    {
        let mut y = room.y1 + 1;
        while y < room.y2
            invariant
                room.x1 < x < room.x2 < MAP_WIDTH,
                room.y1 < y,
                room.y2 < MAP_HEIGHT,
                grid_wf(gv(*map)),
                carved_to_floor(
                    gv(*old(map)),
                    gv(*map),
                    |px: int, py: int| room_interior(room, px, py) && (px < x || (px == x && py < y)),
                ),
            decreases room.y2 - y,
        {
            set_tile(map, x as usize, y as usize, Tile::empty());
            y = y + 1;
        }
        x = x + 1;
    }
}

/// Carves a horizontal tunnel at row `y` between two columns, inclusive.
#[verifier::loop_isolation(false)]
pub fn create_h_tunnel(x1: i32, x2: i32, y: i32, map: &mut Grid)
    requires
        grid_wf(gv(*old(map))),
        0 <= x1 < MAP_WIDTH,
        0 <= x2 < MAP_WIDTH,
        0 <= y < MAP_HEIGHT,
    ensures
        grid_wf(gv(*final(map))),
        carved_to_floor(
            gv(*old(map)),
            gv(*final(map)),
            |px: int, py: int| on_h_segment(x1 as int, x2 as int, y as int, px, py),
        ),
{
    let lo = if x1 < x2 { x1 } else { x2 };
    let hi = if x1 < x2 { x2 } else { x1 };
    let mut x = lo;
    while x <= hi
        invariant
            lo <= x <= hi + 1,
            hi < MAP_WIDTH,
            0 <= lo,
            0 <= y < MAP_HEIGHT,
            grid_wf(gv(*map)),
            carved_to_floor(
                gv(*old(map)),
                gv(*map),
                |px: int, py: int| on_h_segment(x1 as int, x2 as int, y as int, px, py) && px < x,
            ),
        decreases hi + 1 - x,
    {
        set_tile(map, x as usize, y as usize, Tile::empty());
        x = x + 1;
    }
}

/// Carves a vertical tunnel at column `x` between two rows, inclusive.
#[verifier::loop_isolation(false)]
pub fn create_v_tunnel(y1: i32, y2: i32, x: i32, map: &mut Grid)
    requires
        grid_wf(gv(*old(map))),
        0 <= y1 < MAP_HEIGHT,
        0 <= y2 < MAP_HEIGHT,
        0 <= x < MAP_WIDTH,
    ensures
        grid_wf(gv(*final(map))),
        carved_to_floor(
            gv(*old(map)),
            gv(*final(map)),
            |px: int, py: int| on_v_segment(y1 as int, y2 as int, x as int, px, py),
        ),
{
    let lo = if y1 < y2 { y1 } else { y2 };
    let hi = if y1 < y2 { y2 } else { y1 };
    let mut y = lo;
    while y <= hi
        invariant
            lo <= y <= hi + 1,
            hi < MAP_HEIGHT,
            0 <= lo,
            0 <= x < MAP_WIDTH,
            grid_wf(gv(*map)),
            carved_to_floor(
                gv(*old(map)),
                gv(*map),
                |px: int, py: int| on_v_segment(y1 as int, y2 as int, x as int, px, py) && py < y,
            ),
        decreases hi + 1 - y,
    {
        set_tile(map, x as usize, y as usize, Tile::empty());
        y = y + 1;
    }
}

/// The player's starting stat block.
pub open spec fn player_object(o: Object) -> bool {
    &&& o.glyph == '@'
    &&& o.color == col(255, 255, 255)
    &&& o.name@ == "Player"@
    &&& o.blocks
    &&& o.alive
    &&& o.fighter matches Some(f) && f == (Fighter {
        max_hp: 100,
        hp: 100,
        defense: 1,
        base_power: 4,
        on_death: DeathCallback::Player,
        xp: 0,
    })
    &&& o.ai is None
    &&& o.item is None
    &&& !o.always_visible
    &&& o.level == 1
    &&& o.equipment is None
}

/// Creates the player entity.
pub fn create_player() -> (o: Object)
    ensures
        player_object(o),
        o.x == 0 && o.y == 0,
{
    let mut player = Object::new(0, 0, '@', Color::rgb(255, 255, 255), "Player", true);
    player.alive = true;
    player.fighter = Some(
        Fighter {
            max_hp: 100,
            hp: 100,
            defense: 1,
            base_power: 4,
            on_death: DeathCallback::Player,
            xp: 0,
        },
    );
    player
}

/// The orc stat block.
pub open spec fn orc_stats() -> Fighter {
    Fighter { max_hp: 20, hp: 20, defense: 0, base_power: 4, on_death: DeathCallback::Monster, xp: 35 }
}

/// The troll stat block.
pub open spec fn troll_stats() -> Fighter {
    Fighter { max_hp: 30, hp: 30, defense: 2, base_power: 8, on_death: DeathCallback::Monster, xp: 100 }
}

/// The depth table for the troll's selection weight.
pub open spec fn troll_table() -> Seq<Transition> {
    seq![
        Transition { level: 3, value: 15 },
        Transition { level: 5, value: 30 },
        Transition { level: 7, value: 60 },
    ]
}

/// A fully initialized monster at (x, y): an orc, or — only at depths
/// where its weight is positive — a troll.
pub open spec fn monster_object(o: Object, x: int, y: int, level: u32) -> bool {
    &&& o.x == x
    &&& o.y == y
    &&& o.blocks
    &&& o.alive
    &&& (o.ai matches Some(a) && a matches Ai::Basic)
    &&& o.item is None
    &&& o.equipment is None
    &&& !o.always_visible
    &&& o.level == 1
    &&& {
        ||| (o.glyph == 'O' && o.color == col(63, 191, 63) && o.name@ == "Orc"@
            && (o.fighter matches Some(f) && f == orc_stats()))
        ||| (o.glyph == 'T' && o.color == col(0, 127, 0) && o.name@ == "Troll"@
            && (o.fighter matches Some(f) && f == troll_stats()) && table_value(troll_table(), level) > 0)
    }
}

/// Draws a monster kind from the depth-scaled weighted table and
/// returns it fully initialized.
pub fn create_monster(x: i32, y: i32, level: u32) -> (o: Object)
    ensures
        monster_object(o, x as int, y as int, level),
{
    let mut table: Vec<Transition> = Vec::new();
    table.push(Transition { level: 3, value: 15 });
    table.push(Transition { level: 5, value: 30 });
    table.push(Transition { level: 7, value: 60 });
    proof {
        assert(table@ =~= troll_table());
    }
    let troll_chance = from_dungeon_level(&table, level);

    let mut weights: Vec<u32> = Vec::new();
    let ghost w0 = weights@;
    weights.push(80);
    let ghost w1 = weights@;
    weights.push(troll_chance);
    proof {
        lemma_weight_sum_push(w0, 80);
        lemma_weight_sum_push(w1, troll_chance);
        lemma_table_value_le(troll_table(), level, 60);
        assert(weight_sum(weights@) == 80 + troll_chance);
        assert(weights@[0] > 0);
    }
    let pick = weighted_pick(&weights);

    let mut monster = if pick == 0 {
        let mut orc = Object::new(x, y, 'O', Color::rgb(63, 191, 63), "Orc", true);
        orc.fighter = Some(
            Fighter { max_hp: 20, hp: 20, defense: 0, base_power: 4, on_death: DeathCallback::Monster, xp: 35 },
        );
        orc.ai = Some(Ai::Basic);
        orc
    } else {
        let mut troll = Object::new(x, y, 'T', Color::rgb(0, 127, 0), "Troll", true);
        troll.fighter = Some(
            Fighter { max_hp: 30, hp: 30, defense: 2, base_power: 8, on_death: DeathCallback::Monster, xp: 100 },
        );
        troll.ai = Some(Ai::Basic);
        troll
    };
    monster.alive = true;
    monster
}

/// A fully initialized item entity at (x, y): a consumable scroll or
/// potion, or a sword.
pub open spec fn item_object(o: Object, x: int, y: int) -> bool {
    &&& o.x == x
    &&& o.y == y
    &&& !o.blocks
    &&& !o.alive
    &&& o.fighter is None
    &&& o.ai is None
    &&& !o.always_visible
    &&& o.level == 1
    &&& {
        ||| (o.item == Some(Item::Heal) && o.glyph == '!' && o.color == col(127, 0, 255)
            && o.name@ == "healing potion"@ && o.equipment is None)
        ||| (o.item == Some(Item::Lightning) && o.glyph == '#' && o.color == col(255, 255, 114)
            && o.name@ == "scroll of lightning bolt"@ && o.equipment is None)
        ||| (o.item == Some(Item::Confuse) && o.glyph == '#' && o.color == col(191, 0, 255)
            && o.name@ == "scroll of confusion"@ && o.equipment is None)
        ||| (o.item == Some(Item::Fireball) && o.glyph == '#' && o.color == col(255, 0, 0)
            && o.name@ == "scroll of fireball"@ && o.equipment is None)
        ||| (o.item == Some(Item::Equipment) && o.glyph == '/' && o.color == col(0, 191, 255)
            && o.name@ == "sword"@ && (o.equipment matches Some(e) && e == (Equipment {
            equipped: false,
            slot: Slot::RightHand,
            power_bonus: 3,
        })))
    }
}

/// Draws an item kind from the weighted table and returns it fully
/// initialized.
pub fn create_item(x: i32, y: i32) -> (o: Object)
    ensures
        item_object(o, x as int, y as int),
{
    let mut weights: Vec<u32> = Vec::new();
    let ghost w0 = weights@;
    weights.push(70);
    let ghost w1 = weights@;
    weights.push(1000);
    let ghost w2 = weights@;
    weights.push(10);
    let ghost w3 = weights@;
    weights.push(10);
    let ghost w4 = weights@;
    weights.push(10);
    proof {
        lemma_weight_sum_push(w0, 70);
        lemma_weight_sum_push(w1, 1000);
        lemma_weight_sum_push(w2, 10);
        lemma_weight_sum_push(w3, 10);
        lemma_weight_sum_push(w4, 10);
        assert(weight_sum(weights@) == 1100);
        assert(weights@[0] > 0);
    }
    let pick = weighted_pick(&weights);

    if pick == 0 {
        let mut object = Object::new(x, y, '!', Color::rgb(127, 0, 255), "healing potion", false);
        object.item = Some(Item::Heal);
        object
    } else if pick == 1 {
        let mut object = Object::new(x, y, '/', Color::rgb(0, 191, 255), "sword", false);
        object.item = Some(Item::Equipment);
        object.equipment = Some(Equipment { equipped: false, slot: Slot::RightHand, power_bonus: 3 });
        object
    } else if pick == 2 {
        let mut object = Object::new(x, y, '#', Color::rgb(255, 255, 114), "scroll of lightning bolt", false);
        object.item = Some(Item::Lightning);
        object
    } else if pick == 3 {
        let mut object = Object::new(x, y, '#', Color::rgb(255, 0, 0), "scroll of fireball", false);
        object.item = Some(Item::Fireball);
        object
    } else {
        let mut object = Object::new(x, y, '#', Color::rgb(191, 0, 255), "scroll of confusion", false);
        object.item = Some(Item::Confuse);
        object
    }
}

/// The depth table for how many monsters one room may receive.
pub open spec fn monster_count_table() -> Seq<Transition> {
    seq![
        Transition { level: 1, value: 2 },
        Transition { level: 4, value: 3 },
        Transition { level: 6, value: 5 },
    ]
}

/// The depth table for how many items one room may receive.
pub open spec fn item_count_table() -> Seq<Transition> {
    seq![Transition { level: 1, value: 1 }, Transition { level: 4, value: 2 }]
}

/// Exactly `nm` monsters were appended first and then the items, each
/// count within its depth table's bound.
pub open spec fn placed_split(pre: Seq<Object>, post: Seq<Object>, level: u32, nm: int) -> bool {
    &&& 0 <= nm <= table_value(monster_count_table(), level)
    &&& pre.len() + nm <= post.len()
    &&& post.len() - (pre.len() + nm) <= table_value(item_count_table(), level)
    &&& (forall|i: int|
        pre.len() <= i < pre.len() + nm ==> monster_object(
            #[trigger] post[i],
            post[i].x as int,
            post[i].y as int,
            level,
        ))
    &&& (forall|i: int|
        pre.len() + nm <= i < post.len() ==> item_object(
            #[trigger] post[i],
            post[i].x as int,
            post[i].y as int,
        ))
}

/// The entity is a fully initialized monster or item lying strictly
/// inside one of the accepted rooms.
pub open spec fn placed_in_room(rooms: Seq<Rect>, o: Object, level: u32) -> bool {
    exists|k: int|
        0 <= k < rooms.len() && room_interior(#[trigger] rooms[k], o.x as int, o.y as int) && (
        monster_object(o, o.x as int, o.y as int, level) || item_object(o, o.x as int, o.y as int))
}

/// Rolls depth-scaled monster and item counts for a room and places
/// each draw at a random interior position, skipping occupied spots.
pub fn place_objects(room: Rect, map: &Grid, objects: &mut Vec<Object>, level: u32)
    requires
        grid_wf(gv(*map)),
        room.x1 + 1 < room.x2,
        room.y1 + 1 < room.y2,
    ensures
        final(objects)@.len() >= old(objects)@.len(),
        final(objects)@.take(old(objects)@.len() as int) == old(objects)@,
        forall|i: int|
            old(objects)@.len() <= i < final(objects)@.len() ==> room_interior(
                room,
                (#[trigger] final(objects)@[i]).x as int,
                final(objects)@[i].y as int,
            ) && (monster_object(
                final(objects)@[i],
                final(objects)@[i].x as int,
                final(objects)@[i].y as int,
                level,
            ) || item_object(final(objects)@[i], final(objects)@[i].x as int, final(objects)@[i].y as int)),
        forall|i: int|
            old(objects)@.len() <= i < final(objects)@.len() ==> !gv(
                *map,
            )[(#[trigger] final(objects)@[i]).x as int][final(objects)@[i].y as int].blocked,
        exists|nm: int| #[trigger] placed_split(old(objects)@, final(objects)@, level, nm),
{
    let mut table: Vec<Transition> = Vec::new();
    table.push(Transition { level: 1, value: 2 });
    table.push(Transition { level: 4, value: 3 });
    table.push(Transition { level: 6, value: 5 });
    proof {
        assert(table@ =~= monster_count_table());
    }
    let max_monsters = from_dungeon_level(&table, level);
    proof {
        lemma_table_value_le(table@, level, 5);
    }
    let num_monsters = rand_range_i32(0, max_monsters as i32 + 1);
    let mut n: i32 = 0;
    while n < num_monsters
        invariant
            objects@.len() >= old(objects)@.len(),
            objects@.take(old(objects)@.len() as int) == old(objects)@,
            room.x1 + 1 < room.x2,
            room.y1 + 1 < room.y2,
            grid_wf(gv(*map)),
            0 <= n,
            objects@.len() - old(objects)@.len() <= n,
            n <= num_monsters,
            num_monsters <= table_value(monster_count_table(), level),
            forall|i: int|
                old(objects)@.len() <= i < objects@.len() ==> room_interior(
                    room,
                    (#[trigger] objects@[i]).x as int,
                    objects@[i].y as int,
                ) && monster_object(objects@[i], objects@[i].x as int, objects@[i].y as int, level),
            forall|i: int|
                old(objects)@.len() <= i < objects@.len() ==> !gv(
                    *map,
                )[(#[trigger] objects@[i]).x as int][objects@[i].y as int].blocked,
        decreases num_monsters - n,
    {
        let x = rand_range_i32(room.x1 + 1, room.x2);
        let y = rand_range_i32(room.y1 + 1, room.y2);
        if !is_blocked(x, y, map, objects) {
            let monster = create_monster(x, y, level);
            let ghost pre = objects@;
            objects.push(monster);
            proof {
                assert(objects@.take(old(objects)@.len() as int) =~= pre.take(
                    old(objects)@.len() as int,
                ));
            }
        }
        n = n + 1;
    }
    let ghost nm = objects@.len() - old(objects)@.len();
    let ghost after_monsters = objects@;

    let mut itable: Vec<Transition> = Vec::new();
    itable.push(Transition { level: 1, value: 1 });
    itable.push(Transition { level: 4, value: 2 });
    proof {
        assert(itable@ =~= item_count_table());
    }
    let max_items = from_dungeon_level(&itable, level);
    proof {
        lemma_table_value_le(itable@, level, 2);
    }
    let num_items = rand_range_i32(0, max_items as i32 + 1);
    let mut n: i32 = 0;
    while n < num_items
        invariant
            objects@.len() >= after_monsters.len(),
            objects@.take(after_monsters.len() as int) == after_monsters,
            after_monsters.len() == old(objects)@.len() + nm,
            after_monsters.take(old(objects)@.len() as int) == old(objects)@,
            0 <= nm <= table_value(monster_count_table(), level),
            forall|i: int|
                old(objects)@.len() <= i < after_monsters.len() ==> room_interior(
                    room,
                    (#[trigger] after_monsters[i]).x as int,
                    after_monsters[i].y as int,
                ) && monster_object(
                    after_monsters[i],
                    after_monsters[i].x as int,
                    after_monsters[i].y as int,
                    level,
                ),
            forall|i: int|
                old(objects)@.len() <= i < after_monsters.len() ==> !gv(
                    *map,
                )[(#[trigger] after_monsters[i]).x as int][after_monsters[i].y as int].blocked,
            room.x1 + 1 < room.x2,
            room.y1 + 1 < room.y2,
            grid_wf(gv(*map)),
            0 <= n,
            objects@.len() - after_monsters.len() <= n,
            n <= num_items,
            num_items <= table_value(item_count_table(), level),
            forall|i: int|
                after_monsters.len() <= i < objects@.len() ==> room_interior(
                    room,
                    (#[trigger] objects@[i]).x as int,
                    objects@[i].y as int,
                ) && item_object(objects@[i], objects@[i].x as int, objects@[i].y as int),
            forall|i: int|
                after_monsters.len() <= i < objects@.len() ==> !gv(
                    *map,
                )[(#[trigger] objects@[i]).x as int][objects@[i].y as int].blocked,
        decreases num_items - n,
    {
        let x = rand_range_i32(room.x1 + 1, room.x2);
        let y = rand_range_i32(room.y1 + 1, room.y2);
        if !is_blocked(x, y, map, objects) {
            let item = create_item(x, y);
            let ghost pre = objects@;
            objects.push(item);
            proof {
                assert(objects@.take(after_monsters.len() as int) =~= pre.take(
                    after_monsters.len() as int,
                ));
            }
        }
        n = n + 1;
    }
    proof {
        assert forall|i: int|
            0 <= i < after_monsters.len() implies objects@[i] == after_monsters[i] by {
            assert(objects@.take(after_monsters.len() as int)[i] == objects@[i]);
        }
        assert(objects@.take(old(objects)@.len() as int) =~= old(objects)@);
        assert forall|i: int|
            old(objects)@.len() <= i < objects@.len() implies room_interior(
                room,
                (#[trigger] objects@[i]).x as int,
                objects@[i].y as int,
            ) && (monster_object(objects@[i], objects@[i].x as int, objects@[i].y as int, level)
                || item_object(objects@[i], objects@[i].x as int, objects@[i].y as int)) && !gv(
                *map,
            )[objects@[i].x as int][objects@[i].y as int].blocked by {
            if i < after_monsters.len() {
                assert(objects@[i] == after_monsters[i]);
            }
        }
        assert forall|i: int|
            old(objects)@.len() <= i < old(objects)@.len() + nm implies monster_object(
                #[trigger] objects@[i],
                objects@[i].x as int,
                objects@[i].y as int,
                level,
            ) by {
            assert(objects@[i] == after_monsters[i]);
        }
        assert(placed_split(old(objects)@, objects@, level, nm));
    }
}

/// A generated room fits on the grid with a non-empty interior.
pub open spec fn room_wf(r: Rect) -> bool {
    &&& 0 <= r.x1
    &&& r.x1 + 2 <= r.x2
    &&& r.x2 < MAP_WIDTH
    &&& 0 <= r.y1
    &&& r.y1 + 2 <= r.y2
    &&& r.y2 < MAP_HEIGHT
}

/// The midpoint of a room, the anchor for tunnels, start and stairs.
pub open spec fn rect_center(r: Rect) -> (int, int) {
    ((r.x1 + r.x2) / 2, (r.y1 + r.y2) / 2)
}

/// A well-formed room's center lies strictly inside it.
pub proof fn lemma_center_in_interior(r: Rect)
    requires
        room_wf(r),
    ensures
        room_interior(r, rect_center(r).0, rect_center(r).1),
{
}

/// No tile of the grid is explored yet.
pub open spec fn all_unexplored(m: Seq<Seq<Tile>>) -> bool {
    forall|x: int, y: int|
        0 <= x < m.len() && 0 <= y < m[x].len() ==> !(#[trigger] m[x][y]).explored
}

/// A stairs marker at (x, y).
pub open spec fn stairs_object(o: Object, x: int, y: int) -> bool {
    &&& o.x == x
    &&& o.y == y
    &&& o.glyph == '<'
    &&& o.color == col(255, 255, 255)
    &&& o.name@ == "stairs"@
    &&& !o.blocks
    &&& !o.alive
    &&& o.fighter is None
    &&& o.ai is None
    &&& o.item is None
    &&& o.always_visible
    &&& o.level == 1
    &&& o.equipment is None
}

/// Connects two rooms with an L-shaped tunnel, the bend order chosen
/// at random. Carving only adds floor, so every earlier walk survives,
/// and afterwards the two room centers can be walked between.
#[verifier::loop_isolation(false)]
#[verifier::rlimit(60)]
fn connect_rooms(map: &mut Grid, prev: Rect, new_room: Rect)
    requires
        grid_wf(gv(*old(map))),
        all_unexplored(gv(*old(map))),
        room_wf(prev),
        room_wf(new_room),
    ensures
        grid_wf(gv(*final(map))),
        all_unexplored(gv(*final(map))),
        forall|px: int, py: int| floor_at(gv(*old(map)), px, py) ==> floor_at(gv(*final(map)), px, py),
        reachable(gv(*final(map)), rect_center(prev), rect_center(new_room)),
{
    let pc = prev.center();
    let c = new_room.center();
    let ghost m1 = gv(*map);
    proof {
        lemma_center_in_interior(prev);
        lemma_center_in_interior(new_room);
    }
    if rand_coin() {
        create_h_tunnel(pc.0, c.0, pc.1, map);
        let ghost m2 = gv(*map);
        create_v_tunnel(pc.1, c.1, c.0, map);
        let ghost m3 = gv(*map);
        proof {
            lemma_carved_monotone(m1, m2, |px: int, py: int| on_h_segment(pc.0 as int, c.0 as int, pc.1 as int, px, py));
            lemma_carved_unexplored(m1, m2, |px: int, py: int| on_h_segment(pc.0 as int, c.0 as int, pc.1 as int, px, py));
            lemma_carved_monotone(m2, m3, |px: int, py: int| on_v_segment(pc.1 as int, c.1 as int, c.0 as int, px, py));
            lemma_carved_unexplored(m2, m3, |px: int, py: int| on_v_segment(pc.1 as int, c.1 as int, c.0 as int, px, py));
            assert forall|px: int| #![auto] (if pc.0 <= c.0 { pc.0 <= px <= c.0 } else { c.0 <= px <= pc.0 })
                implies floor_at(m3, px, pc.1 as int) by {
                assert(on_h_segment(pc.0 as int, c.0 as int, pc.1 as int, px, pc.1 as int));
                assert(floor_at(m2, px, pc.1 as int));
            }
            crate::reach::lemma_h_path(m3, pc.0 as int, c.0 as int, pc.1 as int);
            assert forall|py: int| #![auto] (if pc.1 <= c.1 { pc.1 <= py <= c.1 } else { c.1 <= py <= pc.1 })
                implies floor_at(m3, c.0 as int, py) by {
                assert(on_v_segment(pc.1 as int, c.1 as int, c.0 as int, c.0 as int, py));
            }
            crate::reach::lemma_v_path(m3, pc.1 as int, c.1 as int, c.0 as int);
            crate::reach::lemma_reach_trans(
                m3,
                (pc.0 as int, pc.1 as int),
                (c.0 as int, pc.1 as int),
                (c.0 as int, c.1 as int),
            );
        }
    } else {
        create_v_tunnel(pc.1, c.1, pc.0, map);
        let ghost m2 = gv(*map);
        create_h_tunnel(pc.0, c.0, c.1, map);
        let ghost m3 = gv(*map);
        proof {
            lemma_carved_monotone(m1, m2, |px: int, py: int| on_v_segment(pc.1 as int, c.1 as int, pc.0 as int, px, py));
            lemma_carved_unexplored(m1, m2, |px: int, py: int| on_v_segment(pc.1 as int, c.1 as int, pc.0 as int, px, py));
            lemma_carved_monotone(m2, m3, |px: int, py: int| on_h_segment(pc.0 as int, c.0 as int, c.1 as int, px, py));
            lemma_carved_unexplored(m2, m3, |px: int, py: int| on_h_segment(pc.0 as int, c.0 as int, c.1 as int, px, py));
            assert forall|py: int| #![auto] (if pc.1 <= c.1 { pc.1 <= py <= c.1 } else { c.1 <= py <= pc.1 })
                implies floor_at(m3, pc.0 as int, py) by {
                assert(on_v_segment(pc.1 as int, c.1 as int, pc.0 as int, pc.0 as int, py));
                assert(floor_at(m2, pc.0 as int, py));
            }
            crate::reach::lemma_v_path(m3, pc.1 as int, c.1 as int, pc.0 as int);
            assert forall|px: int| #![auto] (if pc.0 <= c.0 { pc.0 <= px <= c.0 } else { c.0 <= px <= pc.0 })
                implies floor_at(m3, px, c.1 as int) by {
                assert(on_h_segment(pc.0 as int, c.0 as int, c.1 as int, px, c.1 as int));
            }
            crate::reach::lemma_h_path(m3, pc.0 as int, c.0 as int, c.1 as int);
            crate::reach::lemma_reach_trans(
                m3,
                (pc.0 as int, pc.1 as int),
                (pc.0 as int, c.1 as int),
                (c.0 as int, c.1 as int),
            );
        }
    }
}
/// Everything the generator keeps true while it accepts rooms: the
/// grid stays well-formed and unexplored, accepted rooms are
/// well-formed and pairwise non-overlapping with carved interiors, the
/// player holds index 0 (at the first room's center once one exists),
/// every other entity lies in an accepted room, and every accepted
/// room's center can be walked to from the first one's.
pub open spec fn gen_inv(m: Seq<Seq<Tile>>, objects: Seq<Object>, rooms: Seq<Rect>, base: Seq<Object>, level: u32) -> bool {
    &&& grid_wf(m)
    &&& all_unexplored(m)
    &&& objects.len() >= 1
    &&& base.len() == 1
    &&& forall|k: int| 0 <= k < rooms.len() ==> room_wf(#[trigger] rooms[k])
    &&& forall|i: int, j: int|
        0 <= i < j < rooms.len() ==> !rect_overlap(#[trigger] rooms[i], #[trigger] rooms[j])
    &&& forall|k: int, x: int, y: int|
        0 <= k < rooms.len() && #[trigger] room_interior(rooms[k], x, y) ==> floor_at(m, x, y)
    &&& (rooms.len() == 0 ==> objects == base)
    &&& (rooms.len() > 0 ==> same_but_pos(objects[0], base[0]) && objects[0].x as int
        == rect_center(rooms[0]).0 && objects[0].y as int == rect_center(rooms[0]).1)
    &&& forall|i: int| 1 <= i < objects.len() ==> placed_in_room(rooms, #[trigger] objects[i], level)
    &&& forall|k: int|
        0 <= k < rooms.len() ==> reachable(m, rect_center(rooms[0]), rect_center(#[trigger] rooms[k]))
}

/// A full grid of unexplored wall.
fn new_wall_grid() -> (map: Grid)
    ensures
        grid_wf(gv(map)),
        all_unexplored(gv(map)),
        forall|i: int, j: int|
            0 <= i < MAP_WIDTH && 0 <= j < MAP_HEIGHT ==> (#[trigger] gv(map)[i][j]) == (Tile {
                blocked: true,
                block_sight: true,
                explored: false,
            }),
{
    let mut map: Grid = Vec::new();
    while map.len() < MAP_WIDTH as usize
        invariant
            map@.len() <= MAP_WIDTH,
            forall|i: int| 0 <= i < map@.len() ==> (#[trigger] map@[i])@.len() == MAP_HEIGHT,
            forall|i: int, j: int|
                0 <= i < map@.len() && 0 <= j < MAP_HEIGHT ==> (#[trigger] map@[i]@[j]) == (Tile {
                    blocked: true,
                    block_sight: true,
                    explored: false,
                }),
        decreases MAP_WIDTH - map@.len(),
    {
        let mut column: Vec<Tile> = Vec::new();
        while column.len() < MAP_HEIGHT as usize
            invariant
                column@.len() <= MAP_HEIGHT,
                forall|j: int|
                    0 <= j < column@.len() ==> (#[trigger] column@[j]) == (Tile {
                        blocked: true,
                        block_sight: true,
                        explored: false,
                    }),
            decreases MAP_HEIGHT - column@.len(),
        {
            column.push(Tile::wall());
        }
        map.push(column);
    }
    proof {
        assert forall|i: int|
            0 <= i < MAP_WIDTH implies (#[trigger] gv(map)[i]).len() == MAP_HEIGHT by {
            assert(gv(map)[i] == map@[i]@);
        }
        assert forall|i: int, j: int|
            0 <= i < MAP_WIDTH && 0 <= j < MAP_HEIGHT implies (#[trigger] gv(map)[i][j]) == (Tile {
            blocked: true,
            block_sight: true,
            explored: false,
        }) by {
            assert(gv(map)[i] == map@[i]@);
        }
        assert forall|x: int, y: int|
            0 <= x < gv(map).len() && 0 <= y < gv(map)[x].len() implies !(#[trigger] gv(
                map,
            )[x][y]).explored by {
            assert(gv(map)[x] == map@[x]@);
        }
    }
    map
}

/// One generation attempt: draw a candidate room and accept it unless
/// it overlaps an already accepted room.
#[verifier::loop_isolation(false)]
fn try_add_room(
    map: &mut Grid,
    objects: &mut Vec<Object>,
    rooms: &mut Vec<Rect>,
    level: u32,
    Ghost(base): Ghost<Seq<Object>>,
)
    requires
        gen_inv(gv(*old(map)), old(objects)@, old(rooms)@, base, level),
    ensures
        gen_inv(gv(*final(map)), final(objects)@, final(rooms)@, base, level),
        final(rooms)@.len() >= old(rooms)@.len(),
        old(rooms)@.len() == 0 ==> final(rooms)@.len() == 1,
{
    let w = rand_range_i32(ROOM_MIN_SIZE, ROOM_MAX_SIZE + 1);
    let h = rand_range_i32(ROOM_MIN_SIZE, ROOM_MAX_SIZE + 1);
    let x = rand_range_i32(0, MAP_WIDTH - w);
    let y = rand_range_i32(0, MAP_HEIGHT - h);
    let new_room = Rect::new(x, y, w, h);

    let mut failed = false;
    let mut i: usize = 0;
    while i < rooms.len()
        invariant
            i <= rooms@.len(),
            failed ==> i > 0,
            !failed ==> forall|j: int| 0 <= j < i ==> !rect_overlap(new_room, #[trigger] rooms@[j]),
        decreases rooms@.len() - i,
    {
        if new_room.intersects_with(&rooms[i]) {
            failed = true;
        }
        i = i + 1;
    }
    if failed {
        return ;
    }
    accept_room(map, objects, rooms, new_room, level, Ghost(base));
}

/// Carves a candidate room's interior and populates it. Only floor is
/// added, nothing becomes explored, and the entity list only grows,
/// with every new entity a monster or item inside the new room.
#[verifier::loop_isolation(false)]
#[verifier::rlimit(60)]
fn carve_and_populate(map: &mut Grid, objects: &mut Vec<Object>, new_room: Rect, level: u32)
    requires
        grid_wf(gv(*old(map))),
        all_unexplored(gv(*old(map))),
        room_wf(new_room),
    ensures
        grid_wf(gv(*final(map))),
        all_unexplored(gv(*final(map))),
        forall|px: int, py: int| floor_at(gv(*old(map)), px, py) ==> floor_at(gv(*final(map)), px, py),
        forall|px: int, py: int|
            #[trigger] room_interior(new_room, px, py) ==> floor_at(gv(*final(map)), px, py),
        final(objects)@.len() >= old(objects)@.len(),
        final(objects)@.take(old(objects)@.len() as int) == old(objects)@,
        forall|i: int|
            old(objects)@.len() <= i < final(objects)@.len() ==> room_interior(
                new_room,
                (#[trigger] final(objects)@[i]).x as int,
                final(objects)@[i].y as int,
            ) && (monster_object(
                final(objects)@[i],
                final(objects)@[i].x as int,
                final(objects)@[i].y as int,
                level,
            ) || item_object(final(objects)@[i], final(objects)@[i].x as int, final(objects)@[i].y as int)),
{
    let ghost m0 = gv(*map);
    create_room(new_room, map);
    let ghost m1 = gv(*map);
    proof {
        lemma_carved_monotone(m0, m1, |px: int, py: int| room_interior(new_room, px, py));
        lemma_carved_unexplored(m0, m1, |px: int, py: int| room_interior(new_room, px, py));
        assert forall|px: int, py: int| #[trigger] room_interior(new_room, px, py) implies floor_at(
            m1,
            px,
            py,
        ) by {
            assert(m1[px][py] == (Tile { blocked: false, block_sight: false, explored: false }));
        }
    }
    place_objects(new_room, &map, objects, level);
}

/// Lifts the generator's invariants over appending one accepted room:
/// well-formedness, pairwise separation, carved interiors, placement
/// of every entity, and walkability of every accepted center.
pub proof fn lemma_accept_push(
    m: Seq<Seq<Tile>>,
    objects: Seq<Object>,
    n_pre: int,
    rooms_pre: Seq<Rect>,
    new_room: Rect,
    level: u32,
)
    requires
        1 <= n_pre <= objects.len(),
        forall|i: int| 1 <= i < n_pre ==> placed_in_room(rooms_pre, #[trigger] objects[i], level),
        forall|i: int|
            n_pre <= i < objects.len() ==> room_interior(
                new_room,
                (#[trigger] objects[i]).x as int,
                objects[i].y as int,
            ) && (monster_object(objects[i], objects[i].x as int, objects[i].y as int, level)
                || item_object(objects[i], objects[i].x as int, objects[i].y as int)),
        forall|k: int| 0 <= k < rooms_pre.len() ==> room_wf(#[trigger] rooms_pre[k]),
        room_wf(new_room),
        forall|i: int, j: int|
            0 <= i < j < rooms_pre.len() ==> !rect_overlap(#[trigger] rooms_pre[i], #[trigger] rooms_pre[j]),
        forall|j: int| 0 <= j < rooms_pre.len() ==> !rect_overlap(new_room, #[trigger] rooms_pre[j]),
        forall|k: int, x: int, y: int|
            0 <= k < rooms_pre.len() && #[trigger] room_interior(rooms_pre[k], x, y) ==> floor_at(m, x, y),
        forall|x: int, y: int| #[trigger] room_interior(new_room, x, y) ==> floor_at(m, x, y),
        forall|k: int|
            0 <= k < rooms_pre.len() ==> reachable(
                m,
                rect_center(rooms_pre[0]),
                rect_center(#[trigger] rooms_pre[k]),
            ),
        rooms_pre.len() > 0 ==> reachable(m, rect_center(rooms_pre[0]), rect_center(new_room)),
        rooms_pre.len() == 0 ==> reachable(m, rect_center(new_room), rect_center(new_room)),
    ensures
        forall|k: int| 0 <= k < rooms_pre.push(new_room).len() ==> room_wf(#[trigger] rooms_pre.push(new_room)[k]),
        forall|i: int, j: int|
            0 <= i < j < rooms_pre.push(new_room).len() ==> !rect_overlap(
                #[trigger] rooms_pre.push(new_room)[i],
                #[trigger] rooms_pre.push(new_room)[j],
            ),
        forall|k: int, x: int, y: int|
            0 <= k < rooms_pre.push(new_room).len() && #[trigger] room_interior(
                rooms_pre.push(new_room)[k],
                x,
                y,
            ) ==> floor_at(m, x, y),
        forall|i: int|
            1 <= i < objects.len() ==> placed_in_room(rooms_pre.push(new_room), #[trigger] objects[i], level),
        forall|k: int|
            0 <= k < rooms_pre.push(new_room).len() ==> reachable(
                m,
                rect_center(rooms_pre.push(new_room)[0]),
                rect_center(#[trigger] rooms_pre.push(new_room)[k]),
            ),
{
    let rooms = rooms_pre.push(new_room);
    assert forall|i: int, j: int|
        0 <= i < j < rooms.len() implies !rect_overlap(#[trigger] rooms[i], #[trigger] rooms[j]) by {
        if j == rooms.len() - 1 {
            assert(rooms[i] == rooms_pre[i]);
            assert(!rect_overlap(new_room, rooms_pre[i]));
        } else {
            assert(rooms[i] == rooms_pre[i] && rooms[j] == rooms_pre[j]);
        }
    }
    assert forall|k: int, x: int, y: int|
        0 <= k < rooms.len() && #[trigger] room_interior(rooms[k], x, y) implies floor_at(m, x, y) by {
        if k < rooms.len() - 1 {
            assert(rooms[k] == rooms_pre[k]);
        } else {
            assert(rooms[k] == new_room);
        }
    }
    assert forall|i: int|
        1 <= i < objects.len() implies placed_in_room(rooms, #[trigger] objects[i], level) by {
        let o = objects[i];
        if i < n_pre {
            let k = choose|k: int|
                0 <= k < rooms_pre.len() && room_interior(#[trigger] rooms_pre[k], o.x as int, o.y as int)
                    && (monster_object(o, o.x as int, o.y as int, level) || item_object(
                    o,
                    o.x as int,
                    o.y as int,
                ));
            assert(rooms[k] == rooms_pre[k]);
        } else {
            assert(rooms[rooms.len() - 1] == new_room);
            assert(room_interior(rooms[rooms.len() - 1], o.x as int, o.y as int));
        }
    }
    assert forall|k: int|
        0 <= k < rooms.len() implies reachable(m, rect_center(rooms[0]), rect_center(#[trigger] rooms[k])) by {
        if rooms_pre.len() == 0 {
            assert(rooms[0] == new_room && rooms[k] == new_room);
        } else {
            assert(rooms[0] == rooms_pre[0]);
            if k < rooms.len() - 1 {
                assert(rooms[k] == rooms_pre[k]);
            } else {
                assert(rooms[k] == new_room);
            }
        }
    }
}

/// Accepts a candidate room: carves it, populates it, starts the
/// player in the first one or tunnels to the previous one, and appends
/// it to the accepted list.
#[verifier::loop_isolation(false)]
#[verifier::rlimit(100)]
fn accept_room(
    map: &mut Grid,
    objects: &mut Vec<Object>,
    rooms: &mut Vec<Rect>,
    new_room: Rect,
    level: u32,
    Ghost(base): Ghost<Seq<Object>>,
)
    requires
        gen_inv(gv(*old(map)), old(objects)@, old(rooms)@, base, level),
        room_wf(new_room),
        forall|j: int|
            0 <= j < old(rooms)@.len() ==> !rect_overlap(new_room, #[trigger] old(rooms)@[j]),
    ensures
        gen_inv(gv(*final(map)), final(objects)@, final(rooms)@, base, level),
        final(rooms)@.len() == old(rooms)@.len() + 1,
{
    let ghost m0 = gv(*map);
    carve_and_populate(map, objects, new_room, level);
    let ghost m1 = gv(*map);
    proof {
        assert forall|k: int, px: int, py: int|
            0 <= k < rooms@.len() && #[trigger] room_interior(rooms@[k], px, py) implies floor_at(
                m1,
                px,
                py,
            ) by {
            assert(floor_at(m0, px, py));
        }
        assert forall|k: int|
            0 <= k < rooms@.len() implies reachable(
                m1,
                rect_center(rooms@[0]),
                rect_center(#[trigger] rooms@[k]),
            ) by {
            crate::reach::lemma_reach_monotone(m0, m1, rect_center(rooms@[0]), rect_center(rooms@[k]));
        }
    }
    let c = new_room.center();
    proof {
        lemma_center_in_interior(new_room);
    }
    if rooms.len() == 0 {
        let player = &mut objects[0];
        player.set_pos(c.0, c.1);
        proof {
            crate::reach::lemma_reach_self(gv(*map), rect_center(new_room));
        }
    } else {
        let prev = rooms[rooms.len() - 1];
        connect_rooms(map, prev, new_room);
        proof {
            let mcur = gv(*map);
            assert forall|k: int, px: int, py: int|
                0 <= k < rooms@.len() && #[trigger] room_interior(rooms@[k], px, py) implies floor_at(
                    mcur,
                    px,
                    py,
                ) by {
                assert(floor_at(m1, px, py));
            }
            assert forall|px: int, py: int| #[trigger] room_interior(new_room, px, py) implies floor_at(
                mcur,
                px,
                py,
            ) by {
                assert(floor_at(m1, px, py));
            }
            assert forall|k: int|
                0 <= k < rooms@.len() implies reachable(
                    mcur,
                    rect_center(rooms@[0]),
                    rect_center(#[trigger] rooms@[k]),
                ) by {
                crate::reach::lemma_reach_monotone(
                    m1,
                    mcur,
                    rect_center(rooms@[0]),
                    rect_center(rooms@[k]),
                );
            }
            crate::reach::lemma_reach_monotone(m1, mcur, rect_center(rooms@[0]), rect_center(prev));
            crate::reach::lemma_reach_trans(
                gv(*map),
                rect_center(rooms@[0]),
                rect_center(prev),
                rect_center(new_room),
            );
        }
    }
    let ghost rooms_pre = rooms@;
    let ghost n_pre = old(objects)@.len() as int;
    rooms.push(new_room);
    proof {
        assert forall|i: int| 1 <= i < n_pre implies placed_in_room(
            rooms_pre,
            #[trigger] objects@[i],
            level,
        ) by {
            assert(objects@[i] == old(objects)@[i]);
        }
        lemma_accept_push(gv(*map), objects@, n_pre, rooms_pre, new_room, level);
        assert(rooms@ == rooms_pre.push(new_room));
    }
}

/// Generates a fresh level: keeps only the player from the entity list,
/// attempts a fixed number of random rooms, rejects overlaps, carves
/// accepted rooms and L-shaped tunnels between consecutive ones,
/// populates each room, starts the player at the first room's center
/// and drops the stairs at the last room's center.
///
/// The returned ghost sequence lists the accepted rooms in order. The
/// contract carries the generator's two structural guarantees: accepted
/// rooms never overlap, and every accepted room's interior is walkable
/// from the player's start position.
#[verifier::loop_isolation(false)]
#[verifier::rlimit(60)]
pub fn make_map(objects: &mut Vec<Object>, level: u32) -> (r: (Grid, Ghost<Seq<Rect>>))
    requires
        old(objects)@.len() >= 1,
    ensures
        grid_wf(gv(r.0)),
        all_unexplored(gv(r.0)),
        r.1@.len() >= 1,
        forall|k: int| 0 <= k < r.1@.len() ==> room_wf(#[trigger] r.1@[k]),
        forall|i: int, j: int|
            0 <= i < j < r.1@.len() ==> !rect_overlap(#[trigger] r.1@[i], #[trigger] r.1@[j]),
        forall|k: int, x: int, y: int|
            0 <= k < r.1@.len() && #[trigger] room_interior(r.1@[k], x, y) ==> floor_at(gv(r.0), x, y),
        final(objects)@.len() >= 2,
        same_but_pos(final(objects)@[0], old(objects)@[0]),
        final(objects)@[0].x as int == rect_center(r.1@[0]).0,
        final(objects)@[0].y as int == rect_center(r.1@[0]).1,
        forall|i: int|
            1 <= i < final(objects)@.len() - 1 ==> placed_in_room(r.1@, #[trigger] final(objects)@[i], level),
        stairs_object(
            final(objects)@.last(),
            rect_center(r.1@.last()).0,
            rect_center(r.1@.last()).1,
        ),
        forall|k: int, x: int, y: int|
            0 <= k < r.1@.len() && #[trigger] room_interior(r.1@[k], x, y) ==> reachable(
                gv(r.0),
                (final(objects)@[0].x as int, final(objects)@[0].y as int),
                (x, y),
            ),
{
    let mut map: Grid = new_wall_grid();

    objects.truncate(1);
    let ghost base = objects@;
    proof {
        assert(base =~= old(objects)@.take(1));
    }

    let mut rooms: Vec<Rect> = Vec::new();
    let mut attempts: i32 = 0;
    while attempts < MAX_ROOMS
        invariant
            gen_inv(gv(map), objects@, rooms@, base, level),
            attempts >= 1 ==> rooms@.len() >= 1,
        decreases MAX_ROOMS - attempts,
    {
        try_add_room(&mut map, objects, &mut rooms, level, Ghost(base));
        attempts = attempts + 1;
    }

    let last = rooms[rooms.len() - 1];
    let lc = last.center();
    let mut stairs = Object::new(lc.0, lc.1, '<', Color::rgb(255, 255, 255), "stairs", false);
    stairs.always_visible = true;
    let ghost objs_pre = objects@;
    objects.push(stairs);
    proof {
        assert forall|i2: int|
            1 <= i2 < objects@.len() - 1 implies placed_in_room(
            rooms@,
            #[trigger] objects@[i2],
            level,
        ) by {
            assert(objects@[i2] == objs_pre[i2]);
        }
        let c0 = rect_center(rooms@[0]);
        assert forall|k: int, px: int, py: int|
            0 <= k < rooms@.len() && #[trigger] room_interior(rooms@[k], px, py) implies reachable(
                gv(map),
                c0,
                (px, py),
            ) by {
            lemma_center_in_interior(rooms@[k]);
            crate::reach::lemma_room_connected(gv(map), rooms@[k], rect_center(rooms@[k]), (px, py));
            crate::reach::lemma_reach_trans(gv(map), c0, rect_center(rooms@[k]), (px, py));
        }
    }
    (map, Ghost(rooms@))
}

} // verus!
