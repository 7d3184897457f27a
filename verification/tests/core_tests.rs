use dungeon_core::object::{Object, Color, Fighter, Equipment, Slot, Ai, Item, DeathCallback};
use dungeon_core::game::Game;
use dungeon_core::geometry::Rect;
use dungeon_core::tile::Tile;
use dungeon_core::engine::{Command, PlayerAction, StatChoice};
use dungeon_core::inventory::UseResult;
use dungeon_core::{MAP_WIDTH, MAP_HEIGHT};
use dungeon_core::mapgen::{Transition, from_dungeon_level};

fn open_grid() -> Vec<Vec<Tile>> {
    let mut grid = Vec::new();
    for _ in 0..MAP_WIDTH {
        let mut column = Vec::new();
        for _ in 0..MAP_HEIGHT {
            column.push(Tile::empty());
        }
        grid.push(column);
    }
    grid
}

fn full_fov() -> Vec<Vec<bool>> {
    let mut fov = Vec::new();
    for _ in 0..MAP_WIDTH {
        let mut column = Vec::new();
        for _ in 0..MAP_HEIGHT {
            column.push(true);
        }
        fov.push(column);
    }
    fov
}

fn empty_game() -> Game {
    Game { grid: open_grid(), log: Vec::new(), inventory: Vec::new(), dungeon_level: 1 }
}

fn player_at(x: i32, y: i32) -> Object {
    let mut p = Object::new(x, y, '@', Color::rgb(255, 255, 255), "Player", true);
    p.alive = true;
    p.fighter = Some(Fighter {
        max_hp: 100,
        hp: 100,
        defense: 1,
        base_power: 4,
        on_death: DeathCallback::Player,
        xp: 0,
    });
    p
}

fn orc_at(x: i32, y: i32) -> Object {
    let mut m = Object::new(x, y, 'O', Color::rgb(63, 191, 63), "Orc", true);
    m.alive = true;
    m.fighter = Some(Fighter {
        max_hp: 20,
        hp: 20,
        defense: 0,
        base_power: 4,
        on_death: DeathCallback::Monster,
        xp: 35,
    });
    m.ai = Some(Ai::Basic);
    m
}

fn sword_named(name: &str, equipped: bool) -> Object {
    let mut s = Object::new(0, 0, '/', Color::rgb(0, 191, 255), name, false);
    s.item = Some(Item::Equipment);
    s.equipment = Some(Equipment { slot: Slot::RightHand, equipped, power_bonus: 3 });
    s
}

#[test]
fn rect_center_and_overlap() {
    let a = Rect::new(2, 3, 6, 6);
    assert_eq!(a.x1, 2);
    assert_eq!(a.x2, 8);
    assert_eq!(a.center(), (5, 6));
    let b = Rect::new(8, 3, 6, 6);
    // inclusive bounds: touching rectangles count as overlapping
    assert!(a.intersects_with(&b));
    assert!(b.intersects_with(&a));
    let c = Rect::new(9, 3, 6, 6);
    assert!(!a.intersects_with(&c));
}

#[test]
fn depth_table_values() {
    let mut table = Vec::new();
    table.push(Transition { level: 1, value: 2 });
    table.push(Transition { level: 4, value: 3 });
    table.push(Transition { level: 6, value: 5 });
    assert_eq!(from_dungeon_level(&table, 0), 0);
    assert_eq!(from_dungeon_level(&table, 1), 2);
    assert_eq!(from_dungeon_level(&table, 3), 2);
    assert_eq!(from_dungeon_level(&table, 4), 3);
    assert_eq!(from_dungeon_level(&table, 6), 5);
    assert_eq!(from_dungeon_level(&table, 99), 5);
}

#[test]
fn generated_dungeon_is_connected() {
    // every walkable tile must be reachable from the player's start
    let (objects, game, _rooms) = dungeon_core::engine::new_game();
    assert!(objects.len() >= 2);
    assert_eq!(objects[0].name, "Player");
    assert_eq!(objects[objects.len() - 1].name, "stairs");
    assert_eq!(game.dungeon_level, 1);
    let grid = &game.grid;
    assert_eq!(grid.len(), MAP_WIDTH as usize);
    for column in grid.iter() {
        assert_eq!(column.len(), MAP_HEIGHT as usize);
    }
    let w = MAP_WIDTH as usize;
    let h = MAP_HEIGHT as usize;
    let mut seen = vec![vec![false; h]; w];
    let sx = objects[0].x as usize;
    let sy = objects[0].y as usize;
    assert!(!grid[sx][sy].blocked, "player must start on floor");
    let mut queue = vec![(sx, sy)];
    seen[sx][sy] = true;
    let mut reached = 0usize;
    while let Some((x, y)) = queue.pop() {
        reached += 1;
        let mut neighbors = Vec::new();
        if x > 0 {
            neighbors.push((x - 1, y));
        }
        if x + 1 < w {
            neighbors.push((x + 1, y));
        }
        if y > 0 {
            neighbors.push((x, y - 1));
        }
        if y + 1 < h {
            neighbors.push((x, y + 1));
        }
        for (nx, ny) in neighbors {
            if !seen[nx][ny] && !grid[nx][ny].blocked {
                seen[nx][ny] = true;
                queue.push((nx, ny));
            }
        }
    }
    let mut floor = 0usize;
    for x in 0..w {
        for y in 0..h {
            if !grid[x][y].blocked {
                floor += 1;
            }
        }
    }
    assert_eq!(reached, floor, "all floor tiles reachable from the start");
    // every monster and item sits on the grid
    for o in objects.iter() {
        assert!(o.x >= 0 && o.x < MAP_WIDTH && o.y >= 0 && o.y < MAP_HEIGHT);
    }
}

#[test]
fn attack_damage_formula() {
    // power 5 against defense 2 deals exactly 3 damage
    let mut game = empty_game();
    let mut attacker = player_at(1, 1);
    attacker.fighter = Some(Fighter { base_power: 5, ..attacker.fighter.unwrap() });
    let mut defender = orc_at(2, 1);
    defender.fighter = Some(Fighter { defense: 2, ..defender.fighter.unwrap() });
    attacker.attack(&mut defender, &mut game);
    assert_eq!(defender.fighter.unwrap().hp, 17);
    assert_eq!(game.log.len(), 1);
    assert_eq!(game.log[0].0, "Player attacks Orc for 3 hp.");

    // power 2 against defense 5 has no effect
    let mut game2 = empty_game();
    let mut weak = player_at(1, 1);
    weak.fighter = Some(Fighter { base_power: 2, ..weak.fighter.unwrap() });
    let mut tough = orc_at(2, 1);
    tough.fighter = Some(Fighter { defense: 5, ..tough.fighter.unwrap() });
    weak.attack(&mut tough, &mut game2);
    assert_eq!(tough.fighter.unwrap().hp, 20);
    assert_eq!(game2.log[0].0, "Player attacks Orc but it has no effect!");
}

#[test]
fn death_transition_clears_monster() {
    let mut game = empty_game();
    let mut orc = orc_at(5, 5);
    let awarded = orc.take_damage(25, &mut game);
    assert_eq!(awarded, Some(35));
    assert!(!orc.alive);
    assert!(!orc.blocks);
    assert!(orc.fighter.is_none());
    assert!(orc.ai.is_none());
    assert_eq!(orc.name, "Remains of Orc");
    assert_eq!(orc.glyph, '%');
    assert_eq!(game.log.len(), 1);
    assert_eq!(game.log[0].0, "Orc was slain. 35 xp");
}

#[test]
fn dead_entity_skipped_by_ai_phase() {
    let mut game = empty_game();
    let fov = full_fov();
    let mut objects = vec![player_at(1, 1), orc_at(30, 30)];
    // kill the orc first
    {
        let orc = &mut objects[1];
        orc.take_damage(25, &mut game);
    }
    let before_log = game.log.len();
    let dead_snapshot_name = objects[1].name.clone();
    dungeon_core::engine::ai_turns(&mut objects, &fov, &mut game);
    // remains have no AI, so the phase leaves them and the log alone
    assert_eq!(objects[1].name, dead_snapshot_name);
    assert_eq!(objects[1].x, 30);
    assert_eq!(objects[1].y, 30);
    assert_eq!(game.log.len(), before_log);
}

#[test]
fn basic_ai_approaches_and_attacks() {
    let mut game = empty_game();
    let fov = full_fov();
    // far away: one 8-directional step toward the player
    let mut objects = vec![player_at(10, 10), orc_at(20, 10)];
    dungeon_core::engine::ai_turns(&mut objects, &fov, &mut game);
    assert_eq!((objects[1].x, objects[1].y), (19, 10));
    // adjacent: attacks instead (player defense 1, orc power 4 -> 3 damage)
    let mut game2 = empty_game();
    let mut objects2 = vec![player_at(10, 10), orc_at(11, 10)];
    dungeon_core::engine::ai_turns(&mut objects2, &fov, &mut game2);
    assert_eq!(objects2[0].fighter.unwrap().hp, 97);
}

#[test]
fn confusion_takes_eleven_turns() {
    let mut game = empty_game();
    let mut objects = vec![player_at(1, 1), orc_at(20, 20)];
    objects[1].ai = Some(Ai::Confused { previous_ai: Box::new(Ai::Basic), num_turns: 10 });
    let fov = full_fov();
    // turns 10 down through 0 inclusive: eleven confused random walks
    for turn in 0..11 {
        dungeon_core::engine::ai_turns(&mut objects, &fov, &mut game);
        match &objects[1].ai {
            Some(Ai::Confused { num_turns, .. }) => {
                assert_eq!(*num_turns, 10 - (turn as i32) - 1);
            },
            other => panic!("still confused expected on turn {}, got {:?}", turn, other),
        }
        assert_eq!(game.log.len(), 0, "no reversion line while still confused");
    }
    // the twelfth activation reverts and logs exactly one line
    dungeon_core::engine::ai_turns(&mut objects, &fov, &mut game);
    assert!(matches!(objects[1].ai, Some(Ai::Basic)));
    assert_eq!(game.log.len(), 1);
    assert_eq!(game.log[0].0, "The Orc is no longer confused!");
}

#[test]
fn equip_is_slot_exclusive() {
    let mut game = empty_game();
    game.inventory.push(sword_named("sword A", true));
    game.inventory.push(sword_named("sword B", false));
    let r = dungeon_core::inventory::toggle_equipment(1, &mut game);
    assert_eq!(r, UseResult::UsedAndKept);
    assert!(!game.inventory[0].equipment.unwrap().equipped);
    assert!(game.inventory[1].equipment.unwrap().equipped);
}

#[test]
fn pickup_auto_equips_free_slot() {
    let mut game = empty_game();
    let mut objects = vec![player_at(3, 3), sword_named("sword", false)];
    objects[1].x = 3;
    objects[1].y = 3;
    let r = dungeon_core::engine::handle_command(
        Command::Pickup,
        &mut objects,
        &mut game,
        &full_fov(),
    );
    assert_eq!(r, PlayerAction::DidntTakeTurn);
    assert_eq!(objects.len(), 1);
    assert_eq!(game.inventory.len(), 1);
    assert!(game.inventory[0].equipment.unwrap().equipped);
    assert_eq!(game.log[0].0, "You picked up sword!");
    assert_eq!(game.log[1].0, "Equipped sword on right hand.");
}

#[test]
fn pickup_fails_when_inventory_full() {
    let mut game = empty_game();
    for i in 0..26 {
        let mut junk = Object::new(0, 0, '!', Color::rgb(127, 0, 255), "potion", false);
        junk.item = Some(Item::Heal);
        junk.x = i;
        game.inventory.push(junk);
    }
    let mut objects = vec![player_at(3, 3), sword_named("sword", false)];
    dungeon_core::inventory::pick_item_up(1, &mut objects, &mut game);
    assert_eq!(objects.len(), 2, "item left on the ground");
    assert_eq!(game.inventory.len(), 26);
    assert_eq!(game.log[0].0, "Inventory is full, cannot pick up sword");
}

#[test]
fn player_equipped_bonus_counts() {
    let mut game = empty_game();
    game.inventory.push(sword_named("sword", true));
    let player = player_at(0, 0);
    assert_eq!(player.power(&game), 7); // base 4 + bonus 3
    let orc = orc_at(1, 1);
    assert_eq!(orc.power(&game), 4); // monsters get no equipment bonus
}

#[test]
fn leveling_spends_exact_threshold() {
    let mut game = empty_game();
    let mut objects = vec![player_at(1, 1)];
    objects[0].level = 1;
    objects[0].fighter = Some(Fighter { xp: 350, ..objects[0].fighter.unwrap() });
    assert_eq!(dungeon_core::engine::level_up_xp(1), 350);
    assert!(dungeon_core::engine::needs_level_up(&objects));
    dungeon_core::engine::apply_level_up(&mut objects, &mut game, StatChoice::Strength);
    assert_eq!(objects[0].level, 2);
    assert_eq!(objects[0].fighter.unwrap().xp, 0);
    assert_eq!(objects[0].fighter.unwrap().base_power, 5);
    assert!(!dungeon_core::engine::needs_level_up(&objects));
    assert_eq!(game.log[0].0, "You leveled up to 2!");
}

#[test]
fn heal_clamps_and_cancels_at_full() {
    let mut game = empty_game();
    let mut objects = vec![player_at(1, 1)];
    let r = dungeon_core::inventory::cast_heal(&mut objects, &mut game);
    assert_eq!(r, UseResult::Cancelled);
    assert_eq!(game.log[0].0, "You are already at full health.");
    objects[0].fighter = Some(Fighter { hp: 90, ..objects[0].fighter.unwrap() });
    let r2 = dungeon_core::inventory::cast_heal(&mut objects, &mut game);
    assert_eq!(r2, UseResult::UsedUp);
    assert_eq!(objects[0].fighter.unwrap().hp, 100, "clamped at max");
}

#[test]
fn fireball_hits_by_euclidean_radius() {
    let mut game = empty_game();
    // target (10, 10): distances 0, 3, and sqrt(10) > 3
    let mut objects = vec![player_at(1, 1), orc_at(10, 10), orc_at(13, 10), orc_at(13, 11)];
    let r = dungeon_core::inventory::cast_fireball(&mut objects, &mut game, Some((10, 10)));
    assert_eq!(r, UseResult::UsedUp);
    assert!(objects[1].fighter.is_none(), "25 damage kills a 20 hp orc at distance 0");
    assert!(objects[2].fighter.is_none(), "distance 3 is inside radius 3");
    assert_eq!(objects[3].fighter.unwrap().hp, 20, "distance just over 3 is spared");
    assert_eq!(objects[0].fighter.unwrap().xp, 70, "two kills award 35 xp each");
}

#[test]
fn fireball_cancelled_without_target() {
    let mut game = empty_game();
    let mut objects = vec![player_at(1, 1)];
    let r = dungeon_core::inventory::cast_fireball(&mut objects, &mut game, None);
    assert_eq!(r, UseResult::Cancelled);
    assert_eq!(objects[0].fighter.unwrap().hp, 100);
}

#[test]
fn lightning_strikes_closest_visible_enemy() {
    let mut game = empty_game();
    let fov = full_fov();
    let mut objects = vec![player_at(10, 10), orc_at(13, 10), orc_at(12, 10)];
    let r = dungeon_core::inventory::cast_lightning(&mut objects, &mut game, &fov);
    assert_eq!(r, UseResult::UsedUp);
    assert!(objects[2].fighter.is_none(), "the closer orc takes the bolt");
    assert_eq!(objects[1].fighter.unwrap().hp, 20);
    assert_eq!(objects[0].fighter.unwrap().xp, 35);
}

#[test]
fn lightning_cancelled_out_of_range() {
    let mut game = empty_game();
    let fov = full_fov();
    let mut objects = vec![player_at(10, 10), orc_at(30, 30)];
    let r = dungeon_core::inventory::cast_lightning(&mut objects, &mut game, &fov);
    assert_eq!(r, UseResult::Cancelled);
    assert_eq!(game.log[0].0, "No enemy is close enough to strike.");
}

#[test]
fn confuse_scroll_wraps_previous_state() {
    let mut game = empty_game();
    let mut objects = vec![player_at(1, 1), orc_at(5, 5)];
    let r = dungeon_core::inventory::cast_confuse(&mut objects, &mut game, Some((5, 5)));
    assert_eq!(r, UseResult::UsedUp);
    match &objects[1].ai {
        Some(Ai::Confused { previous_ai, num_turns }) => {
            assert_eq!(*num_turns, 10);
            assert!(matches!(**previous_ai, Ai::Basic));
        },
        other => panic!("expected confusion, got {:?}", other),
    }
}

#[test]
fn use_item_consumes_and_logs_cancel() {
    let mut game = empty_game();
    let mut potion = Object::new(0, 0, '!', Color::rgb(127, 0, 255), "healing potion", false);
    potion.item = Some(Item::Heal);
    game.inventory.push(potion);
    let mut objects = vec![player_at(1, 1)];
    objects[0].fighter = Some(Fighter { hp: 50, ..objects[0].fighter.unwrap() });
    dungeon_core::inventory::use_item(0, &mut objects, &mut game, &full_fov(), None);
    assert_eq!(game.inventory.len(), 0, "used-up potion leaves the inventory");
    assert_eq!(objects[0].fighter.unwrap().hp, 90);

    // a cancelled use keeps the item and logs one line
    let mut potion2 = Object::new(0, 0, '!', Color::rgb(127, 0, 255), "healing potion", false);
    potion2.item = Some(Item::Heal);
    game.inventory.push(potion2);
    objects[0].fighter = Some(Fighter { hp: 100, ..objects[0].fighter.unwrap() });
    let before = game.log.len();
    dungeon_core::inventory::use_item(0, &mut objects, &mut game, &full_fov(), None);
    assert_eq!(game.inventory.len(), 1);
    assert_eq!(game.log[game.log.len() - 1].0, "Cancelled");
    assert!(game.log.len() == before + 2);
}

#[test]
fn use_item_refuses_non_item() {
    let mut game = empty_game();
    game.inventory.push(Object::new(0, 0, '?', Color::rgb(255, 255, 255), "rock", false));
    let mut objects = vec![player_at(1, 1)];
    dungeon_core::inventory::use_item(0, &mut objects, &mut game, &full_fov(), None);
    assert_eq!(game.inventory.len(), 1);
    assert_eq!(game.log[0].0, "The rock cannot be used.");
}

#[test]
fn drop_puts_item_at_player_feet() {
    let mut game = empty_game();
    game.inventory.push(sword_named("sword", true));
    let mut objects = vec![player_at(7, 9)];
    dungeon_core::inventory::drop_item(0, &mut objects, &mut game);
    assert_eq!(game.inventory.len(), 0);
    assert_eq!(objects.len(), 2);
    let dropped = &objects[1];
    assert_eq!((dropped.x, dropped.y), (7, 9));
    assert!(!dropped.equipment.unwrap().equipped, "dropping takes the item off");
}

#[test]
fn movement_blocked_by_walls_and_monsters() {
    let mut game = empty_game();
    game.grid[2][1] = Tile::wall();
    let fov = full_fov();
    let mut objects = vec![player_at(1, 1)];
    // into a wall: no move, still a turn
    let r = dungeon_core::engine::handle_command(
        Command::Move { dx: 1, dy: 0 },
        &mut objects,
        &mut game,
        &fov,
    );
    assert_eq!(r, PlayerAction::TookTurn);
    assert_eq!((objects[0].x, objects[0].y), (1, 1));
    // onto free floor: moves
    dungeon_core::engine::handle_command(Command::Move { dx: 0, dy: 1 }, &mut objects, &mut game, &fov);
    assert_eq!((objects[0].x, objects[0].y), (1, 2));
    // into a monster: merges into an attack
    objects.push(orc_at(1, 3));
    dungeon_core::engine::handle_command(Command::Move { dx: 0, dy: 1 }, &mut objects, &mut game, &fov);
    assert_eq!((objects[0].x, objects[0].y), (1, 2), "attack instead of move");
    assert_eq!(objects[1].fighter.unwrap().hp, 16);
}

#[test]
fn quit_and_unknown_commands() {
    let mut game = empty_game();
    let fov = full_fov();
    let mut objects = vec![player_at(1, 1)];
    let r = dungeon_core::engine::handle_command(Command::Quit, &mut objects, &mut game, &fov);
    assert_eq!(r, PlayerAction::Exit);
    let r2 = dungeon_core::engine::handle_command(Command::Other, &mut objects, &mut game, &fov);
    assert_eq!(r2, PlayerAction::DidntTakeTurn);
}

#[test]
fn descend_only_on_stairs() {
    let mut game = empty_game();
    let fov = full_fov();
    let mut objects = vec![player_at(1, 1)];
    let mut stairs = Object::new(30, 30, '<', Color::rgb(255, 255, 255), "stairs", false);
    stairs.always_visible = true;
    objects.push(stairs);
    let off = dungeon_core::engine::handle_command(Command::Descend, &mut objects, &mut game, &fov);
    assert_eq!(off, PlayerAction::DidntTakeTurn, "no descend away from the stairs");
    assert_eq!(game.dungeon_level, 1, "not on the stairs: nothing happens");
    objects[0].x = 30;
    objects[0].y = 30;
    objects[0].fighter = Some(Fighter { hp: 40, ..objects[0].fighter.unwrap() });
    let on = dungeon_core::engine::handle_command(Command::Descend, &mut objects, &mut game, &fov);
    assert_eq!(on, PlayerAction::TookTurn, "an effective descend takes the turn");
    assert_eq!(game.dungeon_level, 2);
    assert_eq!(objects[0].fighter.unwrap().hp, 90, "healed by half of maximum");
    assert_eq!(objects[objects.len() - 1].name, "stairs", "fresh level has fresh stairs");
}

#[test]
fn explored_flags_are_append_only() {
    let mut grid = open_grid();
    let mut fov = Vec::new();
    for x in 0..MAP_WIDTH {
        let mut column = Vec::new();
        for y in 0..MAP_HEIGHT {
            column.push(x == 4 && y == 7);
        }
        fov.push(column);
    }
    dungeon_core::engine::update_explored(&mut grid, &fov);
    assert!(grid[4][7].explored);
    assert!(!grid[5][7].explored);
    // a later tick that no longer sees the tile must not unexplore it
    let dark: Vec<Vec<bool>> = (0..MAP_WIDTH)
        .map(|_| (0..MAP_HEIGHT).map(|_| false).collect())
        .collect();
    dungeon_core::engine::update_explored(&mut grid, &dark);
    assert!(grid[4][7].explored);
}

#[test]
fn save_and_load_round_trip() {
    // a world with everything the codec must keep: explored flags,
    // equip states, nested confusion counters, log colors, depth
    let mut game = empty_game();
    game.grid[3][4].explored = true;
    game.grid[5][6] = Tile::wall();
    game.dungeon_level = 7;
    game.log.push(("hello dungeon".to_string(), Color::rgb(1, 2, 3)));
    game.inventory.push(sword_named("sword", true));
    let mut objects = vec![player_at(9, 9), orc_at(12, 13)];
    objects[1].ai = Some(Ai::Confused {
        previous_ai: Box::new(Ai::Confused { previous_ai: Box::new(Ai::Basic), num_turns: 2 }),
        num_turns: 5,
    });
    objects[0].fighter = Some(Fighter { xp: 123, hp: 77, ..objects[0].fighter.unwrap() });

    let bytes = dungeon_core::codec::encode_world(&objects, &game);
    let (objects2, game2) = dungeon_core::codec::decode_world(&bytes).expect("round trip");

    assert_eq!(objects2.len(), objects.len());
    for (a, b) in objects.iter().zip(objects2.iter()) {
        assert_eq!(a.x, b.x);
        assert_eq!(a.y, b.y);
        assert_eq!(a.glyph, b.glyph);
        assert_eq!(a.name, b.name);
        assert_eq!(a.blocks, b.blocks);
        assert_eq!(a.alive, b.alive);
        assert_eq!(a.fighter, b.fighter);
        assert_eq!(a.item, b.item);
        assert_eq!(a.always_visible, b.always_visible);
        assert_eq!(a.level, b.level);
        assert_eq!(a.equipment, b.equipment);
        assert_eq!(format!("{:?}", a.ai), format!("{:?}", b.ai));
    }
    assert_eq!(game2.dungeon_level, 7);
    assert_eq!(game2.log.len(), 1);
    assert_eq!(game2.log[0].0, "hello dungeon");
    assert_eq!(game2.log[0].1, Color::rgb(1, 2, 3));
    assert_eq!(game2.inventory.len(), 1);
    assert!(game2.inventory[0].equipment.unwrap().equipped);
    assert!(game2.grid[3][4].explored);
    assert!(game2.grid[5][6].blocked);
    assert!(!game2.grid[0][0].explored);
}

#[test]
fn corrupt_save_is_rejected() {
    let mut game = empty_game();
    let objects = vec![player_at(1, 1)];
    let mut bytes = dungeon_core::codec::encode_world(&objects, &game);
    bytes.truncate(bytes.len() / 2);
    assert!(dungeon_core::codec::decode_world(&bytes).is_none());
    assert!(dungeon_core::codec::decode_world(&Vec::new()).is_none());
    let _ = &mut game;
}

#[test]
fn rng_wrappers_honor_their_ranges() {
    for _ in 0..50 {
        let v = dungeon_core::rng::rand_range_i32(5, 6);
        assert_eq!(v, 5, "a one-value range has one outcome");
        let w = dungeon_core::rng::rand_range_i32(-1, 2);
        assert!(w >= -1 && w < 2);
    }
    let weights = vec![0u32, 7, 0];
    for _ in 0..50 {
        assert_eq!(dungeon_core::rng::weighted_pick(&weights), 1, "zero weights never picked");
    }
    let _coin = dungeon_core::rng::rand_coin();
}

#[test]
fn decimal_formatting_is_exact() {
    assert_eq!(dungeon_core::text::fmt_i32(0), "0");
    assert_eq!(dungeon_core::text::fmt_i32(35), "35");
    assert_eq!(dungeon_core::text::fmt_i32(-123), "-123");
    assert_eq!(dungeon_core::text::fmt_i32(i32::MIN), "-2147483648");
}

#[test]
fn monster_table_scales_with_depth() {
    // at depth 1 the troll's weight is zero, so only orcs can appear
    for _ in 0..25 {
        let m = dungeon_core::mapgen::create_monster(5, 5, 1);
        assert_eq!(m.name, "Orc");
        assert!(m.alive && m.blocks);
        assert_eq!(m.fighter.unwrap().max_hp, 20);
        assert!(matches!(m.ai, Some(Ai::Basic)));
    }
    // at depth 7 both kinds are possible, each fully initialized
    for _ in 0..25 {
        let m = dungeon_core::mapgen::create_monster(5, 5, 7);
        match m.name.as_str() {
            "Orc" => assert_eq!(m.fighter.unwrap().xp, 35),
            "Troll" => {
                assert_eq!(m.fighter.unwrap().max_hp, 30);
                assert_eq!(m.fighter.unwrap().base_power, 8);
                assert_eq!(m.fighter.unwrap().xp, 100);
            }
            other => panic!("unexpected monster {}", other),
        }
    }
}

#[test]
fn item_factory_initializes_every_kind() {
    for _ in 0..40 {
        let it = dungeon_core::mapgen::create_item(4, 6);
        assert_eq!((it.x, it.y), (4, 6));
        assert!(!it.blocks && !it.alive);
        match it.item.expect("factory output is always pickable") {
            Item::Equipment => {
                let e = it.equipment.unwrap();
                assert_eq!(e.power_bonus, 3);
                assert!(!e.equipped);
            }
            _ => assert!(it.equipment.is_none()),
        }
    }
}

#[test]
fn targeting_checks_sight_and_range() {
    let fov = full_fov();
    let objects = vec![player_at(10, 10)];
    assert!(dungeon_core::inventory::target_valid(&objects, &fov, 12, 10, Some(8)));
    assert!(!dungeon_core::inventory::target_valid(&objects, &fov, 19, 10, Some(8)));
    assert!(dungeon_core::inventory::target_valid(&objects, &fov, 19, 10, None));
    // a dark tile is never a legal target
    let dark: Vec<Vec<bool>> = (0..MAP_WIDTH)
        .map(|_| (0..MAP_HEIGHT).map(|_| false).collect())
        .collect();
    assert!(!dungeon_core::inventory::target_valid(&objects, &dark, 12, 10, None));

    let mut all = vec![player_at(10, 10), orc_at(12, 10)];
    assert_eq!(dungeon_core::inventory::target_monster_at(&all, 12, 10), Some(1));
    assert_eq!(dungeon_core::inventory::target_monster_at(&all, 10, 10), None, "never the player");
    all[1].fighter = None;
    assert_eq!(dungeon_core::inventory::target_monster_at(&all, 12, 10), None);
}

#[test]
fn toggle_without_equipment_cancels() {
    let mut game = empty_game();
    let mut potion = Object::new(0, 0, '!', Color::rgb(127, 0, 255), "healing potion", false);
    potion.item = Some(Item::Heal);
    game.inventory.push(potion);
    let r = dungeon_core::inventory::toggle_equipment(0, &mut game);
    assert_eq!(r, UseResult::Cancelled);
    assert!(game.log.is_empty());
}


#[test]
fn player_death_transition_matches_monsters() {
    let mut game = empty_game();
    let mut player = player_at(5, 5);
    let awarded = player.take_damage(200, &mut game);
    assert_eq!(awarded, Some(0));
    assert!(!player.alive);
    assert!(!player.blocks);
    assert!(player.fighter.is_none());
    assert!(player.ai.is_none());
    assert_eq!(player.name, "Remains of Player");
    assert_eq!(player.glyph, '%');
    assert_eq!(game.log.len(), 1);
    assert_eq!(game.log[0].0, "You died!");
}

#[test]
fn save_with_trailing_bytes_is_rejected() {
    let game = empty_game();
    let objects = vec![player_at(1, 1)];
    let mut bytes = dungeon_core::codec::encode_world(&objects, &game);
    assert!(dungeon_core::codec::decode_world(&bytes).is_some());
    bytes.push(0);
    assert!(dungeon_core::codec::decode_world(&bytes).is_none(), "trailing input refused");
}
