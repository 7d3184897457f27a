use vstd::prelude::*;
use vstd::string::StringExecFns;
use crate::{PLAYER, INVENTORY_CAPACITY, POTION_HEAL_AMOUNT, LIGHTNING_RANGE, LIGHTNING_DAMAGE,
    CONFUSE_RANGE, CONFUSE_NUM_TURNS, FIREBALL_RADIUS, FIREBALL_DAMAGE};
use crate::tile::in_bounds;
use crate::game::{Game, log_add, log_pushed, msgs_pushed};
use crate::object::{
    Object, Color, Fighter, Equipment, Slot, Ai, Item, DeathCallback, col, same_but_pos,
    same_but_fighter, equip_post, dequip_post, is_equipped, take_damage_post, hp_after,
    clamp_i32,
};
use crate::geometry::dist_sq;
use crate::engine::{FovGrid, fv, fov_wf, visible_at, positions_in_bounds, ai_implies_fighter};
use crate::text::dec_rep;

verus! {

/// What using an item came to.
#[derive(Clone, Copy, Debug, PartialEq, Eq, Structural)]
pub enum UseResult {
    UsedUp,
    Cancelled,
    UsedAndKept,
}

/// Inventory slot `i` holds a worn item occupying equipment slot `s`.
pub open spec fn equipped_in_slot(inv: Seq<Object>, s: Slot, i: int) -> bool {
    0 <= i < inv.len() && (inv[i].equipment matches Some(e) && e.equipped && e.slot == s)
}

/// At most one worn item per equipment slot.
pub open spec fn slot_exclusive(inv: Seq<Object>) -> bool {
    forall|s: Slot, i: int, j: int|
        equipped_in_slot(inv, s, i) && equipped_in_slot(inv, s, j) ==> i == j
}

/// Finds the inventory index currently occupying an equipment slot.
pub fn get_equipped_in_slot(slot: Slot, inventory: &Vec<Object>) -> (r: Option<usize>)
    ensures
        (match r {
            Some(i) => equipped_in_slot(inventory@, slot, i as int) && (forall|j: int|
                0 <= j < i ==> !equipped_in_slot(inventory@, slot, j)),
            None => forall|j: int| 0 <= j < inventory@.len() ==> !equipped_in_slot(inventory@, slot, j),
        }),
{
    let mut i: usize = 0;
    while i < inventory.len()
        invariant
            i <= inventory@.len(),
            forall|j: int| 0 <= j < i ==> !equipped_in_slot(inventory@, slot, j),
        decreases inventory@.len() - i,
    {
        let it = &inventory[i];
        if let Some(e) = it.equipment {
            if e.equipped && e.slot == slot {
                return Some(i);
            }
        }
        i = i + 1;
    }
    None
}

/// Log line for a pickup.
pub open spec fn picked_up_msg(name: Seq<char>) -> Seq<char> {
    "You picked up "@ + name + "!"@
}

/// Log line for a refused pickup.
pub open spec fn inventory_full_msg(name: Seq<char>) -> Seq<char> {
    "Inventory is full, cannot pick up "@ + name
}

/// Full outcome of a pickup: refused with one line at capacity, else
/// the entity moves from map to inventory (the hole filled by the old
/// last entity) and a free-slotted piece of equipment is worn at once.
pub open spec fn pick_item_up_post(object_id: int, pre: Seq<Object>, post: Seq<Object>, g0: Game, g1: Game) -> bool {
    &&& g1.grid == g0.grid
    &&& g1.dungeon_level == g0.dungeon_level
    &&& ({
        let it = pre[object_id];
        if g0.inventory@.len() >= INVENTORY_CAPACITY {
            &&& post == pre
            &&& g1.inventory == g0.inventory
            &&& msgs_pushed(g0.log@, g1.log@, inventory_full_msg(it.name@), col(255, 0, 0))
        } else {
            &&& post == pre.update(object_id, pre.last()).drop_last()
            &&& ({
                let auto = (it.equipment matches Some(e) && !e.equipped) && (forall|j: int|
                    0 <= j < g0.inventory@.len() ==> !equipped_in_slot(
                        g0.inventory@,
                        it.equipment.unwrap().slot,
                        j,
                    ));
                if auto {
                    &&& g1.inventory@.len() == g0.inventory@.len() + 1
                    &&& g1.inventory@.take(g0.inventory@.len() as int) == g0.inventory@
                    &&& exists|lmid: Seq<(String, Color)>|
                        #[trigger] msgs_pushed(g0.log@, lmid, picked_up_msg(it.name@), col(0, 255, 0))
                            && equip_post(it, g1.inventory@.last(), lmid, g1.log@)
                } else {
                    &&& g1.inventory@ == g0.inventory@.push(it)
                    &&& msgs_pushed(g0.log@, g1.log@, picked_up_msg(it.name@), col(0, 255, 0))
                }
            })
        }
    })
}

/// Moves an entity from the map into the inventory, unless the
/// inventory is at capacity. The map slot is filled by the last entity
/// (order of the rest is preserved; the picked index gets the old last
/// entry). If the item is equipment and its slot is free, it is worn
/// at once.
pub fn pick_item_up(object_id: usize, objects: &mut Vec<Object>, game: &mut Game)
    requires
        object_id < old(objects)@.len(),
    ensures
        pick_item_up_post(object_id as int, old(objects)@, final(objects)@, *old(game), *final(game)),
{
    if game.inventory.len() >= INVENTORY_CAPACITY {
        let mut msg = "Inventory is full, cannot pick up ".to_owned();
        msg.append(objects[object_id].name.as_str());
        proof {
            assert(msg@ =~= inventory_full_msg(objects@[object_id as int].name@));
        }
        log_add(&mut game.log, msg, Color::rgb(255, 0, 0));
        proof {
            assert(game.log@.take(old(game).log@.len() as int) =~= old(game).log@);
        }
    } else {
        let item = objects.swap_remove(object_id);
        let mut msg = "You picked up ".to_owned();
        msg.append(item.name.as_str());
        msg.append("!");
        proof {
            assert(msg@ =~= picked_up_msg(old(objects)@[object_id as int].name@));
        }
        log_add(&mut game.log, msg, Color::rgb(0, 255, 0));
        proof {
            assert(game.log@.take(old(game).log@.len() as int) =~= old(game).log@);
        }
        let index = game.inventory.len();
        let slot: Option<Slot> = if let Some(e) = item.equipment {
            Some(e.slot)
        } else {
            None
        };
        game.inventory.push(item);
        proof {
            assert(game.inventory@.take(old(game).inventory@.len() as int)
                =~= old(game).inventory@);
        }
        if let Some(slot) = slot {
            let free = {
                let r = get_equipped_in_slot(slot, &game.inventory);
                r.is_none()
            };
            if free {
                let ghost lmid = game.log@;
                let ghost invmid = game.inventory@;
                {
                    let it = &mut game.inventory[index];
                    it.equip(&mut game.log);
                }
                proof {
                    let it0 = old(objects)@[object_id as int];
                    assert forall|j: int|
                        0 <= j < old(game).inventory@.len() implies !equipped_in_slot(
                        old(game).inventory@,
                        slot,
                        j,
                    ) by {
                        assert(invmid[j] == old(game).inventory@[j]);
                        assert(!equipped_in_slot(invmid, slot, j));
                    }
                    assert(!equipped_in_slot(invmid, slot, old(game).inventory@.len() as int));
                    assert(game.inventory@.take(old(game).inventory@.len() as int)
                        =~= old(game).inventory@);
                    assert(game.inventory@.last() == game.inventory@[index as int]);
                    assert(msgs_pushed(
                        old(game).log@,
                        lmid,
                        picked_up_msg(it0.name@),
                        col(0, 255, 0),
                    ));
                    assert(equip_post(it0, game.inventory@.last(), lmid, game.log@));
                }
            } else {
                proof {
                    let it0 = old(objects)@[object_id as int];
                    if it0.equipment is Some {
                        if !it0.equipment.unwrap().equipped {
                            let j = choose|j: int| equipped_in_slot(game.inventory@, slot, j);
                            if j < old(game).inventory@.len() {
                                assert(game.inventory@[j] == old(game).inventory@[j]);
                                assert(equipped_in_slot(old(game).inventory@, slot, j));
                            } else {
                                assert(game.inventory@[j] == it0);
                            }
                        }
                    }
                }
            }
        }
    }
}

/// Log line for a drop.
pub open spec fn dropped_msg(name: Seq<char>) -> Seq<char> {
    "You dropped a "@ + name + "."@
}

/// Full outcome of a drop: the item leaves the inventory, is taken
/// off if it was worn, and lands on the map at the player's feet.
pub open spec fn drop_item_post(inventory_id: int, pre: Seq<Object>, post: Seq<Object>, g0: Game, g1: Game) -> bool {
    &&& g1.grid == g0.grid
    &&& g1.dungeon_level == g0.dungeon_level
    &&& g1.inventory@ == g0.inventory@.remove(inventory_id)
    &&& post.len() == pre.len() + 1
    &&& post.take(pre.len() as int) == pre
    &&& ({
        let it = g0.inventory@[inventory_id];
        let dropped = post.last();
        &&& dropped.x == pre[0].x
        &&& dropped.y == pre[0].y
        &&& (if it.equipment is Some {
            exists|m1: Object, l1: Seq<(String, Color)>|
                #[trigger] dequip_post(it, m1, g0.log@, l1) && same_but_pos(dropped, m1)
                    && msgs_pushed(l1, g1.log@, dropped_msg(it.name@), col(255, 255, 0))
        } else {
            same_but_pos(dropped, it) && msgs_pushed(
                g0.log@,
                g1.log@,
                dropped_msg(it.name@),
                col(255, 255, 0),
            )
        })
    })
}

/// Moves an inventory item back onto the map at the player's feet,
/// taking it off first if it was worn.
pub fn drop_item(inventory_id: usize, objects: &mut Vec<Object>, game: &mut Game)
    requires
        inventory_id < old(game).inventory@.len(),
        old(objects)@.len() >= 1,
    ensures
        drop_item_post(inventory_id as int, old(objects)@, final(objects)@, *old(game), *final(game)),
{
    let mut item = game.inventory.remove(inventory_id);
    let ghost it0 = item;
    let had_equipment = item.equipment.is_some();
    if had_equipment {
        item.dequip(&mut game.log);
    }
    let ghost m1v = item;
    let ghost l1v = game.log@;
    let (px, py) = objects[PLAYER].pos();
    item.set_pos(px, py);
    let mut msg = "You dropped a ".to_owned();
    msg.append(item.name.as_str());
    msg.append(".");
    proof {
        assert(msg@ =~= dropped_msg(it0.name@));
    }
    log_add(&mut game.log, msg, Color::rgb(255, 255, 0));
    objects.push(item);
    proof {
        assert(objects@.take(old(objects)@.len() as int) =~= old(objects)@);
        assert(game.log@.take(l1v.len() as int) =~= l1v);
        if it0.equipment is Some {
            assert(dequip_post(it0, m1v, old(game).log@, l1v));
            assert(same_but_pos(objects@.last(), m1v));
            assert(msgs_pushed(l1v, game.log@, dropped_msg(it0.name@), col(255, 255, 0)));
        } else {
            assert(m1v == it0);
        }
    }
}

/// Slot exclusivity survives the equip/unequip toggle: equipping an
/// item into a slot already occupied first takes the old occupant
/// off, so the two are never worn together. (Worn entries must be
/// proper items; a worn non-item cannot be taken off.)
pub proof fn lemma_toggle_keeps_exclusivity(g0: Game, g1: Game, id: int, r: UseResult)
    requires
        0 <= id < g0.inventory@.len(),
        slot_exclusive(g0.inventory@),
        forall|k: int|
            0 <= k < g0.inventory@.len() && is_equipped(#[trigger] g0.inventory@[k])
                ==> g0.inventory@[k].item is Some,
        toggle_post(g0, g1, id, r),
    ensures
        slot_exclusive(g1.inventory@),
{
    let pre = g0.inventory@;
    let post = g1.inventory@;
    match pre[id].equipment {
        None => {
        },
        Some(eq) => {
            if eq.equipped {
                assert forall|s: Slot, k: int|
                    equipped_in_slot(post, s, k) implies equipped_in_slot(pre, s, k) by {
                    if k != id {
                        assert(post[k] == pre[k]);
                    }
                }
            } else {
                assert forall|s: Slot, k: int|
                    equipped_in_slot(post, s, k) implies ((s == eq.slot && k == id)
                        || equipped_in_slot(pre, s, k)) by {
                    if exists|t: int| equipped_in_slot(pre, eq.slot, t) {
                        let t = choose|t: int|
                            {
                                &&& #[trigger] equipped_in_slot(pre, eq.slot, t)
                                &&& (forall|j: int| 0 <= j < t ==> !equipped_in_slot(pre, eq.slot, j))
                                &&& t != id
                                &&& (forall|j: int|
                                    0 <= j < pre.len() && j != id && j != t ==> post[j] == pre[j])
                                &&& exists|lmid: Seq<(String, Color)>|
                                    #[trigger] dequip_post(pre[t], post[t], g0.log@, lmid)
                                        && equip_post(pre[id], post[id], lmid, g1.log@)
                            };
                        if k == t {
                            assert(pre[t].item is Some);
                            assert(!is_equipped(post[t]));
                        } else if k != id {
                            assert(post[k] == pre[k]);
                        }
                    } else {
                        if k != id {
                            assert(post[k] == pre[k]);
                        }
                    }
                }
                assert forall|s: Slot, i: int, j: int|
                    equipped_in_slot(post, s, i) && equipped_in_slot(post, s, j) implies i == j by {
                    if s == eq.slot {
                        if exists|t: int| equipped_in_slot(pre, eq.slot, t) {
                            let t = choose|t: int|
                                {
                                    &&& #[trigger] equipped_in_slot(pre, eq.slot, t)
                                    &&& (forall|j2: int|
                                        0 <= j2 < t ==> !equipped_in_slot(pre, eq.slot, j2))
                                    &&& t != id
                                    &&& (forall|j2: int|
                                        0 <= j2 < pre.len() && j2 != id && j2 != t ==> post[j2]
                                            == pre[j2])
                                    &&& exists|lmid: Seq<(String, Color)>|
                                        #[trigger] dequip_post(pre[t], post[t], g0.log@, lmid)
                                            && equip_post(pre[id], post[id], lmid, g1.log@)
                                };
                            if i != id && equipped_in_slot(pre, s, i) {
                                assert(i == t);
                                assert(pre[t].item is Some);
                                assert(!is_equipped(post[t]));
                            }
                            if j != id && equipped_in_slot(pre, s, j) {
                                assert(j == t);
                                assert(pre[t].item is Some);
                                assert(!is_equipped(post[t]));
                            }
                        }
                    }
                }
            }
        },
    }
}

/// Full outcome of the equip/unequip toggle: an unworn piece is put
/// on after whatever occupied its slot is taken off; a worn piece is
/// taken off; anything without an equipment component cancels.
pub open spec fn toggle_post(g0: Game, g1: Game, id: int, r: UseResult) -> bool {
    let it = g0.inventory@[id];
    &&& g1.grid == g0.grid
    &&& g1.dungeon_level == g0.dungeon_level
    &&& (match it.equipment {
        None => r == UseResult::Cancelled && g1.inventory == g0.inventory && g1.log == g0.log,
        Some(eq) => {
            &&& r == UseResult::UsedAndKept
            &&& g1.inventory@.len() == g0.inventory@.len()
            &&& (if eq.equipped {
                &&& forall|j: int| 0 <= j < g0.inventory@.len() && j != id ==> g1.inventory@[j] == g0.inventory@[j]
                &&& dequip_post(it, g1.inventory@[id], g0.log@, g1.log@)
            } else {
                if exists|t: int| equipped_in_slot(g0.inventory@, eq.slot, t) {
                    exists|t: int|
                        {
                            &&& #[trigger] equipped_in_slot(g0.inventory@, eq.slot, t)
                            &&& (forall|j: int| 0 <= j < t ==> !equipped_in_slot(g0.inventory@, eq.slot, j))
                            &&& t != id
                            &&& (forall|j: int|
                                0 <= j < g0.inventory@.len() && j != id && j != t ==> g1.inventory@[j]
                                    == g0.inventory@[j])
                            &&& exists|lmid: Seq<(String, Color)>|
                                #[trigger] dequip_post(g0.inventory@[t], g1.inventory@[t], g0.log@, lmid)
                                    && equip_post(it, g1.inventory@[id], lmid, g1.log@)
                        }
                } else {
                    &&& forall|j: int| 0 <= j < g0.inventory@.len() && j != id ==> g1.inventory@[j] == g0.inventory@[j]
                    &&& equip_post(it, g1.inventory@[id], g0.log@, g1.log@)
                }
            })
        },
    })
}

/// Toggles an inventory item's worn state, enforcing slot exclusivity
/// at equip time: whatever occupies the slot is taken off first.
pub fn toggle_equipment(inventory_id: usize, game: &mut Game) -> (r: UseResult)
    requires
        inventory_id < old(game).inventory@.len(),
    ensures
        toggle_post(*old(game), *final(game), inventory_id as int, r),
{
    let equipment = match &game.inventory[inventory_id].equipment {
        Some(equipment) => *equipment,
        None => {
            return UseResult::Cancelled;
        },
    };
    if equipment.equipped {
        let it = &mut game.inventory[inventory_id];
        it.dequip(&mut game.log);
    } else {
        let old_equipment = get_equipped_in_slot(equipment.slot, &game.inventory);
        if let Some(old_id) = old_equipment {
            proof {
                assert(old_id != inventory_id);
            }
            {
                let it = &mut game.inventory[old_id];
                it.dequip(&mut game.log);
            }
            let ghost lmid = game.log@;
            let ghost invmid = game.inventory@;
            {
                let it = &mut game.inventory[inventory_id];
                it.equip(&mut game.log);
            }
            proof {
                assert(invmid[inventory_id as int] == old(game).inventory@[inventory_id as int]);
                assert(dequip_post(
                    old(game).inventory@[old_id as int],
                    game.inventory@[old_id as int],
                    old(game).log@,
                    lmid,
                ));
                assert(equip_post(
                    old(game).inventory@[inventory_id as int],
                    game.inventory@[inventory_id as int],
                    lmid,
                    game.log@,
                ));
            }
        } else {
            let it = &mut game.inventory[inventory_id];
            it.equip(&mut game.log);
        }
    }
    UseResult::UsedAndKept
}

/// Log lines for the healing potion.
pub open spec fn full_health_msg() -> Seq<char> {
    "You are already at full health."@
}

pub open spec fn heal_msg() -> Seq<char> {
    "Your wounds start to feel better!"@
}

/// Full outcome of drinking a healing potion.
pub open spec fn cast_heal_post(pre: Seq<Object>, post: Seq<Object>, g0: Game, g1: Game, r: UseResult) -> bool {
    &&& g1.grid == g0.grid
    &&& g1.inventory == g0.inventory
    &&& g1.dungeon_level == g0.dungeon_level
    &&& (match pre[PLAYER as int].fighter {
        Some(f) => if f.hp == f.max_hp {
            &&& r == UseResult::Cancelled
            &&& post == pre
            &&& log_pushed(g0, g1, full_health_msg(), col(255, 0, 0))
        } else {
            &&& r == UseResult::UsedUp
            &&& post.len() == pre.len()
            &&& (forall|j: int| 1 <= j < pre.len() ==> post[j] == pre[j])
            &&& (post[PLAYER as int].fighter matches Some(g) && g == (Fighter {
                hp: (if f.hp + POTION_HEAL_AMOUNT > f.max_hp {
                    f.max_hp
                } else {
                    (f.hp + POTION_HEAL_AMOUNT) as i32
                }),
                ..f
            }))
            &&& same_but_fighter(post[PLAYER as int], pre[PLAYER as int])
            &&& log_pushed(g0, g1, heal_msg(), col(184, 114, 255))
        },
        None => r == UseResult::Cancelled && post == pre && g1.log == g0.log,
    })
}

/// Drinks a healing potion: restores a fixed amount, clamped at
/// maximum; cancels at full health.
pub fn cast_heal(objects: &mut Vec<Object>, game: &mut Game) -> (r: UseResult)
    requires
        old(objects)@.len() >= 1,
    ensures
        cast_heal_post(old(objects)@, final(objects)@, *old(game), *final(game), r),
{
    if let Some(fighter) = objects[PLAYER].fighter {
        if fighter.hp == fighter.max_hp {
            log_add(
                &mut game.log,
                "You are already at full health.".to_owned(),
                Color::rgb(255, 0, 0),
            );
            proof {
                assert(game.log@.take(old(game).log@.len() as int) =~= old(game).log@);
            }
            return UseResult::Cancelled;
        }
        log_add(
            &mut game.log,
            "Your wounds start to feel better!".to_owned(),
            Color::rgb(184, 114, 255),
        );
        proof {
            assert(game.log@.take(old(game).log@.len() as int) =~= old(game).log@);
        }
        {
            let pl = &mut objects[PLAYER];
            pl.heal(POTION_HEAL_AMOUNT);
        }
        return UseResult::UsedUp;
    }
    UseResult::Cancelled
}

/// Squared distance from entity `i` to the player.
pub open spec fn d2_to_player(objects: Seq<Object>, i: int) -> int {
    dist_sq(objects[PLAYER as int].x as int, objects[PLAYER as int].y as int, objects[i].x as int, objects[i].y as int)
}

/// A lightning-bolt candidate: a visible AI-bearing combatant other
/// than the player.
pub open spec fn bolt_candidate(objects: Seq<Object>, f: Seq<Seq<bool>>, i: int) -> bool {
    &&& 0 <= i < objects.len()
    &&& i != PLAYER
    &&& objects[i].fighter is Some
    &&& objects[i].ai is Some
    &&& visible_at(f, objects[i].x as int, objects[i].y as int)
}

/// Finds the closest candidate whose Euclidean distance to the player
/// is below `max_range + 1`; the earliest index wins ties.
pub fn closest_monster(max_range: i32, objects: &Vec<Object>, fov: &FovGrid) -> (r: Option<usize>)
    requires
        objects@.len() >= 1,
        positions_in_bounds(objects@),
        fov_wf(fv(*fov)),
        0 <= max_range <= 0x7FFF,
    ensures
        ({
            let lim = (max_range + 1) * (max_range + 1);
            match r {
                Some(i) => {
                    &&& bolt_candidate(objects@, fv(*fov), i as int)
                    &&& d2_to_player(objects@, i as int) < lim
                    &&& (forall|j: int|
                        bolt_candidate(objects@, fv(*fov), j) && j < i ==> d2_to_player(objects@, j)
                            > d2_to_player(objects@, i as int))
                    &&& (forall|j: int|
                        bolt_candidate(objects@, fv(*fov), j) && j > i ==> d2_to_player(objects@, j)
                            >= d2_to_player(objects@, i as int))
                },
                None => forall|j: int|
                    bolt_candidate(objects@, fv(*fov), j) ==> d2_to_player(objects@, j) >= lim,
            }
        }),
{
    let mut closest_enemy: Option<usize> = None;
    let r1: i64 = max_range as i64 + 1;
    proof {
        assert(r1 * r1 <= 0x8000 * 0x8000 && r1 * r1 >= 0) by (nonlinear_arith)
            requires 0 < r1 <= 0x8000;
    }
    let lim: i64 = r1 * r1;
    let mut closest_dist: i64 = lim;
    let mut id: usize = 0;
    while id < objects.len()
        invariant
            id <= objects@.len(),
            objects@.len() >= 1,
            positions_in_bounds(objects@),
            fov_wf(fv(*fov)),
            0 <= max_range <= 0x7FFF,
            lim == (max_range + 1) * (max_range + 1),
            closest_dist <= lim,
            (match closest_enemy {
                Some(i) => {
                    &&& i < id
                    &&& bolt_candidate(objects@, fv(*fov), i as int)
                    &&& closest_dist == d2_to_player(objects@, i as int)
                    &&& closest_dist < lim
                    &&& (forall|j: int|
                        bolt_candidate(objects@, fv(*fov), j) && j < i ==> d2_to_player(objects@, j)
                            > closest_dist)
                    &&& (forall|j: int|
                        bolt_candidate(objects@, fv(*fov), j) && i < j < id ==> d2_to_player(
                            objects@,
                            j,
                        ) >= closest_dist)
                },
                None => closest_dist == lim && (forall|j: int|
                    bolt_candidate(objects@, fv(*fov), j) && j < id ==> d2_to_player(objects@, j)
                        >= lim),
            }),
        decreases objects@.len() - id,
    {
        if id != PLAYER {
            let o = &objects[id];
            let is_candidate = o.fighter.is_some() && o.ai.is_some() && crate::engine::is_visible(
                fov,
                o.x,
                o.y,
            );
            if is_candidate {
                let dist = crate::geometry::distance_sq(objects[PLAYER].x, objects[PLAYER].y, o.x, o.y);
                if dist < closest_dist {
                    closest_enemy = Some(id);
                    closest_dist = dist;
                }
            }
        }
        id = id + 1;
    }
    closest_enemy
}

/// Log lines for the lightning bolt.
pub open spec fn bolt_msg(name: Seq<char>) -> Seq<char> {
    "A lightning bolt strikes the "@ + name + " with a loud thunder! It deals "@ + dec_rep(
        LIGHTNING_DAMAGE as int,
    ) + " damage."@
}

pub open spec fn no_bolt_target_msg() -> Seq<char> {
    "No enemy is close enough to strike."@
}

/// Full outcome of a lightning bolt.
pub open spec fn cast_lightning_post(pre: Seq<Object>, post: Seq<Object>, f: Seq<Seq<bool>>, g0: Game, g1: Game, r: UseResult) -> bool {
    let lim = (LIGHTNING_RANGE + 1) * (LIGHTNING_RANGE + 1);
    &&& g1.grid == g0.grid
    &&& g1.inventory == g0.inventory
    &&& g1.dungeon_level == g0.dungeon_level
    &&& (if exists|j: int| bolt_candidate(pre, f, j) && #[trigger] d2_to_player(pre, j) < lim {
        exists|i: int|
            {
                &&& #[trigger] bolt_candidate(pre, f, i)
                &&& d2_to_player(pre, i) < lim
                &&& (forall|j: int|
                    bolt_candidate(pre, f, j) && j < i ==> d2_to_player(pre, j) > d2_to_player(pre, i))
                &&& (forall|j: int|
                    bolt_candidate(pre, f, j) && j > i ==> d2_to_player(pre, j) >= d2_to_player(pre, i))
                &&& r == UseResult::UsedUp
                &&& post.len() == pre.len()
                &&& (forall|j: int| 0 <= j < pre.len() && j != i && j != PLAYER ==> post[j] == pre[j])
                &&& crate::object::damage_obj_post(pre[i], post[i], LIGHTNING_DAMAGE)
                &&& ({
                    let killed = pre[i].fighter is Some && hp_after(
                        pre[i].fighter.unwrap(),
                        LIGHTNING_DAMAGE,
                    ) <= 0;
                    if killed {
                        &&& (post[PLAYER as int].fighter matches Some(g) && g == (Fighter {
                            xp: clamp_i32(
                                pre[PLAYER as int].fighter.unwrap().xp
                                    + pre[i].fighter.unwrap().xp,
                            ) as i32,
                            ..pre[PLAYER as int].fighter.unwrap()
                        }))
                        &&& same_but_fighter(post[PLAYER as int], pre[PLAYER as int])
                    } else {
                        post[PLAYER as int] == pre[PLAYER as int]
                    }
                })
                &&& g0.log@.len() + 1 <= g1.log@.len() <= g0.log@.len() + 2
                &&& g0.log@.is_prefix_of(g1.log@)
                &&& g1.log@[g0.log@.len() as int].0@ == bolt_msg(pre[i].name@)
                &&& g1.log@[g0.log@.len() as int].1 == col(114, 114, 255)
            }
    } else {
        &&& r == UseResult::Cancelled
        &&& post == pre
        &&& log_pushed(g0, g1, no_bolt_target_msg(), col(255, 0, 0))
    })
}

/// Strikes the closest visible AI-bearing enemy in range with a fixed
/// bolt of damage that bypasses defense, crediting a kill's experience
/// to the player.
pub fn cast_lightning(objects: &mut Vec<Object>, game: &mut Game, fov: &FovGrid) -> (r: UseResult)
    requires
        old(objects)@.len() >= 1,
        positions_in_bounds(old(objects)@),
        fov_wf(fv(*fov)),
        old(objects)@[0].fighter is Some,
    ensures
        cast_lightning_post(old(objects)@, final(objects)@, fv(*fov), *old(game), *final(game), r),
{
    let monster_id = closest_monster(LIGHTNING_RANGE, objects, fov);
    if let Some(monster_id) = monster_id {
        let mut msg = "A lightning bolt strikes the ".to_owned();
        msg.append(objects[monster_id].name.as_str());
        msg.append(" with a loud thunder! It deals ");
        let ds = crate::text::fmt_i32(LIGHTNING_DAMAGE);
        msg.append(ds.as_str());
        msg.append(" damage.");
        proof {
            assert(msg@ =~= bolt_msg(old(objects)@[monster_id as int].name@));
        }
        log_add(&mut game.log, msg, Color::rgb(114, 114, 255));
        proof {
            assert(game.log@.take(old(game).log@.len() as int) =~= old(game).log@);
        }
        let ghost gmid = *game;
        let xp_opt = {
            let m = &mut objects[monster_id];
            m.take_damage(LIGHTNING_DAMAGE, game)
        };
        if let Some(xp) = xp_opt {
            let pl = &mut objects[PLAYER];
            let f = pl.fighter.unwrap();
            let nx: i64 = f.xp as i64 + xp as i64;
            let new_xp: i32 = if nx > i32::MAX as i64 {
                i32::MAX
            } else if nx < i32::MIN as i64 {
                i32::MIN
            } else {
                nx as i32
            };
            pl.fighter = Some(Fighter { xp: new_xp, ..f });
        }
        proof {
            if game.log@.len() == gmid.log@.len() + 1 {
                assert forall|i2: int|
                    0 <= i2 < old(game).log@.len() implies game.log@[i2] == old(game).log@[i2] by {
                    assert(gmid.log@[i2] == game.log@.take(gmid.log@.len() as int)[i2]);
                    assert(old(game).log@[i2] == gmid.log@.take(old(game).log@.len() as int)[i2]);
                }
                assert(game.log@.take(old(game).log@.len() as int) =~= old(game).log@);
            }
            assert(game.log@[old(game).log@.len() as int]
                == gmid.log@[old(game).log@.len() as int]);
        }
        UseResult::UsedUp
    } else {
        log_add(&mut game.log, "No enemy is close enough to strike.".to_owned(), Color::rgb(255, 0, 0));
        proof {
            assert(game.log@.take(old(game).log@.len() as int) =~= old(game).log@);
        }
        UseResult::Cancelled
    }
}

/// A confuse or fireball target entity at a tile: a combatant other
/// than the player standing exactly there.
pub open spec fn monster_at(objects: Seq<Object>, x: int, y: int, i: int) -> bool {
    &&& 0 <= i < objects.len()
    &&& i != PLAYER
    &&& objects[i].fighter is Some
    &&& objects[i].x == x
    &&& objects[i].y == y
}

/// Finds the combatant (other than the player) standing on a tile,
/// earliest index first.
pub fn target_monster_at(objects: &Vec<Object>, x: i32, y: i32) -> (r: Option<usize>)
    ensures
        (match r {
            Some(i) => monster_at(objects@, x as int, y as int, i as int) && (forall|j: int|
                0 <= j < i ==> !monster_at(objects@, x as int, y as int, j)),
            None => forall|j: int|
                0 <= j < objects@.len() ==> !monster_at(objects@, x as int, y as int, j),
        }),
{
    let mut i: usize = 0;
    while i < objects.len()
        invariant
            i <= objects@.len(),
            forall|j: int| 0 <= j < i ==> !monster_at(objects@, x as int, y as int, j),
        decreases objects@.len() - i,
    {
        if i != PLAYER {
            let o = &objects[i];
            if o.fighter.is_some() && o.x == x && o.y == y {
                return Some(i);
            }
        }
        i = i + 1;
    }
    None
}

/// Whether a tile is a legal interactive target: visible, and within
/// the given Euclidean range of the player when one is given.
pub fn target_valid(objects: &Vec<Object>, fov: &FovGrid, x: i32, y: i32, max_range: Option<i32>) -> (b: bool)
    requires
        objects@.len() >= 1,
        positions_in_bounds(objects@),
        fov_wf(fv(*fov)),
        -0x10000 <= x <= 0x10000,
        -0x10000 <= y <= 0x10000,
        (max_range matches Some(mr) ==> 0 <= mr <= 0x7FFF),
    ensures
        b == (visible_at(fv(*fov), x as int, y as int) && (match max_range {
            Some(mr) => dist_sq(
                objects@[PLAYER as int].x as int,
                objects@[PLAYER as int].y as int,
                x as int,
                y as int,
            ) <= mr * mr,
            None => true,
        })),
{
    let in_fov = crate::engine::is_visible(fov, x, y);
    if !in_fov {
        return false;
    }
    match max_range {
        Some(mr) => {
            let d = crate::geometry::distance_sq(objects[PLAYER].x, objects[PLAYER].y, x, y);
            let m64: i64 = mr as i64;
            proof {
                assert(m64 * m64 <= 0x7FFF * 0x7FFF && m64 * m64 >= 0) by (nonlinear_arith)
                    requires 0 <= m64 <= 0x7FFF;
            }
            d <= m64 * m64
        },
        None => true,
    }
}

/// Log lines for the confusion scroll.
pub open spec fn confuse_prompt_msg() -> Seq<char> {
    "Left click to target an enemy."@
}

pub open spec fn confused_msg(name: Seq<char>) -> Seq<char> {
    "The "@ + name + " is hit with a sudden jolt of confusion. It starts wandering aimlessly."@
}

pub open spec fn no_confuse_target_msg() -> Seq<char> {
    "No enemy is close enough to confuse."@
}

/// Full outcome of a confusion scroll aimed at a tile.
pub open spec fn cast_confuse_post(pre: Seq<Object>, post: Seq<Object>, target: Option<(i32, i32)>, g0: Game, g1: Game, r: UseResult) -> bool {
    &&& g1.grid == g0.grid
    &&& g1.inventory == g0.inventory
    &&& g1.dungeon_level == g0.dungeon_level
    &&& ({
        let hit = target matches Some(t) && exists|j: int|
            monster_at(pre, t.0 as int, t.1 as int, j);
        if hit {
            exists|i: int|
                {
                    &&& #[trigger] monster_at(pre, target.unwrap().0 as int, target.unwrap().1 as int, i)
                    &&& (forall|j: int|
                        0 <= j < i ==> !monster_at(
                            pre,
                            target.unwrap().0 as int,
                            target.unwrap().1 as int,
                            j,
                        ))
                    &&& r == UseResult::UsedUp
                    &&& post.len() == pre.len()
                    &&& (forall|j: int| 0 <= j < pre.len() && j != i ==> post[j] == pre[j])
                    &&& (post[i].ai matches Some(Ai::Confused { previous_ai: p, num_turns: n })
                        && n == CONFUSE_NUM_TURNS && *p == (match pre[i].ai {
                        Some(a) => a,
                        None => Ai::Basic,
                    }))
                    &&& crate::engine::same_but_pos_and_ai(post[i], pre[i])
                    &&& post[i].x == pre[i].x && post[i].y == pre[i].y
                    &&& crate::game::log_pushed2(
                        g0,
                        g1,
                        confuse_prompt_msg(),
                        col(114, 255, 255),
                        confused_msg(pre[i].name@),
                        col(114, 255, 114),
                    )
                }
        } else {
            &&& r == UseResult::Cancelled
            &&& post == pre
            &&& crate::game::log_pushed2(
                g0,
                g1,
                confuse_prompt_msg(),
                col(114, 255, 255),
                no_confuse_target_msg(),
                col(255, 0, 0),
            )
        }
    })
}

/// Confuses the combatant on the targeted tile: its AI is replaced by
/// a confusion that remembers the previous state and a fixed number of
/// remaining turns.
pub fn cast_confuse(objects: &mut Vec<Object>, game: &mut Game, target: Option<(i32, i32)>) -> (r: UseResult)
    ensures
        cast_confuse_post(old(objects)@, final(objects)@, target, *old(game), *final(game), r),
{
    log_add(&mut game.log, "Left click to target an enemy.".to_owned(), Color::rgb(114, 255, 255));
    proof {
        assert(game.log@.take(old(game).log@.len() as int) =~= old(game).log@);
    }
    let ghost gmid = *game;
    let monster_id: Option<usize> = match target {
        Some((x, y)) => target_monster_at(objects, x, y),
        None => None,
    };
    if let Some(monster_id) = monster_id {
        let old_ai = {
            let m = &mut objects[monster_id];
            m.ai.take()
        };
        let prev: Ai = match old_ai {
            Some(a) => a,
            None => Ai::Basic,
        };
        {
            let m = &mut objects[monster_id];
            m.ai = Some(Ai::Confused { previous_ai: Box::new(prev), num_turns: CONFUSE_NUM_TURNS });
        }
        let mut msg = "The ".to_owned();
        msg.append(objects[monster_id].name.as_str());
        msg.append(" is hit with a sudden jolt of confusion. It starts wandering aimlessly.");
        proof {
            assert(msg@ =~= confused_msg(old(objects)@[monster_id as int].name@));
        }
        log_add(&mut game.log, msg, Color::rgb(114, 255, 114));
        proof {
            assert(game.log@.take(old(game).log@.len() as int) =~= gmid.log@.take(
                old(game).log@.len() as int,
            ));
            assert(game.log@[game.log@.len() - 2] == gmid.log@[gmid.log@.len() - 1]);
        }
        UseResult::UsedUp
    } else {
        log_add(&mut game.log, "No enemy is close enough to confuse.".to_owned(), Color::rgb(255, 0, 0));
        proof {
            assert(game.log@.take(old(game).log@.len() as int) =~= gmid.log@.take(
                old(game).log@.len() as int,
            ));
            assert(game.log@[game.log@.len() - 2] == gmid.log@[gmid.log@.len() - 1]);
            if target is Some {
                let t = target.unwrap();
                assert forall|j: int|
                    0 <= j < old(objects)@.len() implies !monster_at(
                    old(objects)@,
                    t.0 as int,
                    t.1 as int,
                    j,
                ) by {}
            }
        }
        UseResult::Cancelled
    }
}

/// Log lines for the fireball scroll.
pub open spec fn fireball_prompt_msg() -> Seq<char> {
    "Left click a target tile for the fireball, or right click to cancel."@
}

pub open spec fn fireball_explodes_msg() -> Seq<char> {
    "The fireball explodes, burning everything within "@ + dec_rep(FIREBALL_RADIUS as int)
        + " tiles!"@
}

pub open spec fn blasted_msg(name: Seq<char>) -> Seq<char> {
    "The "@ + name + " gets blasted for "@ + dec_rep(FIREBALL_DAMAGE as int) + " hp."@
}

/// The entity stands within the blast radius of the target tile and
/// has combat stats, so the fireball hits it.
pub open spec fn in_blast(pre: Seq<Object>, x: int, y: int, i: int) -> bool {
    &&& 0 <= i < pre.len()
    &&& dist_sq(pre[i].x as int, pre[i].y as int, x, y) <= FIREBALL_RADIUS * FIREBALL_RADIUS
    &&& pre[i].fighter is Some
}

/// The blast kills entity `i` outright.
pub open spec fn blast_kills(pre: Seq<Object>, x: int, y: int, i: int) -> bool {
    in_blast(pre, x, y, i) && hp_after(pre[i].fighter.unwrap(), FIREBALL_DAMAGE) <= 0
}

/// Experience the player collects from the blast: the sum, clamped at
/// each step, of the experience of every non-player victim killed,
/// taken in index order over the first `n` entities.
pub open spec fn blast_xp(pre: Seq<Object>, x: int, y: int, n: int) -> int
    decreases n,
{
    if n <= 0 {
        0
    } else if n - 1 != PLAYER && blast_kills(pre, x, y, n - 1) {
        clamp_i32(blast_xp(pre, x, y, n - 1) + pre[n - 1].fighter.unwrap().xp)
    } else {
        blast_xp(pre, x, y, n - 1)
    }
}

/// Full outcome of a fireball aimed at a tile: everything with combat
/// stats within the radius takes the fixed damage (the player
/// included), and experience from non-player kills accrues to the
/// player.
pub open spec fn cast_fireball_post(pre: Seq<Object>, post: Seq<Object>, target: Option<(i32, i32)>, g0: Game, g1: Game, r: UseResult) -> bool {
    &&& g1.grid == g0.grid
    &&& g1.inventory == g0.inventory
    &&& g1.dungeon_level == g0.dungeon_level
    &&& g0.log@.is_prefix_of(g1.log@)
    &&& (match target {
        None => {
            &&& r == UseResult::Cancelled
            &&& post == pre
            &&& log_pushed(g0, g1, fireball_prompt_msg(), col(114, 255, 255))
        },
        Some(t) => {
            let x = t.0 as int;
            let y = t.1 as int;
            &&& r == UseResult::UsedUp
            &&& post.len() == pre.len()
            &&& (forall|i: int|
                0 < i < pre.len() ==> (if in_blast(pre, x, y, i) {
                    crate::object::damage_obj_post(pre[i], #[trigger] post[i], FIREBALL_DAMAGE)
                } else {
                    post[i] == pre[i]
                }))
            &&& exists|p1: Object|
                {
                    &&& (if in_blast(pre, x, y, PLAYER as int) {
                        crate::object::damage_obj_post(pre[PLAYER as int], p1, FIREBALL_DAMAGE)
                    } else {
                        p1 == pre[PLAYER as int]
                    })
                    &&& (match #[trigger] p1.fighter {
                        Some(pf) => (post[PLAYER as int].fighter matches Some(g) && g == (Fighter {
                            xp: clamp_i32(pf.xp + blast_xp(pre, x, y, pre.len() as int)) as i32,
                            ..pf
                        })) && same_but_fighter(post[PLAYER as int], p1),
                        None => post[PLAYER as int] == p1,
                    })
                }
        },
    })
}

/// Detonates a fireball on the targeted tile.
pub fn cast_fireball(objects: &mut Vec<Object>, game: &mut Game, target: Option<(i32, i32)>) -> (r: UseResult)
    requires
        old(objects)@.len() >= 1,
        positions_in_bounds(old(objects)@),
        (target matches Some(t) ==> -0x10000 <= t.0 <= 0x10000 && -0x10000 <= t.1 <= 0x10000),
        (old(objects)@[0].fighter matches Some(f) && f.on_death == DeathCallback::Player),
    ensures
        cast_fireball_post(old(objects)@, final(objects)@, target, *old(game), *final(game), r),
{
    log_add(
        &mut game.log,
        "Left click a target tile for the fireball, or right click to cancel.".to_owned(),
        Color::rgb(114, 255, 255),
    );
    proof {
        assert(game.log@.take(old(game).log@.len() as int) =~= old(game).log@);
    }
    let (x, y) = match target {
        Some(t) => t,
        None => {
            return UseResult::Cancelled;
        },
    };
    let mut msg = "The fireball explodes, burning everything within ".to_owned();
    let rs = crate::text::fmt_i32(FIREBALL_RADIUS);
    msg.append(rs.as_str());
    msg.append(" tiles!");
    log_add(&mut game.log, msg, Color::rgb(255, 127, 0));
    proof {
        assert forall|i2: int|
            0 <= i2 < old(game).log@.len() implies game.log@[i2] == old(game).log@[i2] by {}
        assert(game.log@.take(old(game).log@.len() as int) =~= old(game).log@);
    }

    let ghost pre = objects@;
    let mut xp_to_gain: i32 = 0;
    let mut id: usize = 0;
    let ghost gx = x as int;
    let ghost gy = y as int;
    while id < objects.len()
        invariant
            id <= objects@.len(),
            objects@.len() == pre.len(),
            pre.len() >= 1,
            positions_in_bounds(pre),
            -0x10000 <= x <= 0x10000,
            -0x10000 <= y <= 0x10000,
            gx == x as int,
            gy == y as int,
            (pre[0].fighter matches Some(f) && f.on_death == DeathCallback::Player),
            forall|j: int| id <= j < pre.len() ==> objects@[j] == pre[j],
            forall|j: int|
                0 <= j < id ==> (if in_blast(pre, gx, gy, j) {
                    crate::object::damage_obj_post(pre[j], #[trigger] objects@[j], FIREBALL_DAMAGE)
                } else {
                    objects@[j] == pre[j]
                }),
            xp_to_gain as int == blast_xp(pre, gx, gy, id as int),
            game.grid == old(game).grid,
            game.inventory == old(game).inventory,
            game.dungeon_level == old(game).dungeon_level,
            old(game).log@.is_prefix_of(game.log@),
        decreases objects@.len() - id,
    {
        let hit = {
            let o = &objects[id];
            let d = crate::geometry::distance_sq(o.x, o.y, x, y);
            let rad: i64 = FIREBALL_RADIUS as i64;
            d <= rad * rad && o.fighter.is_some()
        };
        if hit {
            let mut bmsg = "The ".to_owned();
            bmsg.append(objects[id].name.as_str());
            bmsg.append(" gets blasted for ");
            let ds = crate::text::fmt_i32(FIREBALL_DAMAGE);
            bmsg.append(ds.as_str());
            bmsg.append(" hp.");
            let ghost gpre = *game;
            log_add(&mut game.log, bmsg, Color::rgb(255, 127, 0));
            proof {
                assert forall|i2: int|
                    0 <= i2 < old(game).log@.len() implies game.log@[i2] == old(game).log@[i2] by {
                    assert(gpre.log@[i2] == game.log@.take(gpre.log@.len() as int)[i2]);
                    assert(old(game).log@[i2] == gpre.log@.take(old(game).log@.len() as int)[i2]);
                }
                assert(game.log@.take(old(game).log@.len() as int) =~= old(game).log@);
            }
            let ghost gpre2 = *game;
            let xp_opt = {
                let o = &mut objects[id];
                o.take_damage(FIREBALL_DAMAGE, game)
            };
            proof {
                crate::object::lemma_take_damage_obj(
                    pre[id as int],
                    objects@[id as int],
                    FIREBALL_DAMAGE,
                    xp_opt,
                    gpre2,
                    *game,
                );
                assert forall|i2: int|
                    0 <= i2 < old(game).log@.len() implies game.log@[i2] == old(game).log@[i2] by {
                    if game.log@.len() > gpre2.log@.len() {
                        assert(gpre2.log@[i2] == game.log@.take(gpre2.log@.len() as int)[i2]);
                        assert(old(game).log@[i2] == gpre2.log@.take(old(game).log@.len() as int)[i2]);
                    }
                }
                assert(game.log@.take(old(game).log@.len() as int) =~= old(game).log@);
            }
            if let Some(xp) = xp_opt {
                if id != PLAYER {
                    let nx: i64 = xp_to_gain as i64 + xp as i64;
                    xp_to_gain = if nx > i32::MAX as i64 {
                        i32::MAX
                    } else if nx < i32::MIN as i64 {
                        i32::MIN
                    } else {
                        nx as i32
                    };
                }
            }
            proof {
                assert(xp_to_gain as int == blast_xp(pre, gx, gy, id as int + 1));
            }
        } else {
            proof {
                assert(blast_xp(pre, gx, gy, id as int + 1) == blast_xp(pre, gx, gy, id as int));
            }
        }
        id = id + 1;
    }

    let ghost p1 = objects@[0];
    {
        let pl = &mut objects[PLAYER];
        if let Some(f) = pl.fighter {
            let nx: i64 = f.xp as i64 + xp_to_gain as i64;
            let new_xp: i32 = if nx > i32::MAX as i64 {
                i32::MAX
            } else if nx < i32::MIN as i64 {
                i32::MIN
            } else {
                nx as i32
            };
            pl.fighter = Some(Fighter { xp: new_xp, ..f });
        }
    }
    proof {
        assert(blast_xp(pre, gx, gy, pre.len() as int) == xp_to_gain as int);
    }
    UseResult::UsedUp
}

/// Log lines for `use_item` itself.
pub open spec fn cancelled_msg() -> Seq<char> {
    "Cancelled"@
}

pub open spec fn cannot_use_msg(name: Seq<char>) -> Seq<char> {
    "The "@ + name + " cannot be used."@
}

/// What `use_item` does after the effect resolves: a used-up item
/// leaves the inventory, a kept item stays, and a cancelled use only
/// logs one line.
pub open spec fn after_use(g1: Game, g2: Game, r: UseResult, id: int) -> bool {
    &&& g2.grid == g1.grid
    &&& g2.dungeon_level == g1.dungeon_level
    &&& (match r {
        UseResult::UsedUp => g2.inventory@ == g1.inventory@.remove(id) && g2.log == g1.log,
        UseResult::UsedAndKept => g2 == g1,
        UseResult::Cancelled => g2.inventory == g1.inventory && log_pushed(
            g1,
            g2,
            cancelled_msg(),
            col(255, 255, 255),
        ),
    })
}

/// Full outcome of using an inventory item: the effect of its kind,
/// then removal when consumed or one cancellation line.
pub open spec fn use_item_post(inventory_id: int, pre: Seq<Object>, post: Seq<Object>, f: Seq<Seq<bool>>, target: Option<(i32, i32)>, g0: Game, g1: Game) -> bool {
    let it = g0.inventory@[inventory_id];
    match it.item {
        None => {
            &&& post == pre
            &&& g1.grid == g0.grid
            &&& g1.inventory == g0.inventory
            &&& g1.dungeon_level == g0.dungeon_level
            &&& log_pushed(g0, g1, cannot_use_msg(it.name@), col(255, 255, 255))
        },
        Some(kind) => exists|gmid: Game, r0: UseResult|
            {
                &&& #[trigger] after_use(gmid, g1, r0, inventory_id)
                &&& (match kind {
                    Item::Heal => cast_heal_post(pre, post, g0, gmid, r0),
                    Item::Lightning => cast_lightning_post(pre, post, f, g0, gmid, r0),
                    Item::Confuse => cast_confuse_post(pre, post, target, g0, gmid, r0),
                    Item::Fireball => cast_fireball_post(pre, post, target, g0, gmid, r0),
                    Item::Equipment => toggle_post(g0, gmid, inventory_id, r0) && post == pre,
                })
            },
    }
}

/// Uses the inventory item at `inventory_id`: dispatches on its kind,
/// removes it when consumed, and logs a cancellation.
pub fn use_item(
    inventory_id: usize,
    objects: &mut Vec<Object>,
    game: &mut Game,
    fov: &FovGrid,
    target: Option<(i32, i32)>,
)
    requires
        inventory_id < old(game).inventory@.len(),
        old(objects)@.len() >= 1,
        positions_in_bounds(old(objects)@),
        fov_wf(fv(*fov)),
        (target matches Some(t) ==> -0x10000 <= t.0 <= 0x10000 && -0x10000 <= t.1 <= 0x10000),
        old(objects)@[0].fighter is Some,
        (old(game).inventory@[inventory_id as int].item == Some(Item::Fireball)
            ==> old(objects)@[0].fighter.unwrap().on_death == DeathCallback::Player),
    ensures
        use_item_post(
            inventory_id as int,
            old(objects)@,
            final(objects)@,
            fv(*fov),
            target,
            *old(game),
            *final(game),
        ),
{
    let kind: Option<Item> = game.inventory[inventory_id].item;
    if let Some(kind) = kind {
        let result = match kind {
            Item::Heal => cast_heal(objects, game),
            Item::Lightning => cast_lightning(objects, game, fov),
            Item::Confuse => cast_confuse(objects, game, target),
            Item::Fireball => cast_fireball(objects, game, target),
            Item::Equipment => toggle_equipment(inventory_id, game),
        };
        let ghost gmid = *game;
        match result {
            UseResult::UsedUp => {
                let _used = game.inventory.remove(inventory_id);
            },
            UseResult::UsedAndKept => {},
            UseResult::Cancelled => {
                log_add(&mut game.log, "Cancelled".to_owned(), Color::rgb(255, 255, 255));
                proof {
                    assert(game.log@.take(gmid.log@.len() as int) =~= gmid.log@);
                }
            },
        }
        proof {
            assert(after_use(gmid, *game, result, inventory_id as int));
        }
    } else {
        let mut msg = "The ".to_owned();
        msg.append(game.inventory[inventory_id].name.as_str());
        msg.append(" cannot be used.");
        proof {
            assert(msg@ =~= cannot_use_msg(old(game).inventory@[inventory_id as int].name@));
        }
        log_add(&mut game.log, msg, Color::rgb(255, 255, 255));
        proof {
            assert(game.log@.take(old(game).log@.len() as int) =~= old(game).log@);
        }
    }
}

} // verus!
