use vstd::prelude::*;
use vstd::string::StringExecFns;
use crate::game::{Game, Messages, log_add, log_pushed, log_pushed2, msgs_pushed};
use crate::geometry::{dist_sq, distance_sq};
use crate::text::{dec_rep, fmt_i32};

verus! {

/// An RGB color attached to glyphs and log lines.
#[derive(Clone, Copy, Debug, PartialEq, Eq, Structural)]
pub struct Color {
    pub r: u8,
    pub g: u8,
    pub b: u8,
}

/// Shorthand for building a color in specifications.
pub open spec fn col(r: u8, g: u8, b: u8) -> Color {
    Color { r, g, b }
}

impl Color {
    pub fn rgb(r: u8, g: u8, b: u8) -> (c: Color)
        ensures
            c == col(r, g, b),
    {
        Color { r, g, b }
    }
}

/// What happens when a combatant dies: the player leaves a controllable
/// corpse, a monster is converted into remains.
#[derive(Clone, Copy, Debug, PartialEq, Eq, Structural)]
pub enum DeathCallback {
    Player,
    Monster,
}

/// An equipment attachment point; at most one equipped item per slot.
#[derive(Clone, Copy, Debug, PartialEq, Eq, Structural)]
pub enum Slot {
    LeftHand,
    RightHand,
    Head,
}

/// The combat-stat component of an entity.
#[derive(Clone, Copy, Debug, PartialEq, Eq, Structural)]
pub struct Fighter {
    pub max_hp: i32,
    pub hp: i32,
    pub defense: i32,
    pub base_power: i32,
    pub on_death: DeathCallback,
    pub xp: i32,
}

/// The equipment component: where the item goes and what it adds.
#[derive(Clone, Copy, Debug, PartialEq, Eq, Structural)]
pub struct Equipment {
    pub slot: Slot,
    pub equipped: bool,
    pub power_bonus: i32,
}

/// The item component; its presence marks an entity as pickable.
#[derive(Clone, Copy, Debug, PartialEq, Eq, Structural)]
pub enum Item {
    Heal,
    Lightning,
    Confuse,
    Fireball,
    Equipment,
}

/// The AI component. A confused entity remembers the state it will
/// return to once its remaining turns run out.
#[derive(Debug)]
pub enum Ai {
    Basic,
    Confused { previous_ai: Box<Ai>, num_turns: i32 },
}

/// Any placed thing in the world: creature, item or stairs.
#[derive(Debug)]
pub struct Object {
    pub x: i32,
    pub y: i32,
    pub glyph: char,
    pub color: Color,
    pub name: String,
    pub blocks: bool,
    pub alive: bool,
    pub fighter: Option<Fighter>,
    pub ai: Option<Ai>,
    pub item: Option<Item>,
    pub always_visible: bool,
    pub level: i32,
    pub equipment: Option<Equipment>,
}

/// `n` clamped into the `i32` range.
pub open spec fn clamp_i32(n: int) -> int {
    if n < i32::MIN {
        i32::MIN as int
    } else if n > i32::MAX {
        i32::MAX as int
    } else {
        n
    }
}

/// Everything about two objects is equal except possibly position.
pub open spec fn same_but_pos(a: Object, b: Object) -> bool {
    &&& a.glyph == b.glyph
    &&& a.color == b.color
    &&& a.name == b.name
    &&& a.blocks == b.blocks
    &&& a.alive == b.alive
    &&& a.fighter == b.fighter
    &&& a.ai == b.ai
    &&& a.item == b.item
    &&& a.always_visible == b.always_visible
    &&& a.level == b.level
    &&& a.equipment == b.equipment
}

impl Object {
    /// A freshly placed entity: not yet alive, level 1, no components.
    pub fn new(x: i32, y: i32, glyph: char, color: Color, name: &str, blocks: bool) -> (o: Object)
        ensures
            o.x == x,
            o.y == y,
            o.glyph == glyph,
            o.color == color,
            o.name@ == name@,
            o.blocks == blocks,
            o.alive == false,
            o.fighter is None,
            o.ai is None,
            o.item is None,
            o.always_visible == false,
            o.level == 1,
            o.equipment is None,
    {
        Object {
            x,
            y,
            glyph,
            color,
            name: name.to_owned(),
            blocks,
            alive: false,
            fighter: None,
            ai: None,
            item: None,
            always_visible: false,
            level: 1,
            equipment: None,
        }
    }

    pub fn pos(&self) -> (p: (i32, i32))
        ensures
            p.0 == self.x,
            p.1 == self.y,
    {
        (self.x, self.y)
    }

    pub fn set_pos(&mut self, x: i32, y: i32)
        ensures
            final(self).x == x,
            final(self).y == y,
            same_but_pos(*final(self), *old(self)),
    {
        self.x = x;
        self.y = y;
    }

    /// Squared Euclidean distance to another entity. Every range rule in
    /// the game compares this against a squared threshold, which decides
    /// exactly as comparing real distances does.
    pub fn distance_sq_to(&self, other: &Object) -> (d: i64)
        requires
            -0x10000 <= self.x <= 0x10000,
            -0x10000 <= self.y <= 0x10000,
            -0x10000 <= other.x <= 0x10000,
            -0x10000 <= other.y <= 0x10000,
        ensures
            d == dist_sq(self.x as int, self.y as int, other.x as int, other.y as int),
    {
        distance_sq(self.x, self.y, other.x, other.y)
    }

    /// Squared Euclidean distance to a tile.
    pub fn distance_sq(&self, x: i32, y: i32) -> (d: i64)
        requires
            -0x10000 <= self.x <= 0x10000,
            -0x10000 <= self.y <= 0x10000,
            -0x10000 <= x <= 0x10000,
            -0x10000 <= y <= 0x10000,
        ensures
            d == dist_sq(self.x as int, self.y as int, x as int, y as int),
    {
        distance_sq(self.x, self.y, x, y)
    }

    /// Restores hit points, clamped at `max_hp`. Does nothing to an
    /// entity without combat stats.
    pub fn heal(&mut self, amount: i32)
        requires
            0 <= amount,
        ensures
            match old(self).fighter {
                Some(f) => {
                    &&& final(self).fighter matches Some(g)
                    &&& g == (Fighter {
                        hp: (if f.hp + amount > f.max_hp { f.max_hp } else { (f.hp + amount) as i32 }),
                        ..f
                    })
                    &&& final(self).x == old(self).x
                    &&& final(self).y == old(self).y
                    &&& same_but_fighter(*final(self), *old(self))
                },
                None => *final(self) == *old(self),
            },
    {
        if let Some(fighter) = self.fighter {
            let new_hp: i64 = fighter.hp as i64 + amount as i64;
            let hp: i32 = if new_hp > fighter.max_hp as i64 {
                fighter.max_hp
            } else {
                new_hp as i32
            };
            self.fighter = Some(Fighter { hp, ..fighter });
        }
    }
}

impl Slot {
    /// The display name of the attachment point.
    pub fn name(&self) -> (s: String)
        ensures
            s@ == slot_name(*self),
    {
        match self {
            Slot::LeftHand => "left hand".to_owned(),
            Slot::RightHand => "right hand".to_owned(),
            Slot::Head => "head".to_owned(),
        }
    }
}

/// The display name of an attachment point.
pub open spec fn slot_name(s: Slot) -> Seq<char> {
    match s {
        Slot::LeftHand => "left hand"@,
        Slot::RightHand => "right hand"@,
        Slot::Head => "head"@,
    }
}

/// Everything about two objects is equal except possibly the fighter component.
pub open spec fn same_but_fighter(a: Object, b: Object) -> bool {
    &&& a.x == b.x
    &&& a.y == b.y
    &&& a.glyph == b.glyph
    &&& a.color == b.color
    &&& a.name == b.name
    &&& a.blocks == b.blocks
    &&& a.alive == b.alive
    &&& a.ai == b.ai
    &&& a.item == b.item
    &&& a.always_visible == b.always_visible
    &&& a.level == b.level
    &&& a.equipment == b.equipment
}

/// Everything about two objects is equal except possibly the equipment component.
pub open spec fn same_but_equipment(a: Object, b: Object) -> bool {
    &&& a.x == b.x
    &&& a.y == b.y
    &&& a.glyph == b.glyph
    &&& a.color == b.color
    &&& a.name == b.name
    &&& a.blocks == b.blocks
    &&& a.alive == b.alive
    &&& a.fighter == b.fighter
    &&& a.ai == b.ai
    &&& a.item == b.item
    &&& a.always_visible == b.always_visible
    &&& a.level == b.level
}

/// The object carries an equipment component that is currently worn.
pub open spec fn is_equipped(o: Object) -> bool {
    o.equipment matches Some(e) && e.equipped
}

/// The equipment components of all currently worn inventory items,
/// in inventory order.
pub open spec fn equipped_seq(inv: Seq<Object>) -> Seq<Equipment>
    decreases inv.len(),
{
    if inv.len() == 0 {
        Seq::empty()
    } else if is_equipped(inv.last()) {
        equipped_seq(inv.drop_last()).push(inv.last().equipment.unwrap())
    } else {
        equipped_seq(inv.drop_last())
    }
}

/// Sum of power bonuses, clamped into `i32` at each step as the
/// running total is.
pub open spec fn bonus_sum_clamped(s: Seq<Equipment>) -> int
    decreases s.len(),
{
    if s.len() == 0 {
        0
    } else {
        clamp_i32(bonus_sum_clamped(s.drop_last()) + s.last().power_bonus)
    }
}

/// Effective attack power: base power plus, for the player only, the
/// bonuses of every equipped inventory item.
pub open spec fn eff_power(o: Object, inv: Seq<Object>) -> int {
    clamp_i32(
        (match o.fighter {
            Some(f) => f.base_power as int,
            None => 0,
        }) + (if o.name@ == "Player"@ {
            bonus_sum_clamped(equipped_seq(inv))
        } else {
            0
        }),
    )
}

/// Defense of an entity; zero without combat stats.
pub open spec fn defense_of(o: Object) -> int {
    match o.fighter {
        Some(f) => f.defense as int,
        None => 0,
    }
}

/// Hit points after applying a hit: positive damage subtracts
/// (clamped at the `i32` floor), other damage has no effect.
pub open spec fn hp_after(f: Fighter, damage: i32) -> int {
    if damage > 0 {
        if f.hp - damage >= i32::MIN {
            f.hp - damage
        } else {
            i32::MIN as int
        }
    } else {
        f.hp as int
    }
}

/// The corpse name after a monster's death transition.
pub open spec fn remains_name(name: Seq<char>) -> Seq<char> {
    "Remains of "@ + name
}

/// Log line for a kill.
pub open spec fn slain_msg(name: Seq<char>, xp: i32) -> Seq<char> {
    name + " was slain. "@ + dec_rep(xp as int) + " xp"@
}

/// Log line for a damaging hit.
pub open spec fn attack_msg(a: Seq<char>, t: Seq<char>, d: int) -> Seq<char> {
    a + " attacks "@ + t + " for "@ + dec_rep(d) + " hp."@
}

/// Log line for a hit absorbed by defense.
pub open spec fn no_effect_msg(a: Seq<char>, t: Seq<char>) -> Seq<char> {
    a + " attacks "@ + t + " but it has no effect!"@
}

/// The death transition, the same for every combatant: converted
/// into non-blocking remains with combat stats and AI cleared and the
/// name prefixed accordingly. Only the log line depends on whether
/// the player or a monster died.
pub open spec fn died_entity(o: Object, n: Object) -> bool {
    &&& n.glyph == '%'
    &&& n.color == col(191, 0, 0)
    &&& n.blocks == false
    &&& n.fighter is None
    &&& n.ai is None
    &&& n.name@ == remains_name(o.name@)
    &&& n.x == o.x
    &&& n.y == o.y
    &&& n.item == o.item
    &&& n.always_visible == o.always_visible
    &&& n.level == o.level
    &&& n.equipment == o.equipment
}

/// The entity part of a hit's outcome: what the victim becomes,
/// independently of logging and the returned experience.
pub open spec fn damage_obj_post(o: Object, n: Object, damage: i32) -> bool {
    match o.fighter {
        None => n == o,
        Some(f) => {
            let hp2 = hp_after(f, damage);
            if hp2 <= 0 {
                &&& n.alive == false
                &&& (match f.on_death {
                    DeathCallback::Player => died_entity(o, n),
                    DeathCallback::Monster => died_entity(o, n),
                })
            } else {
                &&& (n.fighter matches Some(g) && g == (Fighter { hp: hp2 as i32, ..f }))
                &&& same_but_fighter(n, o)
            }
        },
    }
}

/// A slain combatant is skipped by every later AI activation in the
/// tick: the death transition leaves it without an AI state (and
/// without combat stats, non-blocking, renamed), and an activation of
/// an entity without an AI state changes nothing.
pub proof fn lemma_slain_entity_is_skipped(o: Object, n: Object, damage: i32, r: Option<i32>, g1: Game, g2: Game)
    requires
        take_damage_post(o, n, damage, r, g1, g2),
        o.fighter matches Some(f) && hp_after(f, damage) <= 0,
    ensures
        n.ai is None,
        n.fighter is None,
        !n.alive,
        !n.blocks,
        n.name@ == remains_name(o.name@),
{
}

/// A full hit outcome implies its entity part.
pub proof fn lemma_take_damage_obj(o: Object, n: Object, damage: i32, r: Option<i32>, g1: Game, g2: Game)
    requires
        take_damage_post(o, n, damage, r, g1, g2),
    ensures
        damage_obj_post(o, n, damage),
{
}

/// Full outcome of `take_damage`: what the entity becomes, what the
/// call returns, and what is logged.
pub open spec fn take_damage_post(o: Object, n: Object, damage: i32, r: Option<i32>, g1: Game, g2: Game) -> bool {
    match o.fighter {
        None => n == o && g2 == g1 && r is None,
        Some(f) => {
            let hp2 = hp_after(f, damage);
            if hp2 <= 0 {
                &&& r == Some(f.xp)
                &&& n.alive == false
                &&& (match f.on_death {
                    DeathCallback::Player => died_entity(o, n) && log_pushed(
                        g1,
                        g2,
                        "You died!"@,
                        col(255, 0, 0),
                    ),
                    DeathCallback::Monster => died_entity(o, n) && log_pushed(
                        g1,
                        g2,
                        slain_msg(o.name@, f.xp),
                        col(0, 127, 255),
                    ),
                })
            } else {
                &&& r is None
                &&& g2 == g1
                &&& n.fighter matches Some(g) && g == (Fighter { hp: hp2 as i32, ..f })
                &&& same_but_fighter(n, o)
            }
        },
    }
}

impl Object {
    fn player_death(&mut self, game: &mut Game)
        ensures
            died_entity(*old(self), *final(self)),
            final(self).alive == old(self).alive,
            log_pushed(*old(game), *final(game), "You died!"@, col(255, 0, 0)),
    {
        log_add(&mut game.log, "You died!".to_owned(), Color::rgb(255, 0, 0));
        proof {
            assert(game.log@.take(old(game).log@.len() as int) =~= old(game).log@);
        }
        self.glyph = '%';
        self.color = Color::rgb(191, 0, 0);
        self.blocks = false;
        self.fighter = None;
        self.ai = None;
        let mut newname = "Remains of ".to_owned();
        newname.append(self.name.as_str());
        self.name = newname;
    }

    fn monster_death(&mut self, game: &mut Game)
        requires
            old(self).fighter is Some,
        ensures
            died_entity(*old(self), *final(self)),
            final(self).alive == old(self).alive,
            log_pushed(
                *old(game),
                *final(game),
                slain_msg(old(self).name@, old(self).fighter.unwrap().xp),
                col(0, 127, 255),
            ),
    {
        let f = self.fighter.unwrap();
        let mut msg = self.name.clone();
        msg.append(" was slain. ");
        let xps = fmt_i32(f.xp);
        msg.append(xps.as_str());
        msg.append(" xp");
        proof {
            assert(msg@ =~= slain_msg(self.name@, f.xp));
        }
        log_add(&mut game.log, msg, Color::rgb(0, 127, 255));
        proof {
            assert(game.log@.take(old(game).log@.len() as int) =~= old(game).log@);
        }
        self.glyph = '%';
        self.color = Color::rgb(191, 0, 0);
        self.blocks = false;
        self.fighter = None;
        self.ai = None;
        let mut newname = "Remains of ".to_owned();
        newname.append(self.name.as_str());
        self.name = newname;
    }

    /// Applies a hit to this entity. Positive damage lowers hit points;
    /// if they end at or below zero the death transition runs and the
    /// victim's experience value is returned for the attacker to collect.
    pub fn take_damage(&mut self, damage: i32, game: &mut Game) -> (r: Option<i32>)
        ensures
            take_damage_post(*old(self), *final(self), damage, r, *old(game), *final(game)),
    {
        if let Some(fighter) = self.fighter {
            if damage > 0 {
                let new_hp: i32 = if fighter.hp >= i32::MIN + damage {
                    fighter.hp - damage
                } else {
                    i32::MIN
                };
                self.fighter = Some(Fighter { hp: new_hp, ..fighter });
            }
        }
        if let Some(fighter) = self.fighter {
            if fighter.hp <= 0 {
                self.alive = false;
                match fighter.on_death {
                    DeathCallback::Player => self.player_death(game),
                    DeathCallback::Monster => self.monster_death(game),
                }
                return Some(fighter.xp);
            }
        }
        None
    }

    /// The equipment components of everything the player has equipped;
    /// empty for any entity other than the player.
    pub fn get_all_equipped(&self, game: &Game) -> (r: Vec<Equipment>)
        ensures
            r@ == (if self.name@ == "Player"@ {
                equipped_seq(game.inventory@)
            } else {
                Seq::<Equipment>::empty()
            }),
    {
        let player_name: String = "Player".to_owned();
        if self.name.eq(&player_name) {
            let mut r: Vec<Equipment> = Vec::new();
            let mut i: usize = 0;
            while i < game.inventory.len()
                invariant
                    i <= game.inventory@.len(),
                    r@ == equipped_seq(game.inventory@.take(i as int)),
                decreases game.inventory@.len() - i,
            {
                let it = &game.inventory[i];
                if let Some(e) = it.equipment {
                    if e.equipped {
                        r.push(e);
                    }
                }
                proof {
                    assert(game.inventory@.take(i as int + 1).drop_last() =~= game.inventory@.take(
                        i as int,
                    ));
                    assert(game.inventory@.take(i as int + 1).last() == game.inventory@[i as int]);
                }
                i = i + 1;
            }
            proof {
                assert(game.inventory@.take(game.inventory@.len() as int) =~= game.inventory@);
            }
            r
        } else {
            Vec::new()
        }
    }

    /// Effective attack power: base power plus equipped bonuses for
    /// the player.
    pub fn power(&self, game: &Game) -> (p: i32)
        ensures
            p as int == eff_power(*self, game.inventory@),
    {
        let base: i32 = if let Some(f) = self.fighter {
            f.base_power
        } else {
            0
        };
        let eq = self.get_all_equipped(game);
        let mut bonus: i32 = 0;
        let mut i: usize = 0;
        while i < eq.len()
            invariant
                i <= eq@.len(),
                bonus as int == bonus_sum_clamped(eq@.take(i as int)),
            decreases eq@.len() - i,
        {
            let b64: i64 = bonus as i64 + eq[i].power_bonus as i64;
            bonus = if b64 > i32::MAX as i64 {
                i32::MAX
            } else if b64 < i32::MIN as i64 {
                i32::MIN
            } else {
                b64 as i32
            };
            proof {
                assert(eq@.take(i as int + 1).drop_last() =~= eq@.take(i as int));
                assert(eq@.take(i as int + 1).last() == eq@[i as int]);
            }
            i = i + 1;
        }
        proof {
            assert(eq@.take(eq@.len() as int) =~= eq@);
        }
        let p64: i64 = base as i64 + bonus as i64;
        if p64 > i32::MAX as i64 {
            i32::MAX
        } else if p64 < i32::MIN as i64 {
            i32::MIN
        } else {
            p64 as i32
        }
    }

    /// Resolves one melee hit against `target`: damage is effective power
    /// minus the target's defense; non-positive damage has no effect, and
    /// a kill awards the victim's experience value to this attacker.
    pub fn attack(&mut self, target: &mut Object, game: &mut Game)
        requires
            old(self).fighter is Some,
        ensures
            attack_post(*old(self), *final(self), *old(target), *final(target), *old(game), *final(game)),
    {
        let p = self.power(game);
        let d: i32 = if let Some(tf) = target.fighter {
            tf.defense
        } else {
            0
        };
        let dmg64: i64 = p as i64 - d as i64;
        if dmg64 > 0 {
            let damage: i32 = if dmg64 > i32::MAX as i64 {
                i32::MAX
            } else {
                dmg64 as i32
            };
            let mut msg = self.name.clone();
            msg.append(" attacks ");
            msg.append(target.name.as_str());
            msg.append(" for ");
            let ds = fmt_i32(damage);
            msg.append(ds.as_str());
            msg.append(" hp.");
            proof {
                assert(msg@ =~= attack_msg(self.name@, target.name@, damage as int));
            }
            log_add(&mut game.log, msg, Color::rgb(255, 255, 255));
            proof {
                assert(game.log@.take(old(game).log@.len() as int) =~= old(game).log@);
            }
            let ghost gmid = *game;
            if let Some(xp) = target.take_damage(damage, game) {
                let f = self.fighter.unwrap();
                let nx: i64 = f.xp as i64 + xp as i64;
                let new_xp: i32 = if nx > i32::MAX as i64 {
                    i32::MAX
                } else if nx < i32::MIN as i64 {
                    i32::MIN
                } else {
                    nx as i32
                };
                self.fighter = Some(Fighter { xp: new_xp, ..f });
            }
            proof {
                if game.log@.len() == gmid.log@.len() + 1 && game.log@.take(gmid.log@.len() as int)
                    == gmid.log@ {
                    assert(game.log@.take(old(game).log@.len() as int) =~= gmid.log@.take(
                        old(game).log@.len() as int,
                    ));
                    assert(game.log@[game.log@.len() - 2] == gmid.log@[gmid.log@.len() - 1]);
                }
            }
        } else {
            let mut msg = self.name.clone();
            msg.append(" attacks ");
            msg.append(target.name.as_str());
            msg.append(" but it has no effect!");
            proof {
                assert(msg@ =~= no_effect_msg(self.name@, target.name@));
            }
            log_add(&mut game.log, msg, Color::rgb(255, 255, 255));
            proof {
                assert(game.log@.take(old(game).log@.len() as int) =~= old(game).log@);
            }
        }
    }

    /// Puts a worn-able inventory item on, if it is an item, is equipment,
    /// and is not already worn.
    pub fn equip(&mut self, log: &mut Messages)
        ensures
            equip_post(*old(self), *final(self), old(log)@, final(log)@),
    {
        if self.item.is_none() {
            let mut msg = "Can't equip ".to_owned();
            msg.append(self.name.as_str());
            msg.append(" because not an item.");
            proof {
                assert(msg@ =~= cant_equip_item_msg(self.name@));
            }
            log_add(log, msg, Color::rgb(255, 0, 0));
            proof {
                assert(log@.take(old(log)@.len() as int) =~= old(log)@);
            }
            return ;
        }
        if let Some(equipment) = self.equipment {
            if !equipment.equipped {
                self.equipment = Some(Equipment { equipped: true, ..equipment });
                let mut msg = "Equipped ".to_owned();
                msg.append(self.name.as_str());
                msg.append(" on ");
                let sn = equipment.slot.name();
                msg.append(sn.as_str());
                msg.append(".");
                proof {
                    assert(msg@ =~= equipped_msg(self.name@, equipment.slot));
                }
                log_add(log, msg, Color::rgb(114, 255, 114));
                proof {
                    assert(log@.take(old(log)@.len() as int) =~= old(log)@);
                }
            }
        } else {
            let mut msg = "Can't equip ".to_owned();
            msg.append(self.name.as_str());
            msg.append(" because not an equipment.");
            proof {
                assert(msg@ =~= cant_equip_equipment_msg(self.name@));
            }
            log_add(log, msg, Color::rgb(255, 0, 0));
            proof {
                assert(log@.take(old(log)@.len() as int) =~= old(log)@);
            }
        }
    }

    /// Takes a worn inventory item off, if it is an item, is equipment,
    /// and is currently worn.
    pub fn dequip(&mut self, log: &mut Messages)
        ensures
            dequip_post(*old(self), *final(self), old(log)@, final(log)@),
    {
        if self.item.is_none() {
            let mut msg = "Can't dequip ".to_owned();
            msg.append(self.name.as_str());
            msg.append(" because not an item.");
            proof {
                assert(msg@ =~= cant_dequip_item_msg(self.name@));
            }
            log_add(log, msg, Color::rgb(255, 0, 0));
            proof {
                assert(log@.take(old(log)@.len() as int) =~= old(log)@);
            }
            return ;
        }
        if let Some(equipment) = self.equipment {
            if equipment.equipped {
                self.equipment = Some(Equipment { equipped: false, ..equipment });
                let mut msg = "Dequipped ".to_owned();
                msg.append(self.name.as_str());
                msg.append(" on ");
                let sn = equipment.slot.name();
                msg.append(sn.as_str());
                msg.append(".");
                proof {
                    assert(msg@ =~= dequipped_msg(self.name@, equipment.slot));
                }
                log_add(log, msg, Color::rgb(255, 255, 114));
                proof {
                    assert(log@.take(old(log)@.len() as int) =~= old(log)@);
                }
            }
        } else {
            let mut msg = "Can't dequip ".to_owned();
            msg.append(self.name.as_str());
            msg.append(" because not an equipment.");
            proof {
                assert(msg@ =~= cant_dequip_equipment_msg(self.name@));
            }
            log_add(log, msg, Color::rgb(255, 0, 0));
            proof {
                assert(log@.take(old(log)@.len() as int) =~= old(log)@);
            }
        }
    }
}

/// Log lines for refused equip and dequip attempts.
pub open spec fn cant_equip_item_msg(name: Seq<char>) -> Seq<char> {
    "Can't equip "@ + name + " because not an item."@
}

pub open spec fn cant_equip_equipment_msg(name: Seq<char>) -> Seq<char> {
    "Can't equip "@ + name + " because not an equipment."@
}

pub open spec fn cant_dequip_item_msg(name: Seq<char>) -> Seq<char> {
    "Can't dequip "@ + name + " because not an item."@
}

pub open spec fn cant_dequip_equipment_msg(name: Seq<char>) -> Seq<char> {
    "Can't dequip "@ + name + " because not an equipment."@
}

/// Log line for a successful equip.
pub open spec fn equipped_msg(name: Seq<char>, s: Slot) -> Seq<char> {
    "Equipped "@ + name + " on "@ + slot_name(s) + "."@
}

/// Log line for a successful dequip.
pub open spec fn dequipped_msg(name: Seq<char>, s: Slot) -> Seq<char> {
    "Dequipped "@ + name + " on "@ + slot_name(s) + "."@
}

/// Full outcome of `equip`: the component's `equipped` flag is set
/// exactly when the entity is an unworn piece of equipment, and a line
/// is logged unless it was already worn.
pub open spec fn equip_post(o: Object, n: Object, l1: Seq<(String, Color)>, l2: Seq<(String, Color)>) -> bool {
    if o.item is None {
        n == o && msgs_pushed(l1, l2, cant_equip_item_msg(o.name@), col(255, 0, 0))
    } else {
        match o.equipment {
            Some(e) => if !e.equipped {
                &&& n.equipment matches Some(ne) && ne == (Equipment { equipped: true, ..e })
                &&& same_but_equipment(n, o)
                &&& msgs_pushed(l1, l2, equipped_msg(o.name@, e.slot), col(114, 255, 114))
            } else {
                n == o && l2 == l1
            },
            None => n == o && msgs_pushed(l1, l2, cant_equip_equipment_msg(o.name@), col(255, 0, 0)),
        }
    }
}

/// Full outcome of `dequip`, mirroring `equip_post`.
pub open spec fn dequip_post(o: Object, n: Object, l1: Seq<(String, Color)>, l2: Seq<(String, Color)>) -> bool {
    if o.item is None {
        n == o && msgs_pushed(l1, l2, cant_dequip_item_msg(o.name@), col(255, 0, 0))
    } else {
        match o.equipment {
            Some(e) => if e.equipped {
                &&& n.equipment matches Some(ne) && ne == (Equipment { equipped: false, ..e })
                &&& same_but_equipment(n, o)
                &&& msgs_pushed(l1, l2, dequipped_msg(o.name@, e.slot), col(255, 255, 114))
            } else {
                n == o && l2 == l1
            },
            None => n == o && msgs_pushed(l1, l2, cant_dequip_equipment_msg(o.name@), col(255, 0, 0)),
        }
    }
}

/// Full outcome of `attack`: either the no-effect line, or the hit line
/// followed by whatever `take_damage` does, with a kill's experience
/// credited to the attacker.
pub open spec fn attack_post(a0: Object, a1: Object, t0: Object, t1: Object, g0: Game, g1: Game) -> bool {
    let dmg = eff_power(a0, g0.inventory@) - defense_of(t0);
    if dmg > 0 {
        let dmg32 = clamp_i32(dmg) as i32;
        match t0.fighter {
            None => {
                &&& a1 == a0
                &&& t1 == t0
                &&& log_pushed(g0, g1, attack_msg(a0.name@, t0.name@, dmg32 as int), col(255, 255, 255))
            },
            Some(tf) => {
                let hp2 = hp_after(tf, dmg32);
                if hp2 <= 0 {
                    &&& t1.alive == false
                    &&& (match tf.on_death {
                        DeathCallback::Player => died_entity(t0, t1) && log_pushed2(
                            g0,
                            g1,
                            attack_msg(a0.name@, t0.name@, dmg32 as int),
                            col(255, 255, 255),
                            "You died!"@,
                            col(255, 0, 0),
                        ),
                        DeathCallback::Monster => died_entity(t0, t1) && log_pushed2(
                            g0,
                            g1,
                            attack_msg(a0.name@, t0.name@, dmg32 as int),
                            col(255, 255, 255),
                            slain_msg(t0.name@, tf.xp),
                            col(0, 127, 255),
                        ),
                    })
                    &&& a1.fighter matches Some(af) && af == (Fighter {
                        xp: clamp_i32(a0.fighter.unwrap().xp + tf.xp) as i32,
                        ..a0.fighter.unwrap()
                    })
                    &&& same_but_fighter(a1, a0)
                } else {
                    &&& t1.fighter matches Some(ng) && ng == (Fighter { hp: hp2 as i32, ..tf })
                    &&& same_but_fighter(t1, t0)
                    &&& a1 == a0
                    &&& log_pushed(g0, g1, attack_msg(a0.name@, t0.name@, dmg32 as int), col(255, 255, 255))
                }
            },
        }
    } else {
        &&& a1 == a0
        &&& t1 == t0
        &&& log_pushed(g0, g1, no_effect_msg(a0.name@, t0.name@), col(255, 255, 255))
    }
}

} // verus!
