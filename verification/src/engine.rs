use vstd::prelude::*;
use vstd::string::StringExecFns;
use crate::{MAP_WIDTH, MAP_HEIGHT, PLAYER, LEVEL_UP_BASE, LEVEL_UP_FACTOR};
use crate::tile::{Tile, Grid, in_bounds};
use crate::geometry::Rect;
use crate::game::{Game, log_add, log_pushed};
use crate::object::{
    Object, Color, Fighter, Ai, DeathCallback, col, same_but_pos, same_but_fighter, attack_post,
    clamp_i32,
};
use crate::mapgen::{gv, grid_wf, blocked_at, is_blocked};
use crate::rng::rand_range_i32;

verus! {

/// How one game tick was classified.
#[derive(Clone, Copy, Debug, PartialEq, Eq, Structural)]
pub enum PlayerAction {
    TookTurn,
    DidntTakeTurn,
    Exit,
}

/// The visibility oracle's answers, one flag per grid cell,
/// indexed as `fov[x][y]`.
pub type FovGrid = Vec<Vec<bool>>;

/// The oracle's answers as a mathematical matrix.
pub open spec fn fv(f: FovGrid) -> Seq<Seq<bool>> {
    f@.map_values(|c: Vec<bool>| c@)
}

/// The oracle answers for exactly the grid's cells.
pub open spec fn fov_wf(f: Seq<Seq<bool>>) -> bool {
    &&& f.len() == MAP_WIDTH
    &&& forall|x: int| 0 <= x < f.len() ==> (#[trigger] f[x]).len() == MAP_HEIGHT
}

/// The cell is on the grid and the oracle marks it visible.
pub open spec fn visible_at(f: Seq<Seq<bool>>, x: int, y: int) -> bool {
    in_bounds(x, y) && f[x][y]
}

/// Queries the visibility oracle; anything off the grid is unseen.
pub fn is_visible(fov: &FovGrid, x: i32, y: i32) -> (b: bool)
    requires
        fov_wf(fv(*fov)),
    ensures
        b == visible_at(fv(*fov), x as int, y as int),
{
    if x < 0 || x >= MAP_WIDTH || y < 0 || y >= MAP_HEIGHT {
        return false;
    }
    proof {
        assert(fv(*fov)[x as int] == fov@[x as int]@);
    }
    fov[x as usize][y as usize]
}

/// Every entity stands on the grid.
pub open spec fn positions_in_bounds(objects: Seq<Object>) -> bool {
    forall|i: int|
        0 <= i < objects.len() ==> in_bounds((#[trigger] objects[i]).x as int, objects[i].y as int)
}

/// The outcome of one movement attempt: the entity stepped by (dx, dy)
/// if the destination was free, and nothing else changed.
pub open spec fn move_by_post(pre: Seq<Object>, post: Seq<Object>, m: Seq<Seq<Tile>>, id: int, dx: int, dy: int) -> bool {
    &&& post.len() == pre.len()
    &&& forall|j: int| 0 <= j < pre.len() && j != id ==> post[j] == pre[j]
    &&& (if !blocked_at(m, pre, pre[id].x + dx, pre[id].y + dy) {
        &&& same_but_pos(post[id], pre[id])
        &&& post[id].x == pre[id].x + dx
        &&& post[id].y == pre[id].y + dy
    } else {
        post[id] == pre[id]
    })
}

/// Moves an entity by a step vector unless the destination is blocked
/// by a wall, the grid edge, or a blocking entity.
pub fn move_by(id: usize, dx: i32, dy: i32, map: &Grid, objects: &mut Vec<Object>)
    requires
        id < old(objects)@.len(),
        grid_wf(gv(*map)),
        -3 <= dx <= 3,
        -3 <= dy <= 3,
        in_bounds(old(objects)@[id as int].x as int, old(objects)@[id as int].y as int),
    ensures
        move_by_post(old(objects)@, final(objects)@, gv(*map), id as int, dx as int, dy as int),
{
    let (x, y) = objects[id].pos();
    let new_x = x + dx;
    let new_y = y + dy;
    if !is_blocked(new_x, new_y, map, objects) {
        let o = &mut objects[id];
        o.set_pos(new_x, new_y);
    }
}

/// The 8-directional step toward a target along one axis: the step
/// that rounding `d / sqrt(d*d + other*other)` to the nearest integer
/// yields, computed exactly on integers (`|d| / dist >= 1/2` exactly
/// when `3*d*d >= other*other`).
pub open spec fn toward_step(d: int, other: int) -> int {
    if 3 * (d * d) >= other * other {
        if d > 0 {
            1
        } else if d < 0 {
            -1
        } else {
            0
        }
    } else {
        0
    }
}

fn toward_step_exec(d: i32, other: i32) -> (s: i32)
    requires
        -0x10000 <= d <= 0x10000,
        -0x10000 <= other <= 0x10000,
    ensures
        s as int == toward_step(d as int, other as int),
{
    let d64 = d as i64;
    let o64 = other as i64;
    proof {
        assert(d64 * d64 <= 0x10000 * 0x10000 && d64 * d64 >= 0) by (nonlinear_arith)
            requires -0x10000 <= d64 <= 0x10000;
        assert(o64 * o64 <= 0x10000 * 0x10000 && o64 * o64 >= 0) by (nonlinear_arith)
            requires -0x10000 <= o64 <= 0x10000;
    }
    let dsq = d64 * d64;
    let osq = o64 * o64;
    if 3 * dsq >= osq {
        if d > 0 {
            1
        } else if d < 0 {
            -1
        } else {
            0
        }
    } else {
        0
    }
}

/// Steps one grid cell toward a target, 8-directionally.
pub fn move_towards(id: usize, target_x: i32, target_y: i32, map: &Grid, objects: &mut Vec<Object>)
    requires
        id < old(objects)@.len(),
        grid_wf(gv(*map)),
        in_bounds(old(objects)@[id as int].x as int, old(objects)@[id as int].y as int),
        -0x8000 <= target_x <= 0x8000,
        -0x8000 <= target_y <= 0x8000,
    ensures
        move_by_post(
            old(objects)@,
            final(objects)@,
            gv(*map),
            id as int,
            toward_step(
                target_x - old(objects)@[id as int].x,
                target_y - old(objects)@[id as int].y,
            ),
            toward_step(
                target_y - old(objects)@[id as int].y,
                target_x - old(objects)@[id as int].x,
            ),
        ),
{
    let dx = target_x - objects[id].x;
    let dy = target_y - objects[id].y;
    let sx = toward_step_exec(dx, dy);
    let sy = toward_step_exec(dy, dx);
    move_by(id, sx, sy, map, objects);
}

/// Resolves an attack between two distinct entities of the list,
/// leaving every other entity untouched.
pub fn attack_between(attacker_id: usize, target_id: usize, objects: &mut Vec<Object>, game: &mut Game)
    requires
        attacker_id != target_id,
        attacker_id < old(objects)@.len(),
        target_id < old(objects)@.len(),
        old(objects)@[attacker_id as int].fighter is Some,
    ensures
        final(objects)@.len() == old(objects)@.len(),
        forall|j: int|
            0 <= j < old(objects)@.len() && j != attacker_id && j != target_id ==> final(objects)@[j]
                == old(objects)@[j],
        attack_post(
            old(objects)@[attacker_id as int],
            final(objects)@[attacker_id as int],
            old(objects)@[target_id as int],
            final(objects)@[target_id as int],
            *old(game),
            *final(game),
        ),
{
    if attacker_id < target_id {
        let mut target = objects.remove(target_id);
        let mut attacker = objects.remove(attacker_id);
        attacker.attack(&mut target, game);
        objects.insert(attacker_id, attacker);
        objects.insert(target_id, target);
        proof {
            assert forall|j: int|
                0 <= j < old(objects)@.len() && j != attacker_id && j != target_id implies
                objects@[j] == old(objects)@[j] by {}
        }
    } else {
        let mut attacker = objects.remove(attacker_id);
        let mut target = objects.remove(target_id);
        attacker.attack(&mut target, game);
        objects.insert(target_id, target);
        objects.insert(attacker_id, attacker);
        proof {
            assert forall|j: int|
                0 <= j < old(objects)@.len() && j != attacker_id && j != target_id implies
                objects@[j] == old(objects)@[j] by {}
        }
    }
}

/// Two objects agree on everything except position and AI state.
pub open spec fn same_but_pos_and_ai(a: Object, b: Object) -> bool {
    &&& a.glyph == b.glyph
    &&& a.color == b.color
    &&& a.name == b.name
    &&& a.blocks == b.blocks
    &&& a.alive == b.alive
    &&& a.fighter == b.fighter
    &&& a.item == b.item
    &&& a.always_visible == b.always_visible
    &&& a.level == b.level
    &&& a.equipment == b.equipment
}

/// Whether a cell is blocked depends only on tiles and on the
/// entities' footprints, not on their other fields.
pub proof fn lemma_blocked_same_footprint(m: Seq<Seq<Tile>>, o1: Seq<Object>, o2: Seq<Object>, x: int, y: int)
    requires
        o1.len() == o2.len(),
        forall|i: int|
            0 <= i < o1.len() ==> (#[trigger] o2[i]).blocks == o1[i].blocks && o2[i].x == o1[i].x
                && o2[i].y == o1[i].y,
    ensures
        blocked_at(m, o1, x, y) == blocked_at(m, o2, x, y),
{
    if exists|i: int|
        0 <= i < o1.len() && (#[trigger] o1[i]).blocks && o1[i].x == x && o1[i].y == y {
        let i = choose|i: int|
            0 <= i < o1.len() && (#[trigger] o1[i]).blocks && o1[i].x == x && o1[i].y == y;
        assert(o2[i].blocks && o2[i].x == x && o2[i].y == y);
    }
    if exists|i: int|
        0 <= i < o2.len() && (#[trigger] o2[i]).blocks && o2[i].x == x && o2[i].y == y {
        let i = choose|i: int|
            0 <= i < o2.len() && (#[trigger] o2[i]).blocks && o2[i].x == x && o2[i].y == y;
        assert(o1[i].blocks && o1[i].x == x && o1[i].y == y);
    }
}

/// Every AI-bearing entity still has its combat stats; death is the
/// only thing that removes them, and it clears the AI too.
pub open spec fn ai_implies_fighter(objects: Seq<Object>) -> bool {
    forall|i: int|
        0 <= i < objects.len() && (#[trigger] objects[i]).ai is Some ==> objects[i].fighter is Some
}

/// One activation of a basic-AI monster: if the oracle sees it, it
/// steps toward the player when at Euclidean distance two or more,
/// and otherwise attacks a living player.
pub open spec fn ai_basic_post(pre: Seq<Object>, post: Seq<Object>, m: Seq<Seq<Tile>>, f: Seq<Seq<bool>>, g0: Game, g1: Game, id: int) -> bool {
    let mon = pre[id];
    let pl = pre[PLAYER as int];
    if visible_at(f, mon.x as int, mon.y as int) {
        if crate::geometry::dist_sq(mon.x as int, mon.y as int, pl.x as int, pl.y as int) >= 4 {
            &&& move_by_post(
                pre,
                post,
                m,
                id,
                toward_step(pl.x - mon.x, pl.y - mon.y),
                toward_step(pl.y - mon.y, pl.x - mon.x),
            )
            &&& g1 == g0
        } else if pl.fighter matches Some(pf) && pf.hp > 0 {
            &&& post.len() == pre.len()
            &&& forall|j: int| 0 <= j < pre.len() && j != id && j != PLAYER ==> post[j] == pre[j]
            &&& attack_post(pre[id], post[id], pre[PLAYER as int], post[PLAYER as int], g0, g1)
        } else {
            post == pre && g1 == g0
        }
    } else {
        post == pre && g1 == g0
    }
}

/// One basic-AI activation.
pub fn ai_basic(monster_id: usize, game: &mut Game, objects: &mut Vec<Object>, fov: &FovGrid) -> (r: Ai)
    requires
        0 < monster_id < old(objects)@.len(),
        grid_wf(gv(old(game).grid)),
        fov_wf(fv(*fov)),
        in_bounds(
            old(objects)@[monster_id as int].x as int,
            old(objects)@[monster_id as int].y as int,
        ),
        in_bounds(old(objects)@[0].x as int, old(objects)@[0].y as int),
        old(objects)@[monster_id as int].fighter is Some,
    ensures
        r matches Ai::Basic,
        ai_basic_post(
            old(objects)@,
            final(objects)@,
            gv(old(game).grid),
            fv(*fov),
            *old(game),
            *final(game),
            monster_id as int,
        ),
{
    let (monster_x, monster_y) = objects[monster_id].pos();
    let (player_x, player_y) = objects[PLAYER].pos();
    if is_visible(fov, monster_x, monster_y) {
        let d = crate::geometry::distance_sq(monster_x, monster_y, player_x, player_y);
        if d >= 4 {
            move_towards(monster_id, player_x, player_y, &game.grid, objects);
        } else {
            let player_alive = if let Some(pf) = objects[PLAYER].fighter {
                pf.hp > 0
            } else {
                false
            };
            if player_alive {
                attack_between(monster_id, PLAYER, objects, game);
            }
        }
    }
    Ai::Basic
}

/// Log line emitted when confusion wears off.
pub open spec fn no_longer_confused_msg(name: Seq<char>) -> Seq<char> {
    "The "@ + name + " is no longer confused!"@
}

/// One activation of a confused monster: while turns remain it takes
/// one random step (possibly the zero step) and counts down; once the
/// counter is spent it reverts to the remembered state, logging one
/// line.
pub open spec fn ai_confused_post(pre: Seq<Object>, post: Seq<Object>, m: Seq<Seq<Tile>>, g0: Game, g1: Game, id: int) -> bool {
    pre[id].ai matches Some(Ai::Confused { previous_ai: prev, num_turns: n }) && {
        if n >= 0 {
            &&& g1 == g0
            &&& post.len() == pre.len()
            &&& forall|j: int| 0 <= j < pre.len() && j != id ==> post[j] == pre[j]
            &&& (post[id].ai matches Some(Ai::Confused { previous_ai: p2, num_turns: n2 }) && p2
                == prev && n2 == n - 1)
            &&& same_but_pos_and_ai(post[id], pre[id])
            &&& exists|sdx: int, sdy: int|
                -1 <= sdx <= 1 && -1 <= sdy <= 1 && (if !#[trigger] blocked_at(
                    m,
                    pre,
                    pre[id].x + sdx,
                    pre[id].y + sdy,
                ) {
                    post[id].x == pre[id].x + sdx && post[id].y == pre[id].y + sdy
                } else {
                    post[id].x == pre[id].x && post[id].y == pre[id].y
                })
        } else {
            &&& post.len() == pre.len()
            &&& forall|j: int| 0 <= j < pre.len() && j != id ==> post[j] == pre[j]
            &&& post[id].ai == Some(*prev)
            &&& same_but_pos_and_ai(post[id], pre[id])
            &&& post[id].x == pre[id].x && post[id].y == pre[id].y
            &&& log_pushed(g0, g1, no_longer_confused_msg(pre[id].name@), col(255, 0, 0))
        }
    }
}

/// One confused-AI activation, updating the entity's AI state in place.
pub fn ai_confused_turn(monster_id: usize, game: &mut Game, objects: &mut Vec<Object>)
    requires
        monster_id < old(objects)@.len(),
        grid_wf(gv(old(game).grid)),
        in_bounds(
            old(objects)@[monster_id as int].x as int,
            old(objects)@[monster_id as int].y as int,
        ),
        old(objects)@[monster_id as int].ai matches Some(Ai::Confused { .. }),
    ensures
        ai_confused_post(
            old(objects)@,
            final(objects)@,
            gv(old(game).grid),
            *old(game),
            *final(game),
            monster_id as int,
        ),
{
    let taken = {
        let o = &mut objects[monster_id];
        o.ai.take()
    };
    if let Some(Ai::Confused { previous_ai, num_turns }) = taken {
        if num_turns >= 0 {
            {
                let o = &mut objects[monster_id];
                o.ai = Some(Ai::Confused { previous_ai, num_turns: num_turns - 1 });
            }
            let ghost mid = objects@;
            let dx = rand_range_i32(-1, 2);
            let dy = rand_range_i32(-1, 2);
            move_by(monster_id, dx, dy, &game.grid, objects);
            proof {
                lemma_blocked_same_footprint(
                    gv(old(game).grid),
                    old(objects)@,
                    mid,
                    old(objects)@[monster_id as int].x + dx,
                    old(objects)@[monster_id as int].y + dy,
                );
                assert(-1 <= dx as int <= 1 && -1 <= dy as int <= 1 && (if !blocked_at(
                    gv(old(game).grid),
                    old(objects)@,
                    old(objects)@[monster_id as int].x + dx,
                    old(objects)@[monster_id as int].y + dy,
                ) {
                    objects@[monster_id as int].x == old(objects)@[monster_id as int].x + dx
                        && objects@[monster_id as int].y == old(objects)@[monster_id as int].y + dy
                } else {
                    objects@[monster_id as int].x == old(objects)@[monster_id as int].x
                        && objects@[monster_id as int].y == old(objects)@[monster_id as int].y
                }));
            }
        } else {
            let mut msg = "The ".to_owned();
            msg.append(objects[monster_id].name.as_str());
            msg.append(" is no longer confused!");
            proof {
                assert(msg@ =~= no_longer_confused_msg(objects@[monster_id as int].name@));
            }
            log_add(&mut game.log, msg, Color::rgb(255, 0, 0));
            proof {
                assert(game.log@.take(old(game).log@.len() as int) =~= old(game).log@);
            }
            let o = &mut objects[monster_id];
            o.ai = Some(*previous_ai);
        }
    }
}

/// How many walking activations a confusion with `num_turns` remaining
/// still takes before the activation that reverts: per
/// `ai_confused_post`, every activation with a non-negative counter is
/// a random walk that decrements it, and the activation after the
/// counter passes below zero restores the remembered state.
pub open spec fn walks_before_revert(num_turns: int) -> int
    decreases (if num_turns >= 0 { num_turns + 1 } else { 0 }),
{
    if num_turns >= 0 {
        1 + walks_before_revert(num_turns - 1)
    } else {
        0
    }
}

/// A confusion with `n >= 0` turns remaining walks exactly `n + 1`
/// activations — counters `n` down through zero inclusive — and only
/// the activation after those reverts to the remembered state.
pub proof fn lemma_confusion_duration(n: int)
    requires
        n >= 0,
    ensures
        walks_before_revert(n) == n + 1,
    decreases n,
{
    if n == 0 {
        assert(walks_before_revert(-1) == 0);
    } else {
        lemma_confusion_duration(n - 1);
    }
}

/// Dispatches one AI activation for an entity, according to the AI
/// state it currently holds.
pub fn ai_take_turn(monster_id: usize, objects: &mut Vec<Object>, fov: &FovGrid, game: &mut Game)
    requires
        0 < monster_id < old(objects)@.len(),
        grid_wf(gv(old(game).grid)),
        fov_wf(fv(*fov)),
        positions_in_bounds(old(objects)@),
        ai_implies_fighter(old(objects)@),
    ensures
        final(objects)@.len() == old(objects)@.len(),
        positions_in_bounds(final(objects)@),
        ai_implies_fighter(final(objects)@),
        final(game).grid == old(game).grid,
        final(game).inventory == old(game).inventory,
        final(game).dungeon_level == old(game).dungeon_level,
        old(game).log@.is_prefix_of(final(game).log@),
        (match old(objects)@[monster_id as int].ai {
            Option::None => final(objects)@ == old(objects)@ && *final(game) == *old(game),
            Option::Some(Ai::Basic) => ai_basic_post(
                old(objects)@,
                final(objects)@,
                gv(old(game).grid),
                fv(*fov),
                *old(game),
                *final(game),
                monster_id as int,
            ),
            Option::Some(Ai::Confused { .. }) => ai_confused_post(
                old(objects)@,
                final(objects)@,
                gv(old(game).grid),
                *old(game),
                *final(game),
                monster_id as int,
            ),
        }),
{
    let which: u8 = match &objects[monster_id].ai {
        Option::None => 0,
        Option::Some(Ai::Basic) => 1,
        Option::Some(Ai::Confused { .. }) => 2,
    };
    if which == 1 {
        let _na = ai_basic(monster_id, game, objects, fov);
    } else if which == 2 {
        ai_confused_turn(monster_id, game, objects);
    }
}

/// One AI activation of the entity at `id`, as a relation between the
/// world before and after: nothing changes for an entity without an AI
/// state, and otherwise the activation of the held variant runs.
pub open spec fn activation_post(pre: Seq<Object>, g0: Game, post: Seq<Object>, g1: Game, f: Seq<Seq<bool>>, id: int) -> bool {
    if 0 <= id < pre.len() {
        match pre[id].ai {
            Option::None => post == pre && g1 == g0,
            Option::Some(Ai::Basic) => ai_basic_post(pre, post, gv(g0.grid), f, g0, g1, id),
            Option::Some(Ai::Confused { .. }) => ai_confused_post(pre, post, gv(g0.grid), g0, g1, id),
        }
    } else {
        post == pre && g1 == g0
    }
}

/// The AI phase as a relation: the entities at indices 1 through
/// `i - 1` have each taken exactly one activation, in ascending index
/// order, composed in that order; `i <= 1` means none has acted.
pub open spec fn ai_phase(pre_o: Seq<Object>, g0: Game, post_o: Seq<Object>, g1: Game, f: Seq<Seq<bool>>, i: int) -> bool
    decreases (if i >= 1 { i } else { 0 }),
{
    if i <= 1 {
        post_o == pre_o && g1 == g0
    } else {
        exists|mid_o: Seq<Object>, mid_g: Game|
            ai_phase(pre_o, g0, mid_o, mid_g, f, i - 1) && #[trigger] activation_post(
                mid_o,
                mid_g,
                post_o,
                g1,
                f,
                i - 1,
            )
    }
}

/// Extends an AI phase by the activation of the next entity.
pub proof fn lemma_ai_phase_step(pre_o: Seq<Object>, g0: Game, mid_o: Seq<Object>, mid_g: Game, post_o: Seq<Object>, g1: Game, f: Seq<Seq<bool>>, i: int)
    requires
        i >= 1,
        ai_phase(pre_o, g0, mid_o, mid_g, f, i),
        activation_post(mid_o, mid_g, post_o, g1, f, i),
    ensures
        ai_phase(pre_o, g0, post_o, g1, f, i + 1),
{
    assert(activation_post(mid_o, mid_g, post_o, g1, f, (i + 1) - 1));
}

/// Runs the AI phase of one tick: every AI-bearing entity except the
/// player gets exactly one activation, in ascending index order;
/// entities without an AI state are skipped untouched.
pub fn ai_turns(objects: &mut Vec<Object>, fov: &FovGrid, game: &mut Game)
    requires
        old(objects)@.len() >= 1,
        grid_wf(gv(old(game).grid)),
        fov_wf(fv(*fov)),
        positions_in_bounds(old(objects)@),
        ai_implies_fighter(old(objects)@),
    ensures
        final(objects)@.len() == old(objects)@.len(),
        positions_in_bounds(final(objects)@),
        ai_implies_fighter(final(objects)@),
        final(game).grid == old(game).grid,
        final(game).inventory == old(game).inventory,
        final(game).dungeon_level == old(game).dungeon_level,
        old(game).log@.is_prefix_of(final(game).log@),
        ai_phase(
            old(objects)@,
            *old(game),
            final(objects)@,
            *final(game),
            fv(*fov),
            old(objects)@.len() as int,
        ),
{
    let mut id: usize = 1;
    while id < objects.len()
        invariant
            1 <= id,
            id <= objects@.len() || id == 1,
            objects@.len() == old(objects)@.len(),
            grid_wf(gv(old(game).grid)),
            fov_wf(fv(*fov)),
            positions_in_bounds(objects@),
            ai_implies_fighter(objects@),
            game.grid == old(game).grid,
            game.inventory == old(game).inventory,
            game.dungeon_level == old(game).dungeon_level,
            old(game).log@.is_prefix_of(game.log@),
            ai_phase(old(objects)@, *old(game), objects@, *game, fv(*fov), id as int),
        decreases objects@.len() - id,
    {
        let ghost opre = objects@;
        let ghost gpre = *game;
        let has_ai = objects[id].ai.is_some();
        if has_ai {
            ai_take_turn(id, objects, fov, game);
            proof {
                assert forall|i: int|
                    0 <= i < old(game).log@.len() implies old(game).log@[i] == game.log@[i] by {
                    assert(gpre.log@[i] == game.log@.take(gpre.log@.len() as int)[i]);
                    assert(old(game).log@[i] == gpre.log@.take(old(game).log@.len() as int)[i]);
                }
                assert(old(game).log@.is_prefix_of(game.log@)) by {
                    assert(game.log@.take(old(game).log@.len() as int) =~= old(game).log@);
                }
            }
        }
        proof {
            assert(activation_post(opre, gpre, objects@, *game, fv(*fov), id as int));
            lemma_ai_phase_step(
                old(objects)@,
                *old(game),
                opre,
                gpre,
                objects@,
                *game,
                fv(*fov),
                id as int,
            );
        }
        id = id + 1;
    }
}

/// Marks every cell the oracle currently sees as explored; exploration
/// is append-only and nothing else about the grid changes.
pub fn update_explored(map: &mut Grid, fov: &FovGrid)
    requires
        grid_wf(gv(*old(map))),
        fov_wf(fv(*fov)),
    ensures
        grid_wf(gv(*final(map))),
        forall|x: int, y: int|
            0 <= x < MAP_WIDTH && 0 <= y < MAP_HEIGHT ==> (#[trigger] gv(*final(map))[x][y])
                == (Tile {
                explored: gv(*old(map))[x][y].explored || visible_at(fv(*fov), x, y),
                ..gv(*old(map))[x][y]
            }),
{
    let mut x: i32 = 0;
    while x < MAP_WIDTH
        invariant
            0 <= x <= MAP_WIDTH,
            grid_wf(gv(*map)),
            fov_wf(fv(*fov)),
            grid_wf(gv(*old(map))),
            forall|px: int, py: int|
                0 <= px < MAP_WIDTH && 0 <= py < MAP_HEIGHT ==> (#[trigger] gv(*map)[px][py]) == (
                if px < x {
                    Tile {
                        explored: gv(*old(map))[px][py].explored || visible_at(fv(*fov), px, py),
                        ..gv(*old(map))[px][py]
                    }
                } else {
                    gv(*old(map))[px][py]
                }),
        decreases MAP_WIDTH - x,
    {
        let mut y: i32 = 0;
        while y < MAP_HEIGHT
            invariant
                0 <= x < MAP_WIDTH,
                0 <= y <= MAP_HEIGHT,
                grid_wf(gv(*map)),
                fov_wf(fv(*fov)),
                grid_wf(gv(*old(map))),
                forall|px: int, py: int|
                    0 <= px < MAP_WIDTH && 0 <= py < MAP_HEIGHT ==> (#[trigger] gv(*map)[px][py])
                        == (if px < x || (px == x && py < y) {
                        Tile {
                            explored: gv(*old(map))[px][py].explored || visible_at(
                                fv(*fov),
                                px,
                                py,
                            ),
                            ..gv(*old(map))[px][py]
                        }
                    } else {
                        gv(*old(map))[px][py]
                    }),
            decreases MAP_HEIGHT - y,
        {
            let visible = is_visible(fov, x, y);
            if visible {
                crate::mapgen::set_explored(map, x as usize, y as usize);
            }
            y = y + 1;
        }
        x = x + 1;
    }
}

/// A living or dead combatant stands at (x, y).
pub open spec fn fighter_at(o: Object, x: int, y: int) -> bool {
    o.fighter is Some && o.x == x && o.y == y
}

/// Full outcome of the player's movement command: an attack on the
/// first combatant at the destination, or a step there if it is free.
pub open spec fn move_or_attack_post(pre: Seq<Object>, post: Seq<Object>, g0: Game, g1: Game, dx: int, dy: int) -> bool {
    let nx = pre[0].x + dx;
    let ny = pre[0].y + dy;
    if exists|t: int| 0 <= t < pre.len() && fighter_at(#[trigger] pre[t], nx, ny) {
        exists|t: int|
            {
                &&& 0 <= t < pre.len()
                &&& fighter_at(#[trigger] pre[t], nx, ny)
                &&& forall|j: int| 0 <= j < t ==> !fighter_at(#[trigger] pre[j], nx, ny)
                &&& post.len() == pre.len()
                &&& forall|j: int| 0 <= j < pre.len() && j != 0 && j != t ==> post[j] == pre[j]
                &&& attack_post(pre[0], post[0], pre[t], post[t], g0, g1)
            }
    } else {
        move_by_post(pre, post, gv(g0.grid), 0, dx, dy) && g1 == g0
    }
}

/// Resolves the player's movement command: if the destination holds a
/// combatant, attack it (the first such entity by index); otherwise
/// step there if it is free.
pub fn player_move_or_attack(dx: i32, dy: i32, objects: &mut Vec<Object>, game: &mut Game)
    requires
        old(objects)@.len() >= 1,
        grid_wf(gv(old(game).grid)),
        in_bounds(old(objects)@[0].x as int, old(objects)@[0].y as int),
        !(dx == 0 && dy == 0),
        -3 <= dx <= 3,
        -3 <= dy <= 3,
        old(objects)@[0].fighter is Some,
    ensures
        move_or_attack_post(old(objects)@, final(objects)@, *old(game), *final(game), dx as int, dy as int),
{
    let (x, y) = objects[PLAYER].pos();
    let new_x = x + dx;
    let new_y = y + dy;

    let n = objects.len();
    let mut i: usize = 0;
    let mut target: Option<usize> = Option::None;
    while i < n
        invariant
            i <= n,
            n == objects@.len(),
            target is None ==> forall|j: int|
                0 <= j < i ==> !fighter_at(#[trigger] objects@[j], new_x as int, new_y as int),
            target matches Some(t) ==> 0 <= t < i && fighter_at(
                objects@[t as int],
                new_x as int,
                new_y as int,
            ) && (forall|j: int|
                0 <= j < t ==> !fighter_at(#[trigger] objects@[j], new_x as int, new_y as int)),
        decreases n - i,
    {
        if target.is_none() && objects[i].fighter.is_some() && objects[i].x == new_x
            && objects[i].y == new_y {
            target = Option::Some(i);
        }
        i = i + 1;
    }

    match target {
        Option::Some(target_id) => {
            proof {
                assert(objects@[target_id as int].x == old(objects)@[0].x + dx);
                assert(target_id != 0);
            }
            attack_between(PLAYER, target_id, objects, game);
        },
        Option::None => {
            move_by(PLAYER, dx, dy, &game.grid, objects);
        },
    }
}

/// The player's stat to raise on a level-up.
#[derive(Clone, Copy, Debug, PartialEq, Eq, Structural)]
pub enum StatChoice {
    Constitution,
    Strength,
    Agility,
}

/// Experience needed for the next level: base plus factor times the
/// current level.
pub open spec fn level_threshold(level: int) -> int {
    clamp_i32(LEVEL_UP_BASE + LEVEL_UP_FACTOR * level)
}

/// The experience an entity holds; zero without combat stats.
pub open spec fn xp_of(o: Object) -> int {
    match o.fighter {
        Some(f) => f.xp as int,
        None => 0,
    }
}

/// Computes the experience threshold for the next level-up.
pub fn level_up_xp(level: i32) -> (t: i32)
    ensures
        t as int == level_threshold(level as int),
{
    let t64: i64 = LEVEL_UP_BASE as i64 + LEVEL_UP_FACTOR as i64 * level as i64;
    if t64 > i32::MAX as i64 {
        i32::MAX
    } else if t64 < i32::MIN as i64 {
        i32::MIN
    } else {
        t64 as i32
    }
}

/// Whether the player has banked enough experience to level up.
pub fn needs_level_up(objects: &Vec<Object>) -> (b: bool)
    requires
        objects@.len() >= 1,
    ensures
        b == (xp_of(objects@[0]) >= level_threshold(objects@[0].level as int)),
{
    let threshold = level_up_xp(objects[PLAYER].level);
    let xp: i32 = if let Some(f) = objects[PLAYER].fighter {
        f.xp
    } else {
        0
    };
    xp >= threshold
}

/// Log line announcing a level-up.
pub open spec fn levelup_msg(level: int) -> Seq<char> {
    "You leveled up to "@ + crate::text::dec_rep(level) + "!"@
}

/// If the player has reached the threshold, spends exactly that much
/// experience, raises the level by one, and applies the chosen stat
/// increase; otherwise does nothing.
pub fn apply_level_up(objects: &mut Vec<Object>, game: &mut Game, choice: StatChoice)
    requires
        old(objects)@.len() >= 1,
        xp_of(old(objects)@[0]) >= level_threshold(old(objects)@[0].level as int) ==> old(objects)@[0].fighter is Some,
    ensures
        final(objects)@.len() == old(objects)@.len(),
        forall|j: int| 1 <= j < old(objects)@.len() ==> final(objects)@[j] == old(objects)@[j],
        ({
            let pl = old(objects)@[0];
            let th = level_threshold(pl.level as int);
            if xp_of(pl) >= th {
                let f = pl.fighter.unwrap();
                let new_level = clamp_i32(pl.level + 1);
                &&& final(objects)@[0].level as int == new_level
                &&& (final(objects)@[0].fighter matches Some(g) && g == (match choice {
                    StatChoice::Constitution => Fighter {
                        xp: clamp_i32(f.xp - th) as i32,
                        max_hp: clamp_i32(f.max_hp + 20) as i32,
                        hp: clamp_i32(f.hp + 20) as i32,
                        ..f
                    },
                    StatChoice::Strength => Fighter {
                        xp: clamp_i32(f.xp - th) as i32,
                        base_power: clamp_i32(f.base_power + 1) as i32,
                        ..f
                    },
                    StatChoice::Agility => Fighter {
                        xp: clamp_i32(f.xp - th) as i32,
                        defense: clamp_i32(f.defense + 1) as i32,
                        ..f
                    },
                }))
                &&& final(objects)@[0].x == pl.x && final(objects)@[0].y == pl.y
                &&& final(objects)@[0].glyph == pl.glyph && final(objects)@[0].color == pl.color
                &&& final(objects)@[0].name == pl.name && final(objects)@[0].blocks == pl.blocks
                &&& final(objects)@[0].alive == pl.alive && final(objects)@[0].ai == pl.ai
                &&& final(objects)@[0].item == pl.item && final(objects)@[0].always_visible
                    == pl.always_visible
                &&& final(objects)@[0].equipment == pl.equipment
                &&& log_pushed(*old(game), *final(game), levelup_msg(new_level), col(255, 255, 0))
            } else {
                final(objects)@ == old(objects)@ && *final(game) == *old(game)
            }
        }),
{
    let threshold = level_up_xp(objects[PLAYER].level);
    let xp: i32 = if let Some(f) = objects[PLAYER].fighter {
        f.xp
    } else {
        0
    };
    if xp >= threshold {
        let pl = &mut objects[PLAYER];
        let lvl64: i64 = pl.level as i64 + 1;
        let new_level: i32 = if lvl64 > i32::MAX as i64 {
            i32::MAX
        } else {
            lvl64 as i32
        };
        pl.level = new_level;
        let f = pl.fighter.unwrap();
        let new_xp64: i64 = f.xp as i64 - threshold as i64;
        let new_xp: i32 = if new_xp64 > i32::MAX as i64 {
            i32::MAX
        } else if new_xp64 < i32::MIN as i64 {
            i32::MIN
        } else {
            new_xp64 as i32
        };
        match choice {
            StatChoice::Constitution => {
                let mh64: i64 = f.max_hp as i64 + 20;
                let hp64: i64 = f.hp as i64 + 20;
                pl.fighter = Some(
                    Fighter {
                        xp: new_xp,
                        max_hp: if mh64 > i32::MAX as i64 {
                            i32::MAX
                        } else {
                            mh64 as i32
                        },
                        hp: if hp64 > i32::MAX as i64 {
                            i32::MAX
                        } else {
                            hp64 as i32
                        },
                        ..f
                    },
                );
            },
            StatChoice::Strength => {
                let bp64: i64 = f.base_power as i64 + 1;
                pl.fighter = Some(
                    Fighter {
                        xp: new_xp,
                        base_power: if bp64 > i32::MAX as i64 {
                            i32::MAX
                        } else {
                            bp64 as i32
                        },
                        ..f
                    },
                );
            },
            StatChoice::Agility => {
                let d64: i64 = f.defense as i64 + 1;
                pl.fighter = Some(
                    Fighter {
                        xp: new_xp,
                        defense: if d64 > i32::MAX as i64 {
                            i32::MAX
                        } else {
                            d64 as i32
                        },
                        ..f
                    },
                );
            },
        }
        let mut msg = "You leveled up to ".to_owned();
        let ls = crate::text::fmt_i32(new_level);
        msg.append(ls.as_str());
        msg.append("!");
        proof {
            assert(msg@ =~= levelup_msg(new_level as int));
        }
        log_add(&mut game.log, msg, Color::rgb(255, 255, 0));
        proof {
            assert(game.log@.take(old(game).log@.len() as int) =~= old(game).log@);
        }
    }
}

/// The world invariants that level generation establishes and every
/// tick preserves: player first, everything on the grid, and combat
/// stats behind every AI.
pub open spec fn world_wf(objects: Seq<Object>) -> bool {
    &&& objects.len() >= 1
    &&& positions_in_bounds(objects)
    &&& ai_implies_fighter(objects)
}

/// Level generation leaves every entity on the grid with combat stats
/// behind every AI.
pub proof fn lemma_generated_world_wf(objects: Seq<Object>, rooms: Seq<Rect>, level: u32)
    requires
        objects.len() >= 2,
        rooms.len() >= 1,
        forall|k: int| 0 <= k < rooms.len() ==> crate::mapgen::room_wf(#[trigger] rooms[k]),
        objects[0].x as int == crate::mapgen::rect_center(rooms[0]).0,
        objects[0].y as int == crate::mapgen::rect_center(rooms[0]).1,
        objects[0].ai is None,
        forall|i: int|
            1 <= i < objects.len() - 1 ==> crate::mapgen::placed_in_room(rooms, #[trigger] objects[i], level),
        crate::mapgen::stairs_object(
            objects.last(),
            crate::mapgen::rect_center(rooms.last()).0,
            crate::mapgen::rect_center(rooms.last()).1,
        ),
    ensures
        world_wf(objects),
{
    assert forall|i: int|
        0 <= i < objects.len() implies in_bounds(
        (#[trigger] objects[i]).x as int,
        objects[i].y as int,
    ) by {
        if i == 0 {
            crate::mapgen::lemma_center_in_interior(rooms[0]);
        } else if i == objects.len() - 1 {
            crate::mapgen::lemma_center_in_interior(rooms[rooms.len() - 1]);
        } else {
            let k = choose|k: int|
                0 <= k < rooms.len() && crate::mapgen::room_interior(
                    #[trigger] rooms[k],
                    objects[i].x as int,
                    objects[i].y as int,
                ) && (crate::mapgen::monster_object(
                    objects[i],
                    objects[i].x as int,
                    objects[i].y as int,
                    level,
                ) || crate::mapgen::item_object(objects[i], objects[i].x as int, objects[i].y as int));
            assert(crate::mapgen::room_wf(rooms[k]));
        }
    }
    assert forall|i: int|
        0 <= i < objects.len() && (#[trigger] objects[i]).ai is Some implies objects[i].fighter is Some by {
        if 1 <= i < objects.len() - 1 {
            let k = choose|k: int|
                0 <= k < rooms.len() && crate::mapgen::room_interior(
                    #[trigger] rooms[k],
                    objects[i].x as int,
                    objects[i].y as int,
                ) && (crate::mapgen::monster_object(
                    objects[i],
                    objects[i].x as int,
                    objects[i].y as int,
                    level,
                ) || crate::mapgen::item_object(objects[i], objects[i].x as int, objects[i].y as int));
        }
    }
}

/// Log line greeting a fresh game.
pub open spec fn welcome_msg() -> Seq<char> {
    "Welcome stranger! Be careful of spookies"@
}

/// Starts a fresh game: a newly created player, a generated first
/// level, an empty inventory, and a one-line message feed.
pub fn new_game() -> (r: (Vec<Object>, Game, Ghost<Seq<Rect>>))
    ensures
        ({
            let (objects, game, rooms) = r;
            &&& world_wf(objects@)
            &&& objects@.len() >= 2
            &&& crate::mapgen::player_object(objects@[0])
            &&& objects@[0].ai is None
            &&& crate::mapgen::grid_wf(gv(game.grid))
            &&& game.inventory@.len() == 0
            &&& game.dungeon_level == 1
            &&& game.log@.len() == 1
            &&& game.log@[0].0@ == welcome_msg()
            &&& game.log@[0].1 == col(255, 0, 0)
            &&& crate::mapgen::all_unexplored(gv(game.grid))
            &&& rooms@.len() >= 1
            &&& (forall|k: int| 0 <= k < rooms@.len() ==> crate::mapgen::room_wf(#[trigger] rooms@[k]))
            &&& (forall|i: int, j: int|
                0 <= i < j < rooms@.len() ==> !crate::geometry::rect_overlap(
                    #[trigger] rooms@[i],
                    #[trigger] rooms@[j],
                ))
            &&& (forall|k: int, x: int, y: int|
                0 <= k < rooms@.len() && #[trigger] crate::mapgen::room_interior(rooms@[k], x, y)
                    ==> crate::reach::floor_at(gv(game.grid), x, y))
            &&& objects@[0].x as int == crate::mapgen::rect_center(rooms@[0]).0
            &&& objects@[0].y as int == crate::mapgen::rect_center(rooms@[0]).1
            &&& (forall|i: int|
                1 <= i < objects@.len() - 1 ==> crate::mapgen::placed_in_room(
                    rooms@,
                    #[trigger] objects@[i],
                    1,
                ))
            &&& crate::mapgen::stairs_object(
                objects@.last(),
                crate::mapgen::rect_center(rooms@.last()).0,
                crate::mapgen::rect_center(rooms@.last()).1,
            )
            &&& (forall|k: int, x: int, y: int|
                0 <= k < rooms@.len() && #[trigger] crate::mapgen::room_interior(rooms@[k], x, y)
                    ==> crate::reach::reachable(
                    gv(game.grid),
                    (objects@[0].x as int, objects@[0].y as int),
                    (x, y),
                ))
        }),
{
    let player = crate::mapgen::create_player();
    let mut objects: Vec<Object> = Vec::new();
    objects.push(player);
    let (grid, rooms) = crate::mapgen::make_map(&mut objects, 1);
    let mut log: crate::game::Messages = Vec::new();
    log_add(&mut log, "Welcome stranger! Be careful of spookies".to_owned(), Color::rgb(255, 0, 0));
    let game = Game { grid, log, inventory: Vec::new(), dungeon_level: 1 };
    proof {
        lemma_generated_world_wf(objects@, rooms@, 1);
    }
    (objects, game, rooms)
}

/// Log lines printed on descending the stairs.
pub open spec fn rest_msg() -> Seq<char> {
    "You take a moment to rest, and recover your strength."@
}

pub open spec fn descend_msg() -> Seq<char> {
    "After a rare moment of peace, you descend deeper into the heart of the dungeon..."@
}

/// Full outcome of descending: the player is healed by half of
/// maximum hit points, the depth counter rises by one, and a fresh
/// level replaces grid and entities, with the generator's guarantees
/// over the accepted rooms.
pub open spec fn next_level_post(pre: Seq<Object>, post: Seq<Object>, g0: Game, g1: Game, rooms: Seq<Rect>) -> bool {
    &&& world_wf(post)
    &&& post.len() >= 2
    &&& crate::mapgen::grid_wf(gv(g1.grid))
    &&& crate::mapgen::all_unexplored(gv(g1.grid))
    &&& g1.dungeon_level == g0.dungeon_level + 1
    &&& g1.inventory == g0.inventory
    &&& ({
        let pl = pre[0];
        let healed = (match pl.fighter {
            Some(f) => Some(
                Fighter {
                    hp: (if f.hp + f.max_hp / 2 > f.max_hp {
                        f.max_hp
                    } else {
                        (f.hp + f.max_hp / 2) as i32
                    }),
                    ..f
                },
            ),
            None => None,
        });
        post[0].fighter == healed
    })
    &&& post[0].name == pre[0].name
    &&& post[0].ai == pre[0].ai
    &&& post[0].glyph == pre[0].glyph
    &&& post[0].color == pre[0].color
    &&& post[0].blocks == pre[0].blocks
    &&& post[0].alive == pre[0].alive
    &&& post[0].item == pre[0].item
    &&& post[0].always_visible == pre[0].always_visible
    &&& post[0].level == pre[0].level
    &&& post[0].equipment == pre[0].equipment
    &&& rooms.len() >= 1
    &&& (forall|k: int| 0 <= k < rooms.len() ==> crate::mapgen::room_wf(#[trigger] rooms[k]))
    &&& (forall|i: int, j: int|
        0 <= i < j < rooms.len() ==> !crate::geometry::rect_overlap(
            #[trigger] rooms[i],
            #[trigger] rooms[j],
        ))
    &&& (forall|k: int, x: int, y: int|
        0 <= k < rooms.len() && #[trigger] crate::mapgen::room_interior(rooms[k], x, y)
            ==> crate::reach::floor_at(gv(g1.grid), x, y))
    &&& post[0].x as int == crate::mapgen::rect_center(rooms[0]).0
    &&& post[0].y as int == crate::mapgen::rect_center(rooms[0]).1
    &&& (forall|i: int|
        1 <= i < post.len() - 1 ==> crate::mapgen::placed_in_room(
            rooms,
            #[trigger] post[i],
            g1.dungeon_level,
        ))
    &&& crate::mapgen::stairs_object(
        post.last(),
        crate::mapgen::rect_center(rooms.last()).0,
        crate::mapgen::rect_center(rooms.last()).1,
    )
    &&& (forall|k: int, x: int, y: int|
        0 <= k < rooms.len() && #[trigger] crate::mapgen::room_interior(rooms[k], x, y)
            ==> crate::reach::reachable(gv(g1.grid), (post[0].x as int, post[0].y as int), (x, y)))
    &&& g0.log@.is_prefix_of(g1.log@)
}

/// Descends one level: heals the player by half of maximum hit points,
/// deepens the dungeon counter, and regenerates grid and entities.
pub fn next_level(objects: &mut Vec<Object>, game: &mut Game) -> (rooms: Ghost<Seq<Rect>>)
    requires
        old(objects)@.len() >= 1,
        old(objects)@[0].ai is None,
        (old(objects)@[0].fighter matches Some(f) ==> f.max_hp >= 0),
        old(game).dungeon_level < u32::MAX,
    ensures
        next_level_post(old(objects)@, final(objects)@, *old(game), *final(game), rooms@),
{
    log_add(
        &mut game.log,
        "You take a moment to rest, and recover your strength.".to_owned(),
        Color::rgb(127, 0, 255),
    );
    let heal_hp: i32 = if let Some(f) = objects[PLAYER].fighter {
        f.max_hp / 2
    } else {
        0
    };
    {
        let pl = &mut objects[PLAYER];
        pl.heal(heal_hp);
    }
    log_add(
        &mut game.log,
        "After a rare moment of peace, you descend deeper into the heart of the dungeon...".to_owned(),
        Color::rgb(255, 0, 0),
    );
    game.dungeon_level = game.dungeon_level + 1;
    let (grid, rooms) = crate::mapgen::make_map(objects, game.dungeon_level);
    game.grid = grid;
    proof {
        lemma_generated_world_wf(objects@, rooms@, final(game).dungeon_level);
        assert(game.log@.take(old(game).log@.len() as int) =~= old(game).log@);
    }
    rooms
}

/// One decoded player command per tick. Decoding raw input is the
/// front end's job; anything it does not recognize arrives as
/// `Other`. Interactive sub-prompts (item choice, tile targeting) are
/// resolved by the front end before the command is built.
pub enum Command {
    Move { dx: i32, dy: i32 },
    Pickup,
    UseItem { inventory_id: usize, target: Option<(i32, i32)> },
    DropItem { inventory_id: usize },
    Descend,
    Quit,
    Other,
}

/// An entity named "stairs" stands at (x, y).
pub open spec fn stairs_at(objects: Seq<Object>, x: int, y: int, i: int) -> bool {
    0 <= i < objects.len() && objects[i].name@ == "stairs"@ && objects[i].x == x && objects[i].y
        == y
}

/// Resolves one player command against the world: movement merges with
/// attack, pickup takes the first item underfoot, inventory actions
/// cost no turn, and descending only works on the stairs. The returned
/// classification drives the AI phase: only `TookTurn` lets monsters
/// act, and `Exit` asks the front end to save and quit.
#[verifier::rlimit(30)]
pub fn handle_command(cmd: Command, objects: &mut Vec<Object>, game: &mut Game, fov: &FovGrid) -> (r: PlayerAction)
    requires
        old(objects)@.len() >= 1,
        grid_wf(gv(old(game).grid)),
        fov_wf(fv(*fov)),
        positions_in_bounds(old(objects)@),
        (old(objects)@[0].alive ==> (old(objects)@[0].fighter matches Some(f) && f.on_death
            == DeathCallback::Player && f.max_hp >= 0)),
        old(objects)@[0].ai is None,
        (cmd matches Command::Move { dx, dy } ==> -1 <= dx <= 1 && -1 <= dy <= 1 && !(dx == 0
            && dy == 0)),
        (cmd matches Command::UseItem { inventory_id, target } ==> inventory_id
            < old(game).inventory@.len() && (target matches Some(t) ==> -0x10000 <= t.0 <= 0x10000
            && -0x10000 <= t.1 <= 0x10000)),
        (cmd matches Command::DropItem { inventory_id } ==> inventory_id
            < old(game).inventory@.len()),
        (cmd is Descend ==> old(game).dungeon_level < u32::MAX),
    ensures
        r == (match cmd {
            Command::Quit => PlayerAction::Exit,
            Command::Move { .. } => if old(objects)@[0].alive {
                PlayerAction::TookTurn
            } else {
                PlayerAction::DidntTakeTurn
            },
            Command::Descend => if old(objects)@[0].alive && (exists|i: int|
                stairs_at(old(objects)@, old(objects)@[0].x as int, old(objects)@[0].y as int, i)) {
                PlayerAction::TookTurn
            } else {
                PlayerAction::DidntTakeTurn
            },
            _ => PlayerAction::DidntTakeTurn,
        }),
        ({
            let pre = old(objects)@;
            let alive = pre[0].alive;
            match cmd {
                Command::Move { dx, dy } => if alive {
                    move_or_attack_post(pre, final(objects)@, *old(game), *final(game), dx as int, dy as int)
                } else {
                    final(objects)@ == pre && *final(game) == *old(game)
                },
                Command::Pickup => if alive {
                    if exists|i: int|
                        0 <= i < pre.len() && (#[trigger] pre[i]).item is Some && pre[i].x == pre[0].x
                            && pre[i].y == pre[0].y {
                        exists|i: int|
                            {
                                &&& 0 <= i < pre.len()
                                &&& (#[trigger] pre[i]).item is Some
                                &&& pre[i].x == pre[0].x && pre[i].y == pre[0].y
                                &&& (forall|j: int|
                                    0 <= j < i ==> !((#[trigger] pre[j]).item is Some && pre[j].x
                                        == pre[0].x && pre[j].y == pre[0].y))
                                &&& crate::inventory::pick_item_up_post(
                                    i,
                                    pre,
                                    final(objects)@,
                                    *old(game),
                                    *final(game),
                                )
                            }
                    } else {
                        final(objects)@ == pre && *final(game) == *old(game)
                    }
                } else {
                    final(objects)@ == pre && *final(game) == *old(game)
                },
                Command::UseItem { inventory_id, target } => if alive {
                    crate::inventory::use_item_post(
                        inventory_id as int,
                        pre,
                        final(objects)@,
                        fv(*fov),
                        target,
                        *old(game),
                        *final(game),
                    )
                } else {
                    final(objects)@ == pre && *final(game) == *old(game)
                },
                Command::DropItem { inventory_id } => if alive {
                    crate::inventory::drop_item_post(
                        inventory_id as int,
                        pre,
                        final(objects)@,
                        *old(game),
                        *final(game),
                    )
                } else {
                    final(objects)@ == pre && *final(game) == *old(game)
                },
                Command::Descend => if alive {
                    if exists|i: int| stairs_at(pre, pre[0].x as int, pre[0].y as int, i) {
                        exists|rooms: Seq<Rect>|
                            #[trigger] next_level_post(
                                pre,
                                final(objects)@,
                                *old(game),
                                *final(game),
                                rooms,
                            )
                    } else {
                        final(objects)@ == pre && *final(game) == *old(game)
                    }
                } else {
                    final(objects)@ == pre && *final(game) == *old(game)
                },
                _ => final(objects)@ == pre && *final(game) == *old(game),
            }
        }),
{
    let player_alive = objects[PLAYER].alive;
    match cmd {
        Command::Quit => PlayerAction::Exit,
        Command::Move { dx, dy } => {
            if player_alive {
                player_move_or_attack(dx, dy, objects, game);
                PlayerAction::TookTurn
            } else {
                PlayerAction::DidntTakeTurn
            }
        },
        Command::Pickup => {
            if player_alive {
                let (px, py) = objects[PLAYER].pos();
                let n = objects.len();
                let mut i: usize = 0;
                let mut found: Option<usize> = Option::None;
                while i < n
                    invariant
                        i <= n,
                        n == objects@.len(),
                        found is None ==> forall|j: int|
                            0 <= j < i ==> !((#[trigger] objects@[j]).item is Some && objects@[j].x
                                == px && objects@[j].y == py),
                        found matches Some(t) ==> 0 <= t < i && (objects@[t as int].item is Some
                            && objects@[t as int].x == px && objects@[t as int].y == py) && (
                        forall|j: int|
                            0 <= j < t ==> !((#[trigger] objects@[j]).item is Some && objects@[j].x
                                == px && objects@[j].y == py)),
                    decreases n - i,
                {
                    if found.is_none() && objects[i].item.is_some() && objects[i].x == px
                        && objects[i].y == py {
                        found = Option::Some(i);
                    }
                    i = i + 1;
                }
                if let Option::Some(item_id) = found {
                    crate::inventory::pick_item_up(item_id, objects, game);
                }
            }
            PlayerAction::DidntTakeTurn
        },
        Command::UseItem { inventory_id, target } => {
            if player_alive {
                crate::inventory::use_item(inventory_id, objects, game, fov, target);
            }
            PlayerAction::DidntTakeTurn
        },
        Command::DropItem { inventory_id } => {
            if player_alive {
                crate::inventory::drop_item(inventory_id, objects, game);
            }
            PlayerAction::DidntTakeTurn
        },
        Command::Descend => {
            if player_alive {
                let (px, py) = objects[PLAYER].pos();
                let stairs_name: String = "stairs".to_owned();
                let n = objects.len();
                let mut i: usize = 0;
                let mut on_stairs = false;
                while i < n
                    invariant
                        i <= n,
                        n == objects@.len(),
                        on_stairs ==> exists|j: int| stairs_at(objects@, px as int, py as int, j),
                        !on_stairs ==> forall|j: int|
                            0 <= j < i ==> !stairs_at(objects@, px as int, py as int, j),
                        stairs_name@ == "stairs"@,
                    decreases n - i,
                {
                    if objects[i].name.eq(&stairs_name) && objects[i].x == px && objects[i].y == py {
                        on_stairs = true;
                        proof {
                            assert(stairs_at(objects@, px as int, py as int, i as int));
                        }
                    }
                    i = i + 1;
                }
                if on_stairs {
                    let _rooms = next_level(objects, game);
                    return PlayerAction::TookTurn;
                }
            }
            PlayerAction::DidntTakeTurn
        },
        _ => PlayerAction::DidntTakeTurn,
    }
}

} // verus!
