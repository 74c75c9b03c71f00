use vstd::prelude::*;
use vstd::pervasive::VecAdditionalExecFns;
use crate::structs::{green, log_of, red, rgb, white, Ai, Game, Object, PlayerAction, TileMap};
use crate::combat::{attack_fits, attacked, logged};
use crate::text::{
    inventory_full_message, inventory_full_text, picked_up_message, picked_up_text, unconfused_message,
    unconfused_text,
};
use crate::dungeon::{blocked_at, is_blocked, occupied};

verus! {

/// The player's index in the entity list.
pub const PLAYER: usize = 0;

/// Coordinates on the map fit in `i32`.
pub open spec fn map_fits_i32(map: TileMap) -> bool {
    &&& map@.len() <= i32::MAX
    &&& forall|x: int| 0 <= x < map@.len() ==> (#[trigger] map@[x])@.len() <= i32::MAX
}

/// `o` moved to `(x, y)`, nothing else changed.
pub open spec fn moved_to(o: Object, x: int, y: int) -> Object {
    Object { x: x as i32, y: y as i32, ..o }
}

/// The entity list after entity `id` tries to step by `(dx, dy)`: it moves
/// when the destination is not blocked, and nothing changes otherwise.
pub open spec fn after_step(map: TileMap, objects: Seq<Object>, id: int, dx: int, dy: int) -> Seq<Object> {
    let o = objects[id];
    if blocked_at(map, objects, o.x + dx, o.y + dy) {
        objects
    } else {
        objects.update(id, moved_to(o, o.x + dx, o.y + dy))
    }
}

/// Moves entity `id` by `(dx, dy)` unless the destination is blocked;
/// returns whether it moved.
pub fn move_by(id: usize, dx: i32, dy: i32, map: &TileMap, objects: &mut Vec<Object>) -> (moved: bool)
    requires
        id < old(objects)@.len(),
        map_fits_i32(*map),
    ensures
        final(objects)@ == after_step(*map, old(objects)@, id as int, dx as int, dy as int),
        moved == !blocked_at(*map, old(objects)@, old(objects)@[id as int].x + dx, old(objects)@[id as int].y + dy),
{
    let nx = objects[id].x as i64 + dx as i64;
    let ny = objects[id].y as i64 + dy as i64;
    if nx < 0 || ny < 0 || nx > i32::MAX as i64 || ny > i32::MAX as i64 {
        return false;
    }
    if is_blocked(nx as i32, ny as i32, map, objects) {
        return false;
    }
    let ghost before = objects@;
    objects[id].set_pos(nx as i32, ny as i32);
    assert(objects@ =~= before.update(id as int, moved_to(before[id as int], nx as int, ny as int)));
    true
}

pub open spec fn sign(d: int) -> int {
    if d > 0 { 1 } else if d < 0 { -1 } else { 0 }
}

/// One axis of the unit vector along `(d, other)`, rounded to the nearest
/// integer: the sign of `d` when `|d| / |(d, other)| >= 1/2`, else zero.
pub open spec fn unit_step(d: int, other: int) -> int {
    if 3 * (d * d) >= other * other { sign(d) } else { 0 }
}

fn square(v: i64) -> (r: i128)
    requires
        -0x1_0000_0000 <= v <= 0x1_0000_0000,
    ensures
        r == v * v,
        0 <= r <= 0x1_0000_0000_0000_0000,
{
    proof {
        assert(0 <= v * v <= 0x1_0000_0000_0000_0000) by (nonlinear_arith)
            requires -0x1_0000_0000 <= v <= 0x1_0000_0000;
    }
    (v as i128) * (v as i128)
}

fn step_along(d: i64, other: i64) -> (s: i32)
    requires
        -0x1_0000_0000 <= d <= 0x1_0000_0000,
        -0x1_0000_0000 <= other <= 0x1_0000_0000,
    ensures
        s == unit_step(d as int, other as int),
{
    let dd = square(d);
    let oo = square(other);
    if 3 * dd >= oo {
        if d > 0 { 1 } else if d < 0 { -1 } else { 0 }
    } else {
        0
    }
}

/// Squared distance between two cells.
pub open spec fn dist_sq(x1: int, y1: int, x2: int, y2: int) -> int {
    (x2 - x1) * (x2 - x1) + (y2 - y1) * (y2 - y1)
}

/// Moves entity `id` one step toward `(target_x, target_y)`, along the
/// rounded unit vector, unless that cell is blocked.
pub fn move_towards(id: usize, target_x: i32, target_y: i32, map: &TileMap, objects: &mut Vec<Object>)
    requires
        id < old(objects)@.len(),
        map_fits_i32(*map),
    ensures
        ({
            let o = old(objects)@[id as int];
            let dx = target_x - o.x;
            let dy = target_y - o.y;
            final(objects)@ == after_step(*map, old(objects)@, id as int, unit_step(dx, dy), unit_step(dy, dx))
        }),
{
    let dx = target_x as i64 - objects[id].x as i64;
    let dy = target_y as i64 - objects[id].y as i64;
    let sx = step_along(dx, dy);
    let sy = step_along(dy, dx);
    move_by(id, sx, sy, map, objects);
}

impl Object {
    /// Squared distance to another object.
    pub fn distance_sq_to(&self, other: &Object) -> (d: i128)
        ensures
            d == dist_sq(self.x as int, self.y as int, other.x as int, other.y as int),
    {
        self.distance_sq(other.x, other.y)
    }

    /// Squared distance to `(x, y)`.
    pub fn distance_sq(&self, x: i32, y: i32) -> (d: i128)
        ensures
            d == dist_sq(self.x as int, self.y as int, x as int, y as int),
    {
        let dx = square(x as i64 - self.x as i64);
        let dy = square(y as i64 - self.y as i64);
        dx + dy
    }
}

/// Entity `attacker` strikes entity `target`, two distinct slots of the list.
pub fn attack_by_index(attacker: usize, target: usize, game: &mut Game, objects: &mut Vec<Object>)
    requires
        attacker < old(objects)@.len(),
        target < old(objects)@.len(),
        attacker != target,
        attack_fits(old(objects)@[attacker as int], old(objects)@[target as int]),
    ensures
        final(objects)@.len() == old(objects)@.len(),
        forall|i: int| 0 <= i < old(objects)@.len() && i != target ==> final(objects)@[i] == old(objects)@[i],
        attacked(old(objects)@[attacker as int], old(objects)@[target as int], final(objects)@[target as int], old(game), final(game)),
{
    let ghost o0 = objects@;
    let mut striker = Object::new(0, 0, ' ', "", white(), false);
    objects.set_and_swap(attacker, &mut striker);
    let ghost o1 = objects@;
    striker.attack(&mut objects[target], game);
    let ghost o2 = objects@;
    objects.set_and_swap(attacker, &mut striker);
    assert forall|i: int| 0 <= i < o0.len() && i != target implies objects@[i] == o0[i] by {
        if i != attacker {
            assert(o1[i] == o0[i]);
            assert(o2[i] == o1[i]);
        }
    }
}

/// Whether the visibility grid `fov`, indexed `fov[x][y]`, shows `(x, y)`;
/// cells outside it are not visible.
pub open spec fn visible_at(fov: Seq<Vec<bool>>, x: int, y: int) -> bool {
    0 <= x < fov.len() && 0 <= y < fov[x]@.len() && fov[x]@[y]
}

fn is_visible(fov: &Vec<Vec<bool>>, x: i32, y: i32) -> (b: bool)
    ensures
        b == visible_at(fov@, x as int, y as int),
{
    if x < 0 || y < 0 || x as usize >= fov.len() || y as usize >= fov[x as usize].len() {
        false
    } else {
        fov[x as usize][y as usize]
    }
}

/// Bound on power and defense that keeps every strike's damage, and the hit
/// points it leaves, inside `i32`.
pub const COMBAT_BOUND: i32 = 0x2000_0000;

pub open spec fn bounded_fighter(o: Object) -> bool {
    match o.fighter {
        Some(f) => {
            &&& -COMBAT_BOUND <= f.power <= COMBAT_BOUND
            &&& -COMBAT_BOUND <= f.defense <= COMBAT_BOUND
            &&& f.hp >= -2 * COMBAT_BOUND
        },
        None => true,
    }
}

/// Every fighter in the list is within the combat bounds.
pub open spec fn combat_bounded(objects: Seq<Object>) -> bool {
    forall|i: int| 0 <= i < objects.len() ==> bounded_fighter(#[trigger] objects[i])
}

/// A fighter with hit points left.
pub open spec fn has_hp(o: Object) -> bool {
    o.fighter is Some && o.fighter.unwrap().hp > 0
}

/// One turn of the chasing behaviour for entity `id`: when it is visible it
/// steps toward the player while not adjacent (squared distance 4 or more),
/// and strikes the player once adjacent if the player still has hit points.
pub open spec fn basic_turn(
    fov: Seq<Vec<bool>>,
    o0: Seq<Object>,
    id: int,
    o1: Seq<Object>,
    g0: &Game,
    g1: &Game,
) -> bool {
    let m = o0[id];
    let p = o0[0];
    if !visible_at(fov, m.x as int, m.y as int) {
        o1 == o0 && *g1 == *g0
    } else if dist_sq(m.x as int, m.y as int, p.x as int, p.y as int) >= 4 {
        &&& o1 == after_step(g0.map, o0, id, unit_step(p.x - m.x, p.y - m.y), unit_step(p.y - m.y, p.x - m.x))
        &&& *g1 == *g0
    } else if has_hp(p) {
        &&& o1.len() == o0.len()
        &&& forall|i: int| 1 <= i < o0.len() ==> o1[i] == o0[i]
        &&& attacked(m, p, o1[0], g0, g1)
    } else {
        o1 == o0 && *g1 == *g0
    }
}

proof fn lemma_strike_keeps_bounds(a: Object, t0: Object, t1: Object, g0: &Game, g1: &Game)
    requires
        bounded_fighter(a),
        bounded_fighter(t0),
        has_hp(t0),
        attacked(a, t0, t1, g0, g1),
    ensures
        bounded_fighter(t1),
{
}

pub fn ai_basic(monster_id: usize, fov: &Vec<Vec<bool>>, game: &mut Game, objects: &mut Vec<Object>)
    requires
        0 < monster_id < old(objects)@.len(),
        map_fits_i32(old(game).map),
        combat_bounded(old(objects)@),
    ensures
        basic_turn(fov@, old(objects)@, monster_id as int, final(objects)@, old(game), final(game)),
        combat_bounded(final(objects)@),
{
    let ghost o0 = objects@;
    let (mx, my) = objects[monster_id].pos();
    if is_visible(fov, mx, my) {
        if objects[monster_id].distance_sq_to(&objects[PLAYER]) >= 4 {
            let (px, py) = objects[PLAYER].pos();
            move_towards(monster_id, px, py, &game.map, objects);
            proof {
                assert forall|i: int| 0 <= i < objects@.len() implies bounded_fighter(#[trigger] objects@[i]) by {
                    assert(bounded_fighter(o0[i]));
                }
            }
        } else {
            let alive_target = match objects[PLAYER].fighter {
                Some(f) => f.hp > 0,
                None => false,
            };
            if alive_target {
                proof {
                    assert(bounded_fighter(o0[monster_id as int]));
                    assert(bounded_fighter(o0[0]));
                }
                attack_by_index(monster_id, PLAYER, game, objects);
                proof {
                    lemma_strike_keeps_bounds(o0[monster_id as int], o0[0], objects@[0], old(game), game);
                    assert forall|i: int| 0 <= i < objects@.len() implies bounded_fighter(#[trigger] objects@[i]) by {
                        if i != 0 {
                            assert(objects@[i] == o0[i]);
                        }
                    }
                }
            }
        }
    }
}

/// The behaviour that follows one confused turn that started with `n` turns left.
pub open spec fn after_confusion(previous_ai: Box<Ai>, n: i32) -> Ai {
    if n <= 1 {
        *previous_ai
    } else {
        Ai::Confused { previous_ai, num_turns: (n - 1) as i32 }
    }
}

/// Blocking, position and count are all that movement looks at.
pub open spec fn same_footprint(a: Seq<Object>, b: Seq<Object>) -> bool {
    &&& a.len() == b.len()
    &&& forall|k: int| 0 <= k < a.len() ==> (#[trigger] a[k]).blocks == b[k].blocks && a[k].x == b[k].x && a[k].y == b[k].y
}

proof fn lemma_same_footprint_blocked(map: TileMap, a: Seq<Object>, b: Seq<Object>, x: int, y: int)
    requires
        same_footprint(a, b),
    ensures
        blocked_at(map, a, x, y) == blocked_at(map, b, x, y),
{
    if occupied(a, x, y) {
        let k = choose|k: int| 0 <= k < a.len() && #[trigger] a[k].blocks && a[k].x == x && a[k].y == y;
        assert(b[k].blocks);
    }
    if occupied(b, x, y) {
        let k = choose|k: int| 0 <= k < b.len() && #[trigger] b[k].blocks && b[k].x == x && b[k].y == y;
        assert(a[k].blocks);
    }
}

/// The entity list and game after one AI turn of entity `id`, whose step
/// while confused would be `step`. Dead entities and those without an AI do
/// nothing. A confused one tries the step, then counts down; on its last
/// confused turn it gets its previous behaviour back and a message says so.
pub open spec fn ai_turn(
    fov: Seq<Vec<bool>>,
    step: (i32, i32),
    o0: Seq<Object>,
    id: int,
    o1: Seq<Object>,
    g0: &Game,
    g1: &Game,
) -> bool {
    let m = o0[id];
    if !m.alive || m.ai is None {
        o1 == o0 && *g1 == *g0
    } else {
        match m.ai.unwrap() {
            Ai::Basic => basic_turn(fov, o0, id, o1, g0, g1),
            Ai::Confused { previous_ai, num_turns } => {
                let moved = after_step(g0.map, o0, id, step.0 as int, step.1 as int);
                &&& o1 == moved.update(id, Object { ai: Some(after_confusion(previous_ai, num_turns)), ..moved[id] })
                &&& if num_turns <= 1 {
                    logged(g0, g1, seq![(unconfused_text(m.name@), rgb(255, 0, 0))])
                } else {
                    *g1 == *g0
                }
            },
        }
    }
}

/// Runs one turn of entity `monster_id`'s behaviour.
pub fn ai_take_turn(
    monster_id: usize,
    fov: &Vec<Vec<bool>>,
    step: (i32, i32),
    game: &mut Game,
    objects: &mut Vec<Object>,
)
    requires
        0 < monster_id < old(objects)@.len(),
        map_fits_i32(old(game).map),
        combat_bounded(old(objects)@),
    ensures
        ai_turn(fov@, step, old(objects)@, monster_id as int, final(objects)@, old(game), final(game)),
        combat_bounded(final(objects)@),
{
    if !objects[monster_id].alive {
        return;
    }
    let basic = match &objects[monster_id].ai {
        Some(Ai::Basic) => true,
        _ => false,
    };
    if basic {
        ai_basic(monster_id, fov, game, objects);
        return;
    }
    let ghost o0 = objects@;
    let ai = objects[monster_id].ai.take();
    match ai {
        None => {
            assert(objects@[monster_id as int] == o0[monster_id as int]);
            assert(objects@ =~= o0);
        },
        Some(Ai::Basic) => {},
        Some(Ai::Confused { previous_ai, num_turns }) => {
            let ghost taken = objects@;
            proof {
                assert(same_footprint(taken, o0));
                lemma_same_footprint_blocked(
                    game.map,
                    taken,
                    o0,
                    o0[monster_id as int].x + step.0,
                    o0[monster_id as int].y + step.1,
                );
            }
            move_by(monster_id, step.0, step.1, &game.map, objects);
            let ghost g0 = *game;
            let next = if num_turns <= 1 {
                let text = unconfused_message(&objects[monster_id].name);
                game.messages.add(text, red());
                assert(log_of(&game.messages) =~= log_of(&g0.messages) + seq![(unconfused_text(o0[monster_id as int].name@), rgb(255, 0, 0))]);
                *previous_ai
            } else {
                Ai::Confused { previous_ai, num_turns: num_turns - 1 }
            };
            objects[monster_id].ai = Some(next);
            proof {
                let moved = after_step(game.map, o0, monster_id as int, step.0 as int, step.1 as int);
                assert(objects@ =~= moved.update(
                    monster_id as int,
                    Object { ai: Some(after_confusion(previous_ai, num_turns)), ..moved[monster_id as int] },
                ));
                assert forall|i: int| 0 <= i < objects@.len() implies bounded_fighter(#[trigger] objects@[i]) by {
                    assert(bounded_fighter(o0[i]));
                }
            }
        },
    }
}

/// Whether entity `i` acts in the AI phase of a turn.
pub open spec fn acts(o: Object) -> bool {
    o.alive && o.ai is Some
}

/// What the AI phase of a turn keeps: the list's length, the map and the
/// inventory, the combat bounds, and every entity after the player that does
/// not act.
pub open spec fn ai_phase(o0: Seq<Object>, o1: Seq<Object>, g0: &Game, g1: &Game) -> bool {
    &&& o1.len() == o0.len()
    &&& g1.map == g0.map
    &&& g1.inventory == g0.inventory
    &&& combat_bounded(o1)
    &&& forall|i: int| 1 <= i < o0.len() && !acts(o0[i]) ==> o1[i] == o0[i]
}

/// `os[i]` and `gs[i]` are the entity list and game before entity `i` acts,
/// for the entities `1 <= i < upto`, each following from the one before by
/// one AI turn.
pub open spec fn ai_chain_upto(fov: Seq<Vec<bool>>, steps: Seq<(i32, i32)>, os: Seq<Seq<Object>>, gs: Seq<Game>, upto: int) -> bool {
    &&& os.len() == upto + 1
    &&& gs.len() == upto + 1
    &&& forall|i: int| 1 <= i < upto ==> #[trigger] ai_turn(fov, steps[i], os[i], i, os[i + 1], &gs[i], &gs[i + 1])
}

/// The AI phase from `(o0, g0)` to `(o1, g1)` through the states `os`, `gs`:
/// entity 1 acts first, then entity 2, and so on to the end of the list.
pub open spec fn ai_chain(
    fov: Seq<Vec<bool>>,
    steps: Seq<(i32, i32)>,
    os: Seq<Seq<Object>>,
    gs: Seq<Game>,
    o0: Seq<Object>,
    g0: Game,
    o1: Seq<Object>,
    g1: Game,
) -> bool {
    &&& ai_chain_upto(fov, steps, os, gs, o0.len() as int)
    &&& os[1] == o0 && gs[1] == g0
    &&& os[o0.len() as int] == o1 && gs[o0.len() as int] == g1
}

/// `(o1, g1)` follows from `(o0, g0)` by one AI turn of every entity after
/// the player, in list order (see `ai_turn`; dead entities and those without
/// an AI do nothing).
pub open spec fn ai_turns_from(
    fov: Seq<Vec<bool>>,
    steps: Seq<(i32, i32)>,
    o0: Seq<Object>,
    g0: Game,
    o1: Seq<Object>,
    g1: Game,
) -> bool {
    exists|os: Seq<Seq<Object>>, gs: Seq<Game>| #[trigger] ai_chain(fov, steps, os, gs, o0, g0, o1, g1)
}

/// Runs one AI step for every entity after the player that is alive and has
/// an AI, in list order; `steps[i]` is the step entity `i` tries if confused.
pub fn run_ai_turns(fov: &Vec<Vec<bool>>, steps: &Vec<(i32, i32)>, game: &mut Game, objects: &mut Vec<Object>)
    requires
        old(objects)@.len() >= 1,
        steps@.len() == old(objects)@.len(),
        map_fits_i32(old(game).map),
        combat_bounded(old(objects)@),
    ensures
        ai_phase(old(objects)@, final(objects)@, old(game), final(game)),
        ai_turns_from(fov@, steps@, old(objects)@, *old(game), final(objects)@, *final(game)),
{
    let ghost mut os: Seq<Seq<Object>> = seq![objects@, objects@];
    let ghost mut gs: Seq<Game> = seq![*game, *game];
    let mut id: usize = 1;
    while id < objects.len()
        invariant
            1 <= id <= objects@.len(),
            ai_chain_upto(fov@, steps@, os, gs, id as int),
            os[1] == old(objects)@,
            gs[1] == *old(game),
            os[id as int] == objects@,
            gs[id as int] == *game,
            objects@.len() == old(objects)@.len(),
            steps@.len() == objects@.len(),
            game.map == old(game).map,
            game.inventory == old(game).inventory,
            map_fits_i32(game.map),
            combat_bounded(objects@),
            forall|i: int| id <= i < objects@.len() ==> objects@[i] == old(objects)@[i],
            forall|i: int| 1 <= i < objects@.len() && !acts(old(objects)@[i]) ==> objects@[i] == old(objects)@[i],
        decreases objects@.len() - id,
    {
        let ghost o0 = objects@;
        let ghost g0 = *game;
        let acting = objects[id].alive && objects[id].ai.is_some();
        if acting {
            ai_take_turn(id, fov, steps[id], game, objects);
            proof {
                assert forall|i: int| 1 <= i < objects@.len() && i != id implies objects@[i] == o0[i] by {
                    let m = o0[id as int];
                    match m.ai.unwrap() {
                        Ai::Basic => {},
                        Ai::Confused { previous_ai, num_turns } => {},
                    }
                }
            }
        }
        proof {
            let os0 = os;
            let gs0 = gs;
            os = os.push(objects@);
            gs = gs.push(*game);
            assert forall|i: int| 1 <= i < id + 1 implies #[trigger] ai_turn(fov@, steps@[i], os[i], i, os[i + 1], &gs[i], &gs[i + 1]) by {
                if i < id {
                    assert(os[i] == os0[i] && os[i + 1] == os0[i + 1]);
                    assert(gs[i] == gs0[i] && gs[i + 1] == gs0[i + 1]);
                    assert(ai_turn(fov@, steps@[i], os0[i], i, os0[i + 1], &gs0[i], &gs0[i + 1]));
                } else {
                    assert(os[i] == o0 && os[i + 1] == objects@);
                }
            }
        }
        id += 1;
    }
    assert(ai_chain(fov@, steps@, os, gs, old(objects)@, *old(game), objects@, *game));
}

/// Whether `o` is something the player strikes by walking into `(x, y)`.
pub open spec fn strike_target(o: Object, x: int, y: int) -> bool {
    o.blocks && o.fighter is Some && o.x == x && o.y == y
}

/// The first entity after the player that the player would strike at `(x, y)`.
pub open spec fn first_target(objects: Seq<Object>, x: int, y: int, j: int) -> bool {
    &&& 1 <= j < objects.len()
    &&& strike_target(objects[j], x, y)
    &&& forall|k: int| 1 <= k < j ==> !strike_target(#[trigger] objects[k], x, y)
}

/// The outcome of the player walking by `(dx, dy)`: the first blocking
/// fighter on the destination is struck, else the player moves there unless it
/// is blocked. Only a strike or a move takes the turn.
pub open spec fn move_or_attack(
    dx: int,
    dy: int,
    o0: Seq<Object>,
    o1: Seq<Object>,
    g0: &Game,
    g1: &Game,
    action: PlayerAction,
) -> bool {
    let p = o0[0];
    let x = p.x + dx;
    let y = p.y + dy;
    if exists|j: int| first_target(o0, x, y, j) {
        &&& action == PlayerAction::TookTurn
        &&& exists|j: int| #[trigger] first_target(o0, x, y, j)
            && o1.len() == o0.len()
            && (forall|i: int| 0 <= i < o0.len() && i != j ==> o1[i] == o0[i])
            && attacked(p, o0[j], o1[j], g0, g1)
    } else {
        &&& *g1 == *g0
        &&& o1 == after_step(g0.map, o0, 0, dx, dy)
        &&& action == if blocked_at(g0.map, o0, x, y) {
            PlayerAction::DidntTakeTurn
        } else {
            PlayerAction::TookTurn
        }
    }
}

/// The strike that a walk by `(dx, dy)` would make, if any, fits in `i32`.
pub open spec fn strike_fits(o0: Seq<Object>, dx: int, dy: int) -> bool {
    forall|j: int| #[trigger] first_target(o0, o0[0].x + dx, o0[0].y + dy, j) ==> attack_fits(o0[0], o0[j])
}

/// Checks `strike_fits`.
pub fn move_strike_fits(dx: i32, dy: i32, objects: &Vec<Object>) -> (b: bool)
    requires
        objects@.len() >= 1,
    ensures
        b == strike_fits(objects@, dx as int, dy as int),
{
    let x = objects[PLAYER].x as i64 + dx as i64;
    let y = objects[PLAYER].y as i64 + dy as i64;
    let mut j: usize = 1;
    while j < objects.len()
        invariant
            1 <= j <= objects@.len(),
            x == objects@[0].x + dx,
            y == objects@[0].y + dy,
            forall|k: int| 1 <= k < j ==> !strike_target(#[trigger] objects@[k], x as int, y as int),
        decreases objects@.len() - j,
    {
        let o = &objects[j];
        if o.blocks && o.fighter.is_some() && o.x as i64 == x && o.y as i64 == y {
            let power: i64 = match objects[PLAYER].fighter {
                Some(f) => f.power as i64,
                None => 0,
            };
            let target = o.fighter.unwrap();
            let damage = power - target.defense as i64;
            let fits = i32::MIN as i64 <= damage && damage <= i32::MAX as i64
                && (damage <= 0 || target.hp as i64 - damage >= i32::MIN as i64);
            proof {
                assert(first_target(objects@, x as int, y as int, j as int));
                assert forall|k: int| #[trigger] first_target(objects@, x as int, y as int, k) implies k == j by {
                    if k < j {
                        assert(!strike_target(objects@[k], x as int, y as int));
                    } else if k > j {
                        assert(!strike_target(objects@[j as int], x as int, y as int));
                    }
                }
                assert(fits == attack_fits(objects@[0], objects@[j as int]));
                assert(fits == strike_fits(objects@, dx as int, dy as int)) by {
                    if fits {
                        assert forall|k: int| #[trigger] first_target(objects@, objects@[0].x + dx, objects@[0].y + dy, k)
                            implies attack_fits(objects@[0], objects@[k]) by {
                            assert(first_target(objects@, x as int, y as int, k));
                        }
                    } else {
                        assert(first_target(objects@, objects@[0].x + dx, objects@[0].y + dy, j as int));
                    }
                }
            }
            return fits;
        }
        j += 1;
    }
    proof {
        assert forall|k: int| #[trigger] first_target(objects@, x as int, y as int, k) implies attack_fits(objects@[0], objects@[k]) by {
            assert(!strike_target(objects@[k], x as int, y as int));
        }
    }
    true
}

/// Whether the strike that `intent` may make fits in `i32`.
pub open spec fn intent_fits(intent: PlayerIntent, o0: Seq<Object>) -> bool {
    match intent {
        PlayerIntent::Move { dx, dy } => strike_fits(o0, dx as int, dy as int),
        _ => true,
    }
}

/// Moves the player by `(dx, dy)`, or strikes the first blocking fighter on
/// the destination instead. A strike or a move takes the turn; a move into a
/// blocked cell changes nothing and does not.
pub fn player_move_or_attack(dx: i32, dy: i32, game: &mut Game, objects: &mut Vec<Object>) -> (action: PlayerAction)
    requires
        old(objects)@.len() >= 1,
        map_fits_i32(old(game).map),
        strike_fits(old(objects)@, dx as int, dy as int),
    ensures
        move_or_attack(dx as int, dy as int, old(objects)@, final(objects)@, old(game), final(game), action),
{
    let x = objects[PLAYER].x as i64 + dx as i64;
    let y = objects[PLAYER].y as i64 + dy as i64;
    let mut target: usize = 0;
    let mut j: usize = 1;
    while j < objects.len()
        invariant
            1 <= j <= objects@.len(),
            target == 0 || first_target(objects@, x as int, y as int, target as int),
            target == 0 ==> forall|k: int| 1 <= k < j ==> !strike_target(#[trigger] objects@[k], x as int, y as int),
        decreases objects@.len() - j,
    {
        if target == 0 && objects[j].blocks && objects[j].fighter.is_some() && objects[j].x as i64 == x
            && objects[j].y as i64 == y {
            target = j;
        }
        j += 1;
    }
    if target != 0 {
        attack_by_index(PLAYER, target, game, objects);
        PlayerAction::TookTurn
    } else {
        proof {
            assert forall|j: int| !first_target(old(objects)@, x as int, y as int, j) by {
                if 1 <= j < objects@.len() && strike_target(objects@[j], x as int, y as int) {
                    assert(!strike_target(objects@[j], x as int, y as int));
                }
            }
        }
        if move_by(PLAYER, dx, dy, &game.map, objects) {
            PlayerAction::TookTurn
        } else {
            PlayerAction::DidntTakeTurn
        }
    }
}

/// Most items the inventory holds.
pub const INVENTORY_CAPACITY: usize = 26;

/// The outcome of picking up entity `j`: with room in the inventory it moves
/// there, the list's last entity taking its slot; otherwise a message says
/// that the inventory is full.
pub open spec fn picked_up(j: int, o0: Seq<Object>, o1: Seq<Object>, g0: &Game, g1: &Game) -> bool {
    if g0.inventory@.len() >= INVENTORY_CAPACITY {
        &&& o1 == o0
        &&& logged(g0, g1, seq![(inventory_full_text(o0[j].name@), rgb(255, 0, 0))])
    } else {
        &&& o1 == o0.update(j, o0[o0.len() - 1]).drop_last()
        &&& g1.inventory@ == g0.inventory@.push(o0[j])
        &&& g1.map == g0.map
        &&& log_of(&g1.messages) == log_of(&g0.messages).push((picked_up_text(o0[j].name@), rgb(0, 255, 0)))
    }
}

/// Moves entity `object_id` from the floor into the inventory, the list's
/// last entity taking its slot; with a full inventory only a message says so.
pub fn pick_item_up(object_id: usize, game: &mut Game, objects: &mut Vec<Object>)
    requires
        object_id < old(objects)@.len(),
    ensures
        picked_up(object_id as int, old(objects)@, final(objects)@, old(game), final(game)),
{
    if game.inventory.len() >= INVENTORY_CAPACITY {
        let ghost g0 = *game;
        let text = inventory_full_message(&objects[object_id].name);
        game.messages.add(text, red());
        assert(log_of(&game.messages) =~= log_of(&g0.messages) + seq![(inventory_full_text(objects@[object_id as int].name@), rgb(255, 0, 0))]);
    } else {
        let item = objects.swap_remove(object_id);
        let text = picked_up_message(&item.name);
        game.messages.add(text, green());
        game.inventory.push(item);
    }
}

/// Wraps entity `id`'s behaviour in confusion for `num_turns` turns, keeping
/// what it was so that it comes back afterwards; an entity without a
/// behaviour is left as it is.
pub fn confuse(id: usize, num_turns: i32, objects: &mut Vec<Object>)
    requires
        id < old(objects)@.len(),
    ensures
        old(objects)@[id as int].ai is None ==> final(objects)@ == old(objects)@,
        old(objects)@[id as int].ai is Some ==> final(objects)@ == old(objects)@.update(
            id as int,
            Object {
                ai: Some(Ai::Confused {
                    previous_ai: Box::new(old(objects)@[id as int].ai.unwrap()),
                    num_turns,
                }),
                ..old(objects)@[id as int]
            },
        ),
{
    let ghost o0 = objects@;
    let current = objects[id].ai.take();
    match current {
        Some(ai) => {
            objects[id].ai = Some(Ai::Confused { previous_ai: Box::new(ai), num_turns });
        },
        None => {},
    }
    proof {
        if o0[id as int].ai is Some {
            assert(objects@ =~= o0.update(
                id as int,
                Object {
                    ai: Some(Ai::Confused { previous_ai: Box::new(o0[id as int].ai.unwrap()), num_turns }),
                    ..o0[id as int]
                },
            ));
        } else {
            assert(objects@[id as int] == o0[id as int]);
            assert(objects@ =~= o0);
        }
    }
}

/// One discrete intent of the player, read from the input device.
#[derive(Clone, Copy, Debug, PartialEq, Eq, Structural)]
pub enum PlayerIntent {
    Move { dx: i32, dy: i32 },
    PickUp,
    ToggleFullscreen,
    Exit,
    Wait,
}

/// An item lying where the player stands, the first such after the player.
pub open spec fn first_item_here(objects: Seq<Object>, j: int) -> bool {
    &&& 1 <= j < objects.len()
    &&& objects[j].item is Some && objects[j].x == objects[0].x && objects[j].y == objects[0].y
    &&& forall|k: int| 1 <= k < j ==> !(#[trigger] objects[k].item is Some && objects[k].x == objects[0].x
        && objects[k].y == objects[0].y)
}

/// The outcome of one intent of the player; see `handle_keys`.
pub open spec fn intent_outcome(
    intent: PlayerIntent,
    o0: Seq<Object>,
    o1: Seq<Object>,
    g0: &Game,
    g1: &Game,
    action: PlayerAction,
) -> bool {
    match intent {
        PlayerIntent::Exit => action == PlayerAction::Exit && *g1 == *g0 && o1 == o0,
        PlayerIntent::Move { dx, dy } => if o0[0].alive {
            move_or_attack(dx as int, dy as int, o0, o1, g0, g1, action)
        } else {
            action == PlayerAction::DidntTakeTurn && *g1 == *g0 && o1 == o0
        },
        PlayerIntent::PickUp => {
            &&& action == PlayerAction::DidntTakeTurn
            &&& if o0[0].alive && exists|j: int| first_item_here(o0, j) {
                exists|j: int| #[trigger] first_item_here(o0, j)
                    && picked_up(j, o0, o1, g0, g1)
            } else {
                *g1 == *g0 && o1 == o0
            }
        },
        _ => action == PlayerAction::DidntTakeTurn && *g1 == *g0 && o1 == o0,
    }
}

/// Resolves one intent of the player. Quitting gives `Exit`; a move of a
/// living player goes to `player_move_or_attack`; picking up takes the first
/// item under a living player and does not take the turn; everything else
/// changes nothing and does not take the turn.
pub fn handle_keys(intent: PlayerIntent, game: &mut Game, objects: &mut Vec<Object>) -> (action: PlayerAction)
    requires
        old(objects)@.len() >= 1,
        map_fits_i32(old(game).map),
        intent_fits(intent, old(objects)@),
    ensures
        intent_outcome(intent, old(objects)@, final(objects)@, old(game), final(game), action),
{
    let player_alive = objects[PLAYER].alive;
    match intent {
        PlayerIntent::Exit => PlayerAction::Exit,
        PlayerIntent::Move { dx, dy } => {
            if player_alive {
                player_move_or_attack(dx, dy, game, objects)
            } else {
                PlayerAction::DidntTakeTurn
            }
        },
        PlayerIntent::PickUp => {
            if player_alive {
                let (px, py) = objects[PLAYER].pos();
                let mut found: usize = 0;
                let mut j: usize = 1;
                while j < objects.len()
                    invariant
                        1 <= j <= objects@.len(),
                        found == 0 || first_item_here(objects@, found as int),
                        px == objects@[0].x && py == objects@[0].y,
                        found == 0 ==> forall|k: int| 1 <= k < j ==> !(#[trigger] objects@[k].item is Some
                            && objects@[k].x == objects@[0].x && objects@[k].y == objects@[0].y),
                    decreases objects@.len() - j,
                {
                    if found == 0 && objects[j].item.is_some() && objects[j].x == px && objects[j].y == py {
                        found = j;
                    }
                    j += 1;
                }
                if found != 0 {
                    pick_item_up(found, game, objects);
                } else {
                    proof {
                        assert forall|k: int| !first_item_here(old(objects)@, k) by {
                            if 1 <= k < objects@.len() && objects@[k].item is Some && objects@[k].x == objects@[0].x
                                && objects@[k].y == objects@[0].y {
                                assert(!(objects@[k].item is Some && objects@[k].x == objects@[0].x
                                    && objects@[k].y == objects@[0].y));
                            }
                        }
                    }
                }
            }
            PlayerAction::DidntTakeTurn
        },
        _ => PlayerAction::DidntTakeTurn,
    }
}

/// Checks `combat_bounded`.
pub fn fighters_bounded(objects: &Vec<Object>) -> (b: bool)
    ensures
        b == combat_bounded(objects@),
{
    let mut i: usize = 0;
    while i < objects.len()
        invariant
            i <= objects@.len(),
            forall|k: int| 0 <= k < i ==> bounded_fighter(#[trigger] objects@[k]),
        decreases objects@.len() - i,
    {
        match objects[i].fighter {
            Some(f) => {
                if f.power < -COMBAT_BOUND || f.power > COMBAT_BOUND || f.defense < -COMBAT_BOUND
                    || f.defense > COMBAT_BOUND || f.hp < -2 * COMBAT_BOUND {
                    return false;
                }
            },
            None => {},
        }
        i += 1;
    }
    true
}

/// One full game turn: the player's intent, then, when it took the turn, the
/// player is still alive and every fighter is within the combat bounds, one AI
/// step for every other acting entity.
pub fn play_turn(
    intent: PlayerIntent,
    fov: &Vec<Vec<bool>>,
    steps: &Vec<(i32, i32)>,
    game: &mut Game,
    objects: &mut Vec<Object>,
) -> (action: PlayerAction)
    requires
        old(objects)@.len() >= 1,
        steps@.len() == old(objects)@.len(),
        map_fits_i32(old(game).map),
        intent_fits(intent, old(objects)@),
    ensures
        exists|o_mid: Seq<Object>, g_mid: Game|
            #![trigger intent_outcome(intent, old(objects)@, o_mid, old(game), &g_mid, action)]
            intent_outcome(intent, old(objects)@, o_mid, old(game), &g_mid, action) && if action
                == PlayerAction::TookTurn && o_mid[0].alive && combat_bounded(o_mid) {
                ai_turns_from(fov@, steps@, o_mid, g_mid, final(objects)@, *final(game))
            } else {
                final(objects)@ == o_mid && *final(game) == g_mid
            },
{
    let action = handle_keys(intent, game, objects);
    let ghost o_mid = objects@;
    let ghost g_mid = *game;
    if action == PlayerAction::TookTurn && objects.len() == steps.len() && objects[PLAYER].alive
        && fighters_bounded(objects) {
        run_ai_turns(fov, steps, game, objects);
    }
    assert(intent_outcome(intent, old(objects)@, o_mid, old(game), &g_mid, action));
    action
}

/// A living entity on its last confused turn gets its previous behaviour
/// back, and exactly one message, saying that it is no longer confused, is
/// added to the log.
pub proof fn lemma_confusion_wears_off(
    fov: Seq<Vec<bool>>,
    step: (i32, i32),
    o0: Seq<Object>,
    id: int,
    o1: Seq<Object>,
    g0: &Game,
    g1: &Game,
    previous_ai: Box<Ai>,
)
    requires
        0 <= id < o0.len(),
        o0[id].alive,
        o0[id].ai == Some(Ai::Confused { previous_ai, num_turns: 1 }),
        ai_turn(fov, step, o0, id, o1, g0, g1),
    ensures
        o1[id].ai == Some(*previous_ai),
        log_of(&g1.messages) == log_of(&g0.messages).push((unconfused_text(o0[id].name@), rgb(255, 0, 0))),
{
    let moved = after_step(g0.map, o0, id, step.0 as int, step.1 as int);
    assert(moved.len() == o0.len());
    assert(seq![(unconfused_text(o0[id].name@), rgb(255, 0, 0))] =~= Seq::empty().push((unconfused_text(o0[id].name@), rgb(255, 0, 0))));
    assert(log_of(&g0.messages) + seq![(unconfused_text(o0[id].name@), rgb(255, 0, 0))] =~= log_of(&g0.messages).push((unconfused_text(o0[id].name@), rgb(255, 0, 0))));
}

} // verus!
