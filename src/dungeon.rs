use vstd::prelude::*;
use vstd::pervasive::VecAdditionalExecFns;
use crate::structs::{
    darker_green, desaturated_green, light_yellow, rgb, violet, Ai, DeathCallback, Fighter, Item,
    Object, Rect, Tile, TileMap,
};
use crate::reach::{
    lemma_carving_opens_more, lemma_column_walk, lemma_opens_more_trans, lemma_reach_grows,
    lemma_reach_self, lemma_reach_trans, lemma_row_walk, open_at, opens_more, reachable,
};

verus! {

pub open spec fn empty_tile() -> Tile {
    Tile { blocked: false, explored: false, block_sight: false }
}

pub open spec fn wall_tile() -> Tile {
    Tile { blocked: true, explored: false, block_sight: true }
}

/// The map has `w` columns of `h` tiles each.
pub open spec fn has_dims(map: TileMap, w: int, h: int) -> bool {
    &&& map@.len() == w
    &&& forall|x: int| 0 <= x < w ==> (#[trigger] map@[x])@.len() == h
}

pub open spec fn tile_at(map: TileMap, x: int, y: int) -> Tile {
    map@[x]@[y]
}

pub open spec fn in_bounds(map: TileMap, x: int, y: int) -> bool {
    0 <= x < map@.len() && 0 <= y < map@[x]@.len()
}

/// The room's corners lie on the map, or just past its far edges.
pub open spec fn room_in(map: TileMap, room: Rect) -> bool {
    &&& 0 <= room.x1
    &&& (room.x2 as int) <= map@.len()
    &&& 0 <= room.y1
    &&& forall|x: int| room.x1 < x < room.x2 ==> (room.y2 as int) <= (#[trigger] map@[x])@.len()
}

/// Every column of the map reaches down to row `y`.
pub open spec fn row_in(map: TileMap, y: int) -> bool {
    0 <= y && forall|x: int| 0 <= x < map@.len() ==> y < (#[trigger] map@[x])@.len()
}

/// Inside the room, its walls excluded.
pub open spec fn in_interior(r: Rect, x: int, y: int) -> bool {
    r.x1 < x < r.x2 && r.y1 < y < r.y2
}

pub open spec fn min_int(a: int, b: int) -> int {
    if a <= b { a } else { b }
}

pub open spec fn max_int(a: int, b: int) -> int {
    if a <= b { b } else { a }
}

/// On the horizontal segment from `x1` to `x2` (either order) in row `y`.
pub open spec fn on_h_line(x1: int, x2: int, y: int, px: int, py: int) -> bool {
    py == y && min_int(x1, x2) <= px <= max_int(x1, x2)
}

/// On the vertical segment from `y1` to `y2` (either order) in column `x`.
pub open spec fn on_v_line(y1: int, y2: int, x: int, px: int, py: int) -> bool {
    px == x && min_int(y1, y2) <= py <= max_int(y1, y2)
}

/// `m1` is `m0` with the tiles that `carved` selects made empty.
pub open spec fn carved_from(m0: TileMap, m1: TileMap, carved: spec_fn(int, int) -> bool) -> bool {
    &&& m1@.len() == m0@.len()
    &&& forall|x: int| 0 <= x < m0@.len() ==> (#[trigger] m1@[x])@.len() == m0@[x]@.len()
    &&& forall|x: int, y: int|
        in_bounds(m0, x, y) ==> #[trigger] tile_at(m1, x, y) == if carved(x, y) {
            empty_tile()
        } else {
            tile_at(m0, x, y)
        }
}

fn set_tile(map: &mut TileMap, x: usize, y: usize, t: Tile)
    requires
        in_bounds(*old(map), x as int, y as int),
    ensures
        final(map)@.len() == old(map)@.len(),
        forall|i: int| 0 <= i < old(map)@.len() ==> (#[trigger] final(map)@[i])@.len() == old(map)@[i]@.len(),
        forall|i: int, j: int|
            in_bounds(*old(map), i, j) ==> #[trigger] tile_at(*final(map), i, j) == if i == x && j == y {
                t
            } else {
                tile_at(*old(map), i, j)
            },
{
    let mut column: Vec<Tile> = Vec::new();
    map.set_and_swap(x, &mut column);
    column.set(y, t);
    map.set_and_swap(x, &mut column);
}

/// A map of `width` columns and `height` rows, all walls.
pub fn wall_map(width: usize, height: usize) -> (map: TileMap)
    ensures
        has_dims(map, width as int, height as int),
        forall|x: int, y: int| in_bounds(map, x, y) ==> #[trigger] tile_at(map, x, y) == wall_tile(),
{
    let mut map: TileMap = Vec::new();
    let mut x: usize = 0;
    while x < width
        invariant
            x <= width,
            map@.len() == x,
            forall|i: int| 0 <= i < x ==> (#[trigger] map@[i])@.len() == height,
            forall|i: int, j: int| in_bounds(map, i, j) ==> #[trigger] tile_at(map, i, j) == wall_tile(),
        decreases width - x,
    {
        let mut column: Vec<Tile> = Vec::new();
        let mut y: usize = 0;
        while y < height
            invariant
                x < width,
                map@.len() == x,
                forall|i: int| 0 <= i < x ==> (#[trigger] map@[i])@.len() == height,
                forall|i: int, j: int| in_bounds(map, i, j) ==> #[trigger] tile_at(map, i, j) == wall_tile(),
                y <= height,
                column@.len() == y,
                forall|j: int| 0 <= j < y ==> #[trigger] column@[j] == wall_tile(),
            decreases height - y,
        {
            column.push(Tile::wall());
            y += 1;
        }
        let ghost before = map;
        let ghost col = column;
        map.push(column);
        assert forall|i: int, j: int| in_bounds(map, i, j) implies #[trigger] tile_at(map, i, j) == wall_tile() by {
            if i < x {
                assert(map@[i] == before@[i]);
                assert(in_bounds(before, i, j));
                assert(tile_at(before, i, j) == wall_tile());
            } else {
                assert(i == x);
                assert(map@[i] == col);
                assert(0 <= j < col@.len());
                assert(col@[j] == wall_tile());
            }
        }
        x += 1;
    }
    map
}

/// Empties the interior of `room`.
pub fn create_room(room: Rect, map: &mut TileMap)
    requires
        room_in(*old(map), room),
    ensures
        carved_from(*old(map), *final(map), |x: int, y: int| in_interior(room, x, y)),
{
        let mut x: i64 = room.x1 as i64 + 1;
    while x < room.x2 as i64
        invariant
            room.x1 < x <= room.x2 || (x == room.x1 + 1 && room.x2 <= room.x1),
            room_in(*old(map), room),
            carved_from(*old(map), *map, |i: int, j: int| in_interior(room, i, j) && i < x),
        decreases room.x2 - x,
    {
        let mut y: i64 = room.y1 as i64 + 1;
        while y < room.y2 as i64
            invariant
                room.x1 < x < room.x2,
                room.y1 < y <= room.y2 || (y == room.y1 + 1 && room.y2 <= room.y1),
                room_in(*old(map), room),
                (room.y2 as int) <= old(map)@[x as int]@.len(),
                carved_from(*old(map), *map, |i: int, j: int| in_interior(room, i, j) && (i < x || (i == x && j < y))),
            decreases room.y2 - y,
        {
            set_tile(map, x as usize, y as usize, Tile::empty());
            y += 1;
        }
        x += 1;
    }
}

/// Empties row `y` from `x1` to `x2`, both included.
pub fn create_h_tunnel(x1: i32, x2: i32, y: i32, map: &mut TileMap)
    requires
        0 <= x1 && (x1 as int) < old(map)@.len(),
        0 <= x2 && (x2 as int) < old(map)@.len(),
        old(map)@.len() <= i32::MAX,
        row_in(*old(map), y as int),
    ensures
        carved_from(*old(map), *final(map), |px: int, py: int| on_h_line(x1 as int, x2 as int, y as int, px, py)),
{
    let lo = if x1 <= x2 { x1 } else { x2 };
    let hi = if x1 <= x2 { x2 } else { x1 };
    let mut x: i32 = lo;
    while x <= hi
        invariant
            lo <= x <= hi + 1,
            lo == min_int(x1 as int, x2 as int),
            hi == max_int(x1 as int, x2 as int),
            0 <= lo && hi < old(map)@.len() <= i32::MAX,
            row_in(*old(map), y as int),
            carved_from(*old(map), *map, |px: int, py: int| py == y && lo <= px < x),
        decreases hi + 1 - x,
    {
        set_tile(map, x as usize, y as usize, Tile::empty());
        x += 1;
    }
}

/// Empties column `x` from `y1` to `y2`, both included.
pub fn create_v_tunnel(y1: i32, y2: i32, x: i32, map: &mut TileMap)
    requires
        0 <= x < old(map)@.len(),
        0 <= y1 && (y1 as int) < old(map)@[x as int]@.len(),
        0 <= y2 && (y2 as int) < old(map)@[x as int]@.len(),
        old(map)@[x as int]@.len() <= i32::MAX,
    ensures
        carved_from(*old(map), *final(map), |px: int, py: int| on_v_line(y1 as int, y2 as int, x as int, px, py)),
{
        let lo = if y1 <= y2 { y1 } else { y2 };
    let hi = if y1 <= y2 { y2 } else { y1 };
    let mut y: i32 = lo;
    while y <= hi
        invariant
            lo <= y <= hi + 1,
            lo == min_int(y1 as int, y2 as int),
            hi == max_int(y1 as int, y2 as int),
            0 <= x < old(map)@.len(),
            0 <= lo && hi < old(map)@[x as int]@.len() <= i32::MAX,
            carved_from(*old(map), *map, |px: int, py: int| px == x && lo <= py < y),
        decreases hi + 1 - y,
    {
        set_tile(map, x as usize, y as usize, Tile::empty());
        y += 1;
    }
}

/// What a planned spawn puts on the floor.
#[derive(Clone, Copy, Debug, PartialEq, Eq, Structural)]
pub enum SpawnKind {
    Orc,
    Troll,
    Loot(Item),
}

/// A candidate entity for a room, at a position drawn by the caller.
#[derive(Clone, Copy, Debug, PartialEq, Eq, Structural)]
pub struct Spawn {
    pub x: i32,
    pub y: i32,
    pub kind: SpawnKind,
}

/// One candidate room with the random choices that go with it: which leg of
/// the corridor to the previous room comes first, and what may spawn in it.
pub struct RoomPlan {
    pub room: Rect,
    pub horizontal_first: bool,
    pub spawns: Vec<Spawn>,
}

/// A blocking object stands on `(x, y)`.
pub open spec fn occupied(objects: Seq<Object>, x: int, y: int) -> bool {
    exists|k: int| 0 <= k < objects.len() && #[trigger] objects[k].blocks && objects[k].x == x && objects[k].y == y
}

/// Movement into `(x, y)` is impossible: off the map, a blocked tile, or a blocking object.
pub open spec fn blocked_at(map: TileMap, objects: Seq<Object>, x: int, y: int) -> bool {
    !open_at(map, x, y) || occupied(objects, x, y)
}

pub fn is_blocked(x: i32, y: i32, map: &TileMap, objects: &Vec<Object>) -> (b: bool)
    ensures
        b == blocked_at(*map, objects@, x as int, y as int),
{
    if x < 0 || y < 0 || x as usize >= map.len() || y as usize >= map[x as usize].len() {
        return true;
    }
    if map[x as usize][y as usize].blocked {
        return true;
    }
    let mut i: usize = 0;
    while i < objects.len()
        invariant
            i <= objects@.len(),
            forall|k: int| 0 <= k < i ==> !(#[trigger] objects@[k].blocks && objects@[k].x == x && objects@[k].y == y),
        decreases objects@.len() - i,
    {
        if objects[i].blocks && objects[i].x == x && objects[i].y == y {
            return true;
        }
        i += 1;
    }
    false
}

/// `o` is the entity that `s` describes.
pub open spec fn spawned_as(s: Spawn, o: Object) -> bool {
    &&& o.x == s.x
    &&& o.y == s.y
    &&& match s.kind {
        SpawnKind::Orc => {
            &&& o.char == 'o' && o.name@ == "orc"@ && o.color == rgb(63, 127, 63)
            &&& o.blocks && o.alive && o.item is None
            &&& o.fighter == Some(Fighter { max_hp: 10, hp: 10, defense: 0, power: 3, on_death: DeathCallback::Monster })
            &&& o.ai == Some(Ai::Basic)
        },
        SpawnKind::Troll => {
            &&& o.char == 'T' && o.name@ == "troll"@ && o.color == rgb(0, 127, 0)
            &&& o.blocks && o.alive && o.item is None
            &&& o.fighter == Some(Fighter { max_hp: 16, hp: 16, defense: 1, power: 4, on_death: DeathCallback::Monster })
            &&& o.ai == Some(Ai::Basic)
        },
        SpawnKind::Loot(item) => {
            &&& !o.blocks && !o.alive && o.fighter is None && o.ai is None
            &&& o.item == Some(item)
            &&& match item {
                Item::Heal => o.char == '!' && o.name@ == "healing potion"@ && o.color == rgb(127, 0, 255),
                Item::Lightning => o.char == '#' && o.name@ == "scroll of lightning bolt"@ && o.color == rgb(255, 255, 63),
                Item::Confuse => o.char == '#' && o.name@ == "scroll of confusion"@ && o.color == rgb(255, 255, 63),
                Item::Fireball => o.char == '#' && o.name@ == "scroll of fireball"@ && o.color == rgb(255, 255, 63),
            }
        },
    }
}

/// Most monsters one room may spawn.
pub const MAX_ROOM_MONSTERS: i32 = 3;

/// Most items one room may spawn.
pub const MAX_ROOM_ITEMS: i32 = 2;

/// The monster for a percentile roll in `0..100`: an orc for the first 80, else a troll.
pub fn monster_kind(roll: i32) -> (k: SpawnKind)
    ensures
        k == if roll < 80 { SpawnKind::Orc } else { SpawnKind::Troll },
{
    if roll < 80 { SpawnKind::Orc } else { SpawnKind::Troll }
}

/// The item for a percentile roll in `0..100`: a healing potion for the
/// first 70, then lightning, fireball and confusion scrolls for 10 each.
pub fn item_kind(roll: i32) -> (k: SpawnKind)
    ensures
        k == SpawnKind::Loot(
            if roll < 70 {
                Item::Heal
            } else if roll < 80 {
                Item::Lightning
            } else if roll < 90 {
                Item::Fireball
            } else {
                Item::Confuse
            },
        ),
{
    let item = if roll < 70 {
        Item::Heal
    } else if roll < 80 {
        Item::Lightning
    } else if roll < 90 {
        Item::Fireball
    } else {
        Item::Confuse
    };
    SpawnKind::Loot(item)
}

/// Builds the entity that a spawn describes.
pub fn spawn_object(s: &Spawn) -> (o: Object)
    ensures
        spawned_as(*s, o),
{
    match s.kind {
        SpawnKind::Orc => {
            let mut o = Object::new(s.x, s.y, 'o', "orc", desaturated_green(), true);
            o.fighter = Some(Fighter { max_hp: 10, hp: 10, defense: 0, power: 3, on_death: DeathCallback::Monster });
            o.ai = Some(Ai::Basic);
            o.alive = true;
            o
        },
        SpawnKind::Troll => {
            let mut o = Object::new(s.x, s.y, 'T', "troll", darker_green(), true);
            o.fighter = Some(Fighter { max_hp: 16, hp: 16, defense: 1, power: 4, on_death: DeathCallback::Monster });
            o.ai = Some(Ai::Basic);
            o.alive = true;
            o
        },
        SpawnKind::Loot(item) => {
            let mut o = match item {
                Item::Heal => Object::new(s.x, s.y, '!', "healing potion", violet(), false),
                Item::Lightning => Object::new(s.x, s.y, '#', "scroll of lightning bolt", light_yellow(), false),
                Item::Confuse => Object::new(s.x, s.y, '#', "scroll of confusion", light_yellow(), false),
                Item::Fireball => Object::new(s.x, s.y, '#', "scroll of fireball", light_yellow(), false),
            };
            o.item = Some(item);
            o
        },
    }
}

/// The object at index `i` stands on an open tile inside `room`, with no
/// blocking object before it in the list on the same cell.
pub open spec fn placed_in(map: TileMap, room: Rect, objects: Seq<Object>, i: int) -> bool {
    &&& open_at(map, objects[i].x as int, objects[i].y as int)
    &&& in_interior(room, objects[i].x as int, objects[i].y as int)
    &&& !occupied(objects.take(i), objects[i].x as int, objects[i].y as int)
}

/// `o` is the entity of one of `spawns`.
pub open spec fn from_spawns(spawns: Seq<Spawn>, o: Object) -> bool {
    exists|j: int| 0 <= j < spawns.len() && spawned_as(#[trigger] spawns[j], o)
}

/// Every object from index `from` on is placed in `room` and comes from `spawns`.
pub open spec fn all_placed(map: TileMap, room: Rect, spawns: Seq<Spawn>, objects: Seq<Object>, from: int) -> bool {
    forall|i: int| from <= i < objects.len() ==> #[trigger] placed_in(map, room, objects, i) && from_spawns(spawns, objects[i])
}

/// Whether the entity of `s` blocks movement.
pub open spec fn spawn_blocks(s: Spawn) -> bool {
    s.kind is Orc || s.kind is Troll
}

/// One of `kept` puts a blocking entity on `(x, y)`.
pub open spec fn kept_occupies(kept: Seq<Spawn>, x: int, y: int) -> bool {
    exists|k: int| 0 <= k < kept.len() && spawn_blocks(#[trigger] kept[k]) && kept[k].x == x && kept[k].y == y
}

/// The spawns that `place_objects` keeps, in order: each one inside `room`
/// on an open tile that neither a blocking object of `start` nor a blocking
/// spawn kept before it occupies.
pub open spec fn kept_spawns(room: Rect, map: TileMap, start: Seq<Object>, spawns: Seq<Spawn>) -> Seq<Spawn>
    decreases spawns.len(),
{
    if spawns.len() == 0 {
        Seq::empty()
    } else {
        let prev = kept_spawns(room, map, start, spawns.drop_last());
        let s = spawns.last();
        if in_interior(room, s.x as int, s.y as int) && !blocked_at(map, start, s.x as int, s.y as int)
            && !kept_occupies(prev, s.x as int, s.y as int) {
            prev.push(s)
        } else {
            prev
        }
    }
}

/// `objects` is `start` followed by the entities of `kept`.
pub open spec fn start_then(start: Seq<Object>, kept: Seq<Spawn>, objects: Seq<Object>) -> bool {
    &&& objects.len() == start.len() + kept.len()
    &&& objects.take(start.len() as int) == start
    &&& forall|k: int| 0 <= k < kept.len() ==> spawned_as(#[trigger] kept[k], objects[start.len() + k])
}

proof fn lemma_occupied_split(start: Seq<Object>, kept: Seq<Spawn>, objects: Seq<Object>, x: int, y: int)
    requires
        start_then(start, kept, objects),
    ensures
        occupied(objects, x, y) == (occupied(start, x, y) || kept_occupies(kept, x, y)),
{
    let n0 = start.len() as int;
    if occupied(objects, x, y) {
        let i = choose|i: int| 0 <= i < objects.len() && #[trigger] objects[i].blocks && objects[i].x == x && objects[i].y == y;
        if i < n0 {
            assert(objects.take(n0)[i] == objects[i]);
            assert(start[i].blocks);
        } else {
            assert(spawned_as(kept[i - n0], objects[n0 + (i - n0)]));
            assert(spawn_blocks(kept[i - n0]));
        }
    }
    if occupied(start, x, y) {
        let i = choose|i: int| 0 <= i < start.len() && #[trigger] start[i].blocks && start[i].x == x && start[i].y == y;
        assert(objects.take(n0)[i] == objects[i]);
        assert(objects[i].blocks);
    }
    if kept_occupies(kept, x, y) {
        let k = choose|k: int| 0 <= k < kept.len() && spawn_blocks(#[trigger] kept[k]) && kept[k].x == x && kept[k].y == y;
        assert(spawned_as(kept[k], objects[n0 + k]));
        assert(objects[n0 + k].blocks);
    }
}

/// Adds, in order, the entity of each spawn that lies inside `room` on a cell
/// that is not blocked at that moment; the others are skipped.
pub fn place_objects(room: Rect, spawns: &Vec<Spawn>, map: &TileMap, objects: &mut Vec<Object>)
    ensures
        start_then(old(objects)@, kept_spawns(room, *map, old(objects)@, spawns@), final(objects)@),
        all_placed(*map, room, spawns@, final(objects)@, old(objects)@.len() as int),
{
    let ghost n0 = objects@.len() as int;
    let ghost start = objects@;
    assert(spawns@.take(0) =~= Seq::<Spawn>::empty());
    assert(kept_spawns(room, *map, start, spawns@.take(0)) == Seq::<Spawn>::empty());
    assert(objects@.take(n0) =~= objects@);
    let mut k: usize = 0;
    while k < spawns.len()
        invariant
            k <= spawns@.len(),
            n0 == old(objects)@.len(),
            start == old(objects)@,
            start_then(start, kept_spawns(room, *map, start, spawns@.take(k as int)), objects@),
            all_placed(*map, room, spawns@, objects@, n0),
        decreases spawns@.len() - k,
    {
        let s = spawns[k];
        let ghost kept = kept_spawns(room, *map, start, spawns@.take(k as int));
        assert(spawns@.take(k + 1).drop_last() =~= spawns@.take(k as int));
        assert(spawns@.take(k + 1).last() == s);
        proof {
            lemma_occupied_split(start, kept, objects@, s.x as int, s.y as int);
        }
        let inside = room.x1 < s.x && s.x < room.x2 && room.y1 < s.y && s.y < room.y2;
        if inside && !is_blocked(s.x, s.y, map, objects) {
            let ghost before = objects@;
            let o = spawn_object(&s);
            let ghost og = o;
            objects.push(o);
            assert(objects@ == before.push(og));
            assert(forall|i: int| 0 <= i < before.len() ==> #[trigger] objects@[i] == before.push(og)[i]);
            assert(objects@.take(n0) =~= before.take(n0));
            assert(objects@.take(before.len() as int) =~= before);
            proof {
                let kept2 = kept.push(s);
                assert forall|j: int| 0 <= j < kept2.len() implies spawned_as(#[trigger] kept2[j], objects@[n0 + j]) by {
                    if j < kept.len() {
                        assert(kept2[j] == kept[j]);
                        assert(spawned_as(kept[j], before[n0 + j]));
                        assert(before.push(og)[n0 + j] == before[n0 + j]);
                    }
                }
                assert(start_then(start, kept2, objects@));
            }
            assert forall|i: int|
                n0 <= i < objects@.len() implies #[trigger] placed_in(*map, room, objects@, i)
                    && from_spawns(spawns@, objects@[i]) by {
                if i < before.len() {
                    assert(before.push(og)[i] == before[i]);
                    assert(objects@[i] == before[i]);
                    assert(objects@.take(i) =~= before.take(i));
                    assert(placed_in(*map, room, before, i));
                } else {
                    assert(objects@.take(i) =~= before);
                    assert(objects@[i] == og);
                    assert(spawned_as(spawns@[k as int], objects@[i]));
                }
            }
        }
        k += 1;
    }
    assert(spawns@.take(spawns@.len() as int) =~= spawns@);
}

/// A room that the generator can carve: at least one interior cell on each
/// axis, its walls on the map.
pub open spec fn room_fits(r: Rect, width: int, height: int) -> bool {
    &&& 0 <= r.x1 && r.x1 + 2 <= r.x2 && r.x2 < width
    &&& 0 <= r.y1 && r.y1 + 2 <= r.y2 && r.y2 < height
}

/// `r` touches none of `rooms`.
pub open spec fn clear_of(rooms: Seq<Rect>, r: Rect) -> bool {
    forall|i: int| 0 <= i < rooms.len() ==> !(#[trigger] rooms[i]).intersects_spec(r)
}

/// The rooms kept from `plans`, in order: each one that fits and touches
/// none of those kept before it.
pub open spec fn accepted_rooms(plans: Seq<Rect>, width: int, height: int) -> Seq<Rect>
    decreases plans.len(),
{
    if plans.len() == 0 {
        Seq::empty()
    } else {
        let kept = accepted_rooms(plans.drop_last(), width, height);
        let r = plans.last();
        if room_fits(r, width, height) && clear_of(kept, r) {
            kept.push(r)
        } else {
            kept
        }
    }
}

pub open spec fn plan_rooms(plans: Seq<RoomPlan>) -> Seq<Rect> {
    plans.map_values(|p: RoomPlan| p.room)
}

/// The spawns of `spawns` kept in `room` after `before` were: each one
/// inside the room whose cell no blocking object of `start`, no blocking spawn
/// of `before` and no blocking spawn kept before it occupies.
pub open spec fn free_kept(room: Rect, start: Seq<Object>, spawns: Seq<Spawn>, before: Seq<Spawn>) -> Seq<Spawn>
    decreases spawns.len(),
{
    if spawns.len() == 0 {
        Seq::empty()
    } else {
        let prev = free_kept(room, start, spawns.drop_last(), before);
        let s = spawns.last();
        if in_interior(room, s.x as int, s.y as int) && !occupied(start, s.x as int, s.y as int)
            && !kept_occupies(before + prev, s.x as int, s.y as int) {
            prev.push(s)
        } else {
            prev
        }
    }
}

/// Every spawn that generating from `plans` keeps, in order: those of each
/// kept room after the first, over an entity list that starts as `start`.
pub open spec fn all_spawns(plans: Seq<RoomPlan>, width: int, height: int, start: Seq<Object>) -> Seq<Spawn>
    decreases plans.len(),
{
    if plans.len() == 0 {
        Seq::empty()
    } else {
        let prev = all_spawns(plans.drop_last(), width, height, start);
        let kept = accepted_rooms(plan_rooms(plans.drop_last()), width, height);
        let r = plans.last().room;
        if room_fits(r, width, height) && clear_of(kept, r) && kept.len() > 0 {
            prev + free_kept(r, start, plans.last().spawns@, prev)
        } else {
            prev
        }
    }
}

/// The entity list with the player (index 0) moved to the center of `first`.
pub open spec fn player_placed(objects: Seq<Object>, first: Rect) -> Seq<Object> {
    objects.update(0, Object { x: first.center_spec().0 as i32, y: first.center_spec().1 as i32, ..objects[0] })
}

proof fn lemma_kept_matches(
    room: Rect,
    map: TileMap,
    start: Seq<Object>,
    before: Seq<Spawn>,
    objects: Seq<Object>,
    spawns: Seq<Spawn>,
)
    requires
        start_then(start, before, objects),
        forall|x: int, y: int| #![trigger open_at(map, x, y)] in_interior(room, x, y) ==> open_at(map, x, y),
    ensures
        kept_spawns(room, map, objects, spawns) == free_kept(room, start, spawns, before),
    decreases spawns.len(),
{
    if spawns.len() > 0 {
        lemma_kept_matches(room, map, start, before, objects, spawns.drop_last());
        let prev = free_kept(room, start, spawns.drop_last(), before);
        let s = spawns.last();
        lemma_occupied_split(start, before, objects, s.x as int, s.y as int);
        let both = before + prev;
        if kept_occupies(both, s.x as int, s.y as int) {
            let k = choose|k: int| 0 <= k < both.len() && spawn_blocks(#[trigger] both[k]) && both[k].x == s.x && both[k].y == s.y;
            if k < before.len() {
                assert(both[k] == before[k]);
            } else {
                assert(both[k] == prev[k - before.len()]);
            }
        }
        if kept_occupies(before, s.x as int, s.y as int) {
            let k = choose|k: int| 0 <= k < before.len() && spawn_blocks(#[trigger] before[k]) && before[k].x == s.x && before[k].y == s.y;
            assert(both[k] == before[k]);
        }
        if kept_occupies(prev, s.x as int, s.y as int) {
            let k = choose|k: int| 0 <= k < prev.len() && spawn_blocks(#[trigger] prev[k]) && prev[k].x == s.x && prev[k].y == s.y;
            assert(both[before.len() + k] == prev[k]);
        }
        if in_interior(room, s.x as int, s.y as int) {
            assert(open_at(map, s.x as int, s.y as int));
        }
    }
}

proof fn lemma_start_then_concat(start: Seq<Object>, a: Seq<Spawn>, mid: Seq<Object>, b: Seq<Spawn>, end: Seq<Object>)
    requires
        start_then(start, a, mid),
        start_then(mid, b, end),
    ensures
        start_then(start, a + b, end),
{
    let n = start.len() as int;
    let m = mid.len() as int;
    assert forall|i: int| 0 <= i < n implies end[i] == mid[i] by {
        assert(end.take(m)[i] == end[i]);
    }
    assert(end.take(n) =~= mid.take(n));
    assert(mid.take(n) == start);
    assert forall|k: int| 0 <= k < (a + b).len() implies spawned_as(#[trigger] (a + b)[k], end[n + k]) by {
        if k < a.len() {
            assert(spawned_as(a[k], mid[n + k]));
            assert(end.take(m)[n + k] == end[n + k]);
        } else {
            assert(spawned_as(b[k - a.len()], end[m + (k - a.len())]));
        }
    }
}

/// On the L-shaped corridor from `prev` to `next`: along the row of `prev`
/// then the column of `next` when `horizontal_first`, else along the column
/// of `prev` then the row of `next`.
pub open spec fn on_corridor(prev: (int, int), next: (int, int), horizontal_first: bool, x: int, y: int) -> bool {
    if horizontal_first {
        on_h_line(prev.0, next.0, prev.1, x, y) || on_v_line(prev.1, next.1, next.0, x, y)
    } else {
        on_v_line(prev.1, next.1, prev.0, x, y) || on_h_line(prev.0, next.0, next.1, x, y)
    }
}

/// Whether generating from `plans` empties `(x, y)`: it lies inside a kept
/// room or on the corridor from the room kept before it.
pub open spec fn dug(plans: Seq<RoomPlan>, width: int, height: int, x: int, y: int) -> bool
    decreases plans.len(),
{
    if plans.len() == 0 {
        false
    } else {
        let kept = accepted_rooms(plan_rooms(plans.drop_last()), width, height);
        let r = plans.last().room;
        dug(plans.drop_last(), width, height, x, y) || (room_fits(r, width, height) && clear_of(kept, r) && (
        in_interior(r, x, y) || (kept.len() > 0 && on_corridor(
            kept.last().center_spec(),
            r.center_spec(),
            plans.last().horizontal_first,
            x,
            y,
        ))))
    }
}

/// No two of `rooms` intersect.
pub open spec fn pairwise_apart(rooms: Seq<Rect>) -> bool {
    forall|i: int, j: int| 0 <= i < j < rooms.len() ==> !(#[trigger] rooms[i]).intersects_spec(#[trigger] rooms[j])
}

/// The interior of every room is open.
pub open spec fn interiors_open(map: TileMap, rooms: Seq<Rect>) -> bool {
    forall|i: int, x: int, y: int|
        #![trigger rooms[i], open_at(map, x, y)]
        0 <= i < rooms.len() && in_interior(rooms[i], x, y) ==> open_at(map, x, y)
}

/// Every room's center can be reached from the first room's center.
pub open spec fn connected(map: TileMap, rooms: Seq<Rect>) -> bool {
    forall|i: int| 0 <= i < rooms.len() ==> reachable(map, rooms[0].center_spec(), #[trigger] rooms[i].center_spec())
}

/// Each object from index `from` on stands on an open tile inside a room
/// other than the first, with no blocking object before it on that cell.
pub open spec fn spawned_well(map: TileMap, rooms: Seq<Rect>, objects: Seq<Object>, from: int) -> bool {
    forall|i: int| from <= i < objects.len() ==> #[trigger] spawned_in_some_room(map, rooms, objects, i)
}

pub open spec fn spawned_in_some_room(map: TileMap, rooms: Seq<Rect>, objects: Seq<Object>, i: int) -> bool {
    &&& open_at(map, objects[i].x as int, objects[i].y as int)
    &&& !occupied(objects.take(i), objects[i].x as int, objects[i].y as int)
    &&& exists|j: int| 1 <= j < rooms.len() && in_interior(#[trigger] rooms[j], objects[i].x as int, objects[i].y as int)
}

proof fn lemma_spawned_well_grows(m0: TileMap, m1: TileMap, r0: Seq<Rect>, r1: Seq<Rect>, objects: Seq<Object>, from: int)
    requires
        spawned_well(m0, r0, objects, from),
        opens_more(m0, m1),
        r0.len() <= r1.len(),
        r1.take(r0.len() as int) == r0,
    ensures
        spawned_well(m1, r1, objects, from),
{
    assert forall|i: int| from <= i < objects.len() implies #[trigger] spawned_in_some_room(m1, r1, objects, i) by {
        assert(spawned_in_some_room(m0, r0, objects, i));
        let j = choose|j: int| 1 <= j < r0.len() && in_interior(#[trigger] r0[j], objects[i].x as int, objects[i].y as int);
        assert(r1[j] == r1.take(r0.len() as int)[j]);
        assert(open_at(m0, objects[i].x as int, objects[i].y as int));
    }
}

proof fn lemma_center_inside(r: Rect, width: int, height: int)
    requires
        room_fits(r, width, height),
    ensures
        in_interior(r, r.center_spec().0, r.center_spec().1),
        0 <= r.center_spec().0 < width,
        0 <= r.center_spec().1 < height,
{
}

/// Builds a `width` by `height` map from candidate rooms. A candidate is kept
/// when it fits on the map and touches no room kept before it; the others are
/// skipped. Each kept room's interior is emptied and joined to the previous
/// kept room by an L-shaped corridor between their centers. The player (index
/// 0) starts at the center of the first kept room; each later kept room adds
/// the entities of its plan that fall inside it on free cells. Returns the
/// map and the kept rooms.
pub fn make_map(width: i32, height: i32, plans: &Vec<RoomPlan>, objects: &mut Vec<Object>) -> (r: (TileMap, Vec<Rect>))
    requires
        0 < width,
        0 < height,
        old(objects)@.len() >= 1,
    ensures
        has_dims(r.0, width as int, height as int),
        forall|x: int, y: int| #![trigger tile_at(r.0, x, y)]
            in_bounds(r.0, x, y) ==> tile_at(r.0, x, y) == if dug(plans@, width as int, height as int, x, y) {
                empty_tile()
            } else {
                wall_tile()
            },
        r.1@ == accepted_rooms(plan_rooms(plans@), width as int, height as int),
        pairwise_apart(r.1@),
        forall|i: int| 0 <= i < r.1@.len() ==> room_fits(#[trigger] r.1@[i], width as int, height as int),
        connected(r.0, r.1@),
        interiors_open(r.0, r.1@),
        final(objects)@.len() >= old(objects)@.len(),
        forall|i: int| 1 <= i < old(objects)@.len() ==> final(objects)@[i] == old(objects)@[i],
        r.1@.len() == 0 ==> final(objects)@[0] == old(objects)@[0],
        r.1@.len() > 0 ==> final(objects)@[0] == (Object {
            x: r.1@[0].center_spec().0 as i32,
            y: r.1@[0].center_spec().1 as i32,
            ..old(objects)@[0]
        }),
        spawned_well(r.0, r.1@, final(objects)@, old(objects)@.len() as int),
        r.1@.len() == 0 ==> final(objects)@ == old(objects)@,
        r.1@.len() > 0 ==> start_then(
            player_placed(old(objects)@, r.1@[0]),
            all_spawns(plans@, width as int, height as int, player_placed(old(objects)@, r.1@[0])),
            final(objects)@,
        ),
{
    let ghost n0 = objects@.len() as int;
    let ghost all = plan_rooms(plans@);
    let mut map = wall_map(width as usize, height as usize);
    let mut rooms: Vec<Rect> = Vec::new();
    let mut k: usize = 0;
    while k < plans.len()
        invariant
            0 < width && 0 < height,
            k <= plans@.len(),
            all == plan_rooms(plans@),
            n0 == old(objects)@.len(),
            n0 >= 1,
            has_dims(map, width as int, height as int),
            forall|x: int, y: int| #![trigger tile_at(map, x, y)]
                in_bounds(map, x, y) ==> tile_at(map, x, y) == if dug(plans@.take(k as int), width as int, height as int, x, y) {
                    empty_tile()
                } else {
                    wall_tile()
                },
            rooms@ == accepted_rooms(all.take(k as int), width as int, height as int),
            pairwise_apart(rooms@),
            forall|i: int| 0 <= i < rooms@.len() ==> room_fits(#[trigger] rooms@[i], width as int, height as int),
            connected(map, rooms@),
            interiors_open(map, rooms@),
            objects@.len() >= n0,
            forall|i: int| 1 <= i < n0 ==> objects@[i] == old(objects)@[i],
            rooms@.len() == 0 ==> objects@[0] == old(objects)@[0],
            rooms@.len() > 0 ==> objects@[0] == (Object {
                x: rooms@[0].center_spec().0 as i32,
                y: rooms@[0].center_spec().1 as i32,
                ..old(objects)@[0]
            }),
            spawned_well(map, rooms@, objects@, n0),
            rooms@.len() == 0 ==> objects@ == old(objects)@,
            rooms@.len() == 0 ==> forall|st: Seq<Object>|
                #[trigger] all_spawns(plans@.take(k as int), width as int, height as int, st) == Seq::<Spawn>::empty(),
            rooms@.len() > 0 ==> start_then(
                player_placed(old(objects)@, rooms@[0]),
                all_spawns(plans@.take(k as int), width as int, height as int, player_placed(old(objects)@, rooms@[0])),
                objects@,
            ),
        decreases plans@.len() - k,
    {
        let plan = &plans[k];
        let new_room = plan.room;
        assert(all.take(k + 1).drop_last() =~= all.take(k as int));
        let ghost pk = plans@.take(k as int);
        let ghost pk1 = plans@.take(k + 1);
        assert(pk1.drop_last() =~= pk);
        assert(pk1.last() == plans@[k as int]);
        assert(plan_rooms(pk) =~= all.take(k as int));
        assert(all.take(k + 1).last() == new_room);
        let fits = 0 <= new_room.x1 && new_room.x2 >= 2 && new_room.x1 <= new_room.x2 - 2 && new_room.x2 < width
            && 0 <= new_room.y1 && new_room.y2 >= 2 && new_room.y1 <= new_room.y2 - 2 && new_room.y2 < height;
        let mut clear = true;
        let mut i: usize = 0;
        while i < rooms.len()
            invariant
                i <= rooms@.len(),
                clear == forall|j: int| 0 <= j < i ==> !(#[trigger] rooms@[j]).intersects_spec(new_room),
            decreases rooms@.len() - i,
        {
            if new_room.intersects_with(&rooms[i]) {
                clear = false;
            }
            i += 1;
        }
        proof {
            assert forall|a: Rect, b: Rect| a.intersects_spec(b) == b.intersects_spec(a) by {}
        }
        if fits && clear {
            let ghost m0 = map;
            let ghost r0 = rooms@;
            let ghost pre = objects@;
            create_room(new_room, &mut map);
            let ghost m1 = map;
            proof {
                lemma_carving_opens_more(m0, m1, |x: int, y: int| in_interior(new_room, x, y));
                lemma_center_inside(new_room, width as int, height as int);
            }
            let (new_x, new_y) = new_room.center();
            if rooms.len() == 0 {
                objects[0].set_pos(new_x, new_y);
                proof {
                    lemma_reach_self(map, (new_x as int, new_y as int));
                    if pre.len() > n0 {
                        assert(spawned_in_some_room(m0, r0, pre, n0));
                    }
                    assert(spawned_well(m0, r0, objects@, n0));
                    assert(objects@ =~= player_placed(old(objects)@, new_room));
                    let st = player_placed(old(objects)@, new_room);
                    assert(all_spawns(pk1, width as int, height as int, st) == all_spawns(pk, width as int, height as int, st));
                    assert(objects@.take(objects@.len() as int) =~= objects@);
                    assert(start_then(st, Seq::<Spawn>::empty(), objects@));
                }
            } else {
                let (prev_x, prev_y) = rooms[rooms.len() - 1].center();
                proof {
                    lemma_center_inside(rooms@[rooms@.len() - 1], width as int, height as int);
                }
                if plan.horizontal_first {
                    create_h_tunnel(prev_x, new_x, prev_y, &mut map);
                    let ghost m2 = map;
                    create_v_tunnel(prev_y, new_y, new_x, &mut map);
                    proof {
                        lemma_carving_opens_more(m1, m2, |px: int, py: int| on_h_line(prev_x as int, new_x as int, prev_y as int, px, py));
                        lemma_carving_opens_more(m2, map, |px: int, py: int| on_v_line(prev_y as int, new_y as int, new_x as int, px, py));
                        assert forall|x: int| min_int(prev_x as int, new_x as int) <= x <= max_int(prev_x as int, new_x as int)
                            implies #[trigger] open_at(map, x, prev_y as int) by {
                            assert(tile_at(m2, x, prev_y as int) == empty_tile());
                            assert(open_at(m2, x, prev_y as int));
                        }
                        lemma_row_walk(map, prev_x as int, new_x as int, prev_y as int);
                        assert forall|y: int| min_int(prev_y as int, new_y as int) <= y <= max_int(prev_y as int, new_y as int)
                            implies #[trigger] open_at(map, new_x as int, y) by {
                            assert(tile_at(map, new_x as int, y) == empty_tile());
                        }
                        lemma_column_walk(map, prev_y as int, new_y as int, new_x as int);
                        lemma_reach_trans(map, (prev_x as int, prev_y as int), (new_x as int, prev_y as int), (new_x as int, new_y as int));
                        lemma_opens_more_trans(m1, m2, map);
                        assert forall|x: int, y: int| #![trigger tile_at(map, x, y)] in_bounds(m0, x, y) implies tile_at(map, x, y)
                            == if in_interior(new_room, x, y) || on_corridor(r0[r0.len() - 1].center_spec(), new_room.center_spec(), plan.horizontal_first, x, y) {
                                empty_tile()
                            } else {
                                tile_at(m0, x, y)
                            } by {
                            assert(tile_at(m1, x, y) == if in_interior(new_room, x, y) { empty_tile() } else { tile_at(m0, x, y) });
                            assert(tile_at(m2, x, y) == if on_h_line(prev_x as int, new_x as int, prev_y as int, x, y) { empty_tile() } else { tile_at(m1, x, y) });
                        }
                    }
                } else {
                    create_v_tunnel(prev_y, new_y, prev_x, &mut map);
                    let ghost m2 = map;
                    create_h_tunnel(prev_x, new_x, new_y, &mut map);
                    proof {
                        lemma_carving_opens_more(m1, m2, |px: int, py: int| on_v_line(prev_y as int, new_y as int, prev_x as int, px, py));
                        lemma_carving_opens_more(m2, map, |px: int, py: int| on_h_line(prev_x as int, new_x as int, new_y as int, px, py));
                        assert forall|y: int| min_int(prev_y as int, new_y as int) <= y <= max_int(prev_y as int, new_y as int)
                            implies #[trigger] open_at(map, prev_x as int, y) by {
                            assert(tile_at(m2, prev_x as int, y) == empty_tile());
                            assert(open_at(m2, prev_x as int, y));
                        }
                        lemma_column_walk(map, prev_y as int, new_y as int, prev_x as int);
                        assert forall|x: int| min_int(prev_x as int, new_x as int) <= x <= max_int(prev_x as int, new_x as int)
                            implies #[trigger] open_at(map, x, new_y as int) by {
                            assert(tile_at(map, x, new_y as int) == empty_tile());
                        }
                        lemma_row_walk(map, prev_x as int, new_x as int, new_y as int);
                        lemma_reach_trans(map, (prev_x as int, prev_y as int), (prev_x as int, new_y as int), (new_x as int, new_y as int));
                        lemma_opens_more_trans(m1, m2, map);
                        assert forall|x: int, y: int| #![trigger tile_at(map, x, y)] in_bounds(m0, x, y) implies tile_at(map, x, y)
                            == if in_interior(new_room, x, y) || on_corridor(r0[r0.len() - 1].center_spec(), new_room.center_spec(), plan.horizontal_first, x, y) {
                                empty_tile()
                            } else {
                                tile_at(m0, x, y)
                            } by {
                            assert(tile_at(m1, x, y) == if in_interior(new_room, x, y) { empty_tile() } else { tile_at(m0, x, y) });
                            assert(tile_at(m2, x, y) == if on_v_line(prev_y as int, new_y as int, prev_x as int, x, y) { empty_tile() } else { tile_at(m1, x, y) });
                        }
                    }
                }
                proof {
                    lemma_opens_more_trans(m0, m1, map);
                    let c0 = r0[0].center_spec();
                    let last = r0[r0.len() - 1].center_spec();
                    assert(connected(m0, r0));
                    assert(reachable(m0, c0, r0[r0.len() - 1].center_spec()));
                    lemma_reach_grows(m0, map, c0, last);
                    lemma_reach_trans(map, c0, last, (new_x as int, new_y as int));
                }
            }
            let ghost m3 = map;
            let ghost objs = objects@;
            proof {
                lemma_opens_more_trans(m0, m1, map);
                assert(r0.take(r0.len() as int) =~= r0);
                lemma_spawned_well_grows(m0, map, r0, r0, objs, n0);
            }
            if rooms.len() > 0 {
                proof {
                    let st = player_placed(old(objects)@, r0[0]);
                    assert forall|x: int, y: int| #![trigger open_at(map, x, y)] in_interior(new_room, x, y) implies open_at(map, x, y) by {
                        assert(in_bounds(m0, x, y));
                        assert(tile_at(map, x, y) == empty_tile());
                    }
                    lemma_kept_matches(new_room, map, st, all_spawns(pk, width as int, height as int, st), objs, plan.spawns@);
                }
                place_objects(new_room, &plan.spawns, &map, objects);
                proof {
                    let st = player_placed(old(objects)@, r0[0]);
                    lemma_start_then_concat(
                        st,
                        all_spawns(pk, width as int, height as int, st),
                        objs,
                        kept_spawns(new_room, map, objs, plan.spawns@),
                        objects@,
                    );
                    assert(all_spawns(pk1, width as int, height as int, st) == all_spawns(pk, width as int, height as int, st)
                        + free_kept(new_room, st, plan.spawns@, all_spawns(pk, width as int, height as int, st)));
                }
                assert forall|i: int| 0 <= i < objs.len() implies objects@[i] == objs[i] by {
                    assert(objects@.take(objs.len() as int)[i] == objects@[i]);
                }
            }
            rooms.push(new_room);
            proof {
                assert(rooms@.take(r0.len() as int) =~= r0);
                lemma_spawned_well_grows(map, map, r0, rooms@, objs, n0);
                assert forall|i: int| n0 <= i < objects@.len() implies #[trigger] spawned_in_some_room(map, rooms@, objects@, i) by {
                    if i < objs.len() {
                        assert(objects@[i] == objs[i]);
                        assert(objects@.take(i) =~= objs.take(i));
                        assert(spawned_in_some_room(map, rooms@, objs, i));
                    } else {
                        assert(all_placed(map, new_room, plan.spawns@, objects@, objs.len() as int));
                        assert(placed_in(map, new_room, objects@, i));
                        assert(rooms@[rooms@.len() - 1] == new_room);
                    }
                }
                assert forall|i: int| 0 <= i < rooms@.len() implies
                    reachable(map, rooms@[0].center_spec(), #[trigger] rooms@[i].center_spec()) by {
                    if i < r0.len() {
                        assert(rooms@[i] == r0[i]);
                        assert(rooms@[0] == r0[0]);
                        assert(reachable(m0, r0[0].center_spec(), r0[i].center_spec()));
                        lemma_reach_grows(m0, map, r0[0].center_spec(), r0[i].center_spec());
                    }
                }
                assert forall|i: int, x: int, y: int|
                    #![trigger rooms@[i], open_at(map, x, y)]
                    0 <= i < rooms@.len() && in_interior(rooms@[i], x, y) implies open_at(map, x, y) by {
                    if i < r0.len() {
                        assert(rooms@[i] == r0[i]);
                        assert(open_at(m0, x, y));
                    } else {
                        assert(rooms@[i] == new_room);
                        assert(tile_at(m1, x, y) == empty_tile());
                        assert(open_at(m1, x, y));
                    }
                }
                assert forall|x: int, y: int| #![trigger tile_at(map, x, y)]
                    in_bounds(map, x, y) implies tile_at(map, x, y) == if dug(pk1, width as int, height as int, x, y) {
                        empty_tile()
                    } else {
                        wall_tile()
                    } by {
                    assert(in_bounds(m0, x, y));
                    assert(tile_at(m0, x, y) == if dug(pk, width as int, height as int, x, y) { empty_tile() } else { wall_tile() });
                    if r0.len() == 0 {
                        assert(tile_at(m1, x, y) == if in_interior(new_room, x, y) { empty_tile() } else { tile_at(m0, x, y) });
                    }
                }
            }
        } else {
            proof {
                assert forall|x: int, y: int| #![trigger tile_at(map, x, y)]
                    in_bounds(map, x, y) implies tile_at(map, x, y) == if dug(pk1, width as int, height as int, x, y) {
                        empty_tile()
                    } else {
                        wall_tile()
                    } by {
                    assert(tile_at(map, x, y) == if dug(pk, width as int, height as int, x, y) { empty_tile() } else { wall_tile() });
                }
                assert forall|st: Seq<Object>| #[trigger] all_spawns(pk1, width as int, height as int, st)
                    == all_spawns(pk, width as int, height as int, st) by {}
            }
        }
        k += 1;
    }
    assert(all.take(plans@.len() as int) =~= all);
    assert(plans@.take(plans@.len() as int) =~= plans@);
    (map, rooms)
}

} // verus!
