use vstd::prelude::*;
use crate::structs::TileMap;
use crate::dungeon::{carved_from, empty_tile, in_bounds, max_int, min_int, tile_at};

verus! {

/// A tile on the map that does not block movement.
pub open spec fn open_at(map: TileMap, x: int, y: int) -> bool {
    in_bounds(map, x, y) && !tile_at(map, x, y).blocked
}

/// Two cells that share a side.
pub open spec fn adjacent(a: (int, int), b: (int, int)) -> bool {
    (a.0 == b.0 && (a.1 - b.1 == 1 || b.1 - a.1 == 1)) || (a.1 == b.1 && (a.0 - b.0 == 1 || b.0 - a.0 == 1))
}

/// A non-empty sequence of open cells, each beside the next.
pub open spec fn is_walk(map: TileMap, p: Seq<(int, int)>) -> bool {
    &&& p.len() > 0
    &&& forall|i: int| 0 <= i < p.len() ==> open_at(map, #[trigger] p[i].0, p[i].1)
    &&& forall|i: int| 0 <= i < p.len() - 1 ==> #[trigger] adjacent(p[i], p[i + 1])
}

/// `b` can be reached from `a` by steps between open cells that share a side.
pub open spec fn reachable(map: TileMap, a: (int, int), b: (int, int)) -> bool {
    exists|p: Seq<(int, int)>| is_walk(map, p) && p[0] == a && p[p.len() - 1] == b
}

/// Every open tile of `m0` is open in `m1`.
pub open spec fn opens_more(m0: TileMap, m1: TileMap) -> bool {
    forall|x: int, y: int| open_at(m0, x, y) ==> #[trigger] open_at(m1, x, y)
}

pub proof fn lemma_carving_opens_more(m0: TileMap, m1: TileMap, carved: spec_fn(int, int) -> bool)
    requires
        carved_from(m0, m1, carved),
    ensures
        opens_more(m0, m1),
{
    assert forall|x: int, y: int| open_at(m0, x, y) implies #[trigger] open_at(m1, x, y) by {
        assert(tile_at(m1, x, y) == if carved(x, y) { empty_tile() } else { tile_at(m0, x, y) });
    }
}

pub proof fn lemma_opens_more_trans(m0: TileMap, m1: TileMap, m2: TileMap)
    requires
        opens_more(m0, m1),
        opens_more(m1, m2),
    ensures
        opens_more(m0, m2),
{
    assert forall|x: int, y: int| open_at(m0, x, y) implies #[trigger] open_at(m2, x, y) by {
        assert(open_at(m1, x, y));
    }
}

pub proof fn lemma_reach_grows(m0: TileMap, m1: TileMap, a: (int, int), b: (int, int))
    requires
        reachable(m0, a, b),
        opens_more(m0, m1),
    ensures
        reachable(m1, a, b),
{
    let p = choose|p: Seq<(int, int)>| is_walk(m0, p) && p[0] == a && p[p.len() - 1] == b;
    assert forall|i: int| 0 <= i < p.len() implies open_at(m1, #[trigger] p[i].0, p[i].1) by {
        assert(open_at(m0, p[i].0, p[i].1));
    }
    assert(is_walk(m1, p));
}

pub proof fn lemma_reach_self(m: TileMap, a: (int, int))
    requires
        open_at(m, a.0, a.1),
    ensures
        reachable(m, a, a),
{
    let p = seq![a];
    assert(is_walk(m, p));
}

pub proof fn lemma_reach_trans(m: TileMap, a: (int, int), b: (int, int), c: (int, int))
    requires
        reachable(m, a, b),
        reachable(m, b, c),
    ensures
        reachable(m, a, c),
{
    let p = choose|p: Seq<(int, int)>| is_walk(m, p) && p[0] == a && p[p.len() - 1] == b;
    let q = choose|q: Seq<(int, int)>| is_walk(m, q) && q[0] == b && q[q.len() - 1] == c;
    let r = p + q.drop_first();
    assert forall|i: int| 0 <= i < r.len() implies open_at(m, #[trigger] r[i].0, r[i].1) by {
        if i < p.len() {
            assert(r[i] == p[i]);
        } else {
            assert(r[i] == q[i - p.len() + 1]);
        }
    }
    assert forall|i: int| 0 <= i < r.len() - 1 implies #[trigger] adjacent(r[i], r[i + 1]) by {
        if i < p.len() - 1 {
            assert(r[i] == p[i] && r[i + 1] == p[i + 1]);
            assert(adjacent(p[i], p[i + 1]));
        } else if i == p.len() - 1 {
            assert(r[i] == b && r[i + 1] == q[1]);
            assert(adjacent(q[0], q[1]));
        } else {
            let k = i - p.len() + 1;
            assert(r[i] == q[k] && r[i + 1] == q[k + 1]);
            assert(adjacent(q[k], q[k + 1]));
        }
    }
    if q.len() == 1 {
        assert(r =~= p);
    } else {
        assert(r[r.len() - 1] == q[q.len() - 1]);
    }
    assert(is_walk(m, r));
}

/// A straight row from `(x1, y)` to `(x2, y)` whose cells are all open is walkable.
pub proof fn lemma_row_walk(m: TileMap, x1: int, x2: int, y: int)
    requires
        forall|x: int| min_int(x1, x2) <= x <= max_int(x1, x2) ==> #[trigger] open_at(m, x, y),
    ensures
        reachable(m, (x1, y), (x2, y)),
{
    let n = if x1 <= x2 { x2 - x1 + 1 } else { x1 - x2 + 1 };
    let p = Seq::new(n as nat, |i: int| if x1 <= x2 { (x1 + i, y) } else { (x1 - i, y) });
    assert forall|i: int| 0 <= i < p.len() implies open_at(m, #[trigger] p[i].0, p[i].1) by {
        assert(open_at(m, p[i].0, y));
    }
    assert forall|i: int| 0 <= i < p.len() - 1 implies #[trigger] adjacent(p[i], p[i + 1]) by {}
    assert(is_walk(m, p));
}

/// A straight column from `(x, y1)` to `(x, y2)` whose cells are all open is walkable.
pub proof fn lemma_column_walk(m: TileMap, y1: int, y2: int, x: int)
    requires
        forall|y: int| min_int(y1, y2) <= y <= max_int(y1, y2) ==> #[trigger] open_at(m, x, y),
    ensures
        reachable(m, (x, y1), (x, y2)),
{
    let n = if y1 <= y2 { y2 - y1 + 1 } else { y1 - y2 + 1 };
    let p = Seq::new(n as nat, |i: int| if y1 <= y2 { (x, y1 + i) } else { (x, y1 - i) });
    assert forall|i: int| 0 <= i < p.len() implies open_at(m, #[trigger] p[i].0, p[i].1) by {
        assert(open_at(m, x, p[i].1));
    }
    assert forall|i: int| 0 <= i < p.len() - 1 implies #[trigger] adjacent(p[i], p[i + 1]) by {}
    assert(is_walk(m, p));
}

} // verus!
