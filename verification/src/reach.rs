use vstd::prelude::*;
use crate::tile::{Tile, in_bounds};
use crate::geometry::Rect;
use crate::mapgen::room_interior;

verus! {

/// The cell is on the grid and walkable.
pub open spec fn floor_at(m: Seq<Seq<Tile>>, x: int, y: int) -> bool {
    in_bounds(x, y) && !m[x][y].blocked
}

/// One orthogonal grid step.
pub open spec fn step_adj(a: (int, int), b: (int, int)) -> bool {
    ||| (a.0 == b.0 && (a.1 == b.1 + 1 || a.1 == b.1 - 1))
    ||| (a.1 == b.1 && (a.0 == b.0 + 1 || a.0 == b.0 - 1))
}

/// A non-empty sequence of floor cells, each adjacent to the next.
pub open spec fn is_floor_path(m: Seq<Seq<Tile>>, p: Seq<(int, int)>) -> bool {
    &&& p.len() >= 1
    &&& forall|i: int| 0 <= i < p.len() ==> floor_at(m, (#[trigger] p[i]).0, p[i].1)
    &&& forall|i: int| 0 <= i < p.len() - 1 ==> step_adj(#[trigger] p[i], p[i + 1])
}

/// `b` can be walked to from `a` over floor tiles.
pub open spec fn reachable(m: Seq<Seq<Tile>>, a: (int, int), b: (int, int)) -> bool {
    exists|p: Seq<(int, int)>| is_floor_path(m, p) && p.first() == a && p.last() == b
}

/// A floor cell reaches itself.
pub proof fn lemma_reach_self(m: Seq<Seq<Tile>>, a: (int, int))
    requires
        floor_at(m, a.0, a.1),
    ensures
        reachable(m, a, a),
{
    let p = seq![a];
    assert(is_floor_path(m, p));
    assert(p.first() == a && p.last() == a);
}

/// Walks compose.
pub proof fn lemma_reach_trans(m: Seq<Seq<Tile>>, a: (int, int), b: (int, int), c: (int, int))
    requires
        reachable(m, a, b),
        reachable(m, b, c),
    ensures
        reachable(m, a, c),
{
    let p1 = choose|p: Seq<(int, int)>| is_floor_path(m, p) && p.first() == a && p.last() == b;
    let p2 = choose|p: Seq<(int, int)>| is_floor_path(m, p) && p.first() == b && p.last() == c;
    if p2.len() == 1 {
        assert(is_floor_path(m, p1) && p1.first() == a && p1.last() == c);
    } else {
        let q = p1 + p2.subrange(1, p2.len() as int);
        assert forall|i: int| 0 <= i < q.len() implies floor_at(m, (#[trigger] q[i]).0, q[i].1) by {
            if i < p1.len() {
                assert(q[i] == p1[i]);
            } else {
                assert(q[i] == p2[i - p1.len() + 1]);
            }
        }
        assert forall|i: int| 0 <= i < q.len() - 1 implies step_adj(#[trigger] q[i], q[i + 1]) by {
            if i < p1.len() - 1 {
                assert(q[i] == p1[i] && q[i + 1] == p1[i + 1]);
            } else if i == p1.len() - 1 {
                assert(q[i] == p1[p1.len() - 1]);
                assert(q[i + 1] == p2[1]);
                assert(step_adj(p2[0], p2[1]));
            } else {
                assert(q[i] == p2[i - p1.len() + 1] && q[i + 1] == p2[i - p1.len() + 2]);
            }
        }
        assert(is_floor_path(m, q));
        assert(q.first() == a);
        assert(q.last() == p2[p2.len() - 1]);
    }
}

/// A walk in one grid stays a walk in any grid with at least its floor.
pub proof fn lemma_reach_monotone(m1: Seq<Seq<Tile>>, m2: Seq<Seq<Tile>>, a: (int, int), b: (int, int))
    requires
        reachable(m1, a, b),
        forall|x: int, y: int| floor_at(m1, x, y) ==> floor_at(m2, x, y),
    ensures
        reachable(m2, a, b),
{
    let p = choose|p: Seq<(int, int)>| is_floor_path(m1, p) && p.first() == a && p.last() == b;
    assert forall|i: int| 0 <= i < p.len() implies floor_at(m2, (#[trigger] p[i]).0, p[i].1) by {
        assert(floor_at(m1, p[i].0, p[i].1));
    }
    assert(is_floor_path(m2, p));
}

/// A horizontal run of floor cells can be walked end to end.
pub proof fn lemma_h_path(m: Seq<Seq<Tile>>, x1: int, x2: int, y: int)
    requires
        forall|x: int| #![auto] (if x1 <= x2 { x1 <= x <= x2 } else { x2 <= x <= x1 }) ==> floor_at(m, x, y),
    ensures
        reachable(m, (x1, y), (x2, y)),
{
    if x1 <= x2 {
        let p = Seq::new((x2 - x1 + 1) as nat, |i: int| (x1 + i, y));
        assert(is_floor_path(m, p));
        assert(p.first() == (x1, y) && p.last() == (x2, y));
    } else {
        let p = Seq::new((x1 - x2 + 1) as nat, |i: int| (x1 - i, y));
        assert(is_floor_path(m, p));
        assert(p.first() == (x1, y) && p.last() == (x2, y));
    }
}

/// A vertical run of floor cells can be walked end to end.
pub proof fn lemma_v_path(m: Seq<Seq<Tile>>, y1: int, y2: int, x: int)
    requires
        forall|y: int| #![auto] (if y1 <= y2 { y1 <= y <= y2 } else { y2 <= y <= y1 }) ==> floor_at(m, x, y),
    ensures
        reachable(m, (x, y1), (x, y2)),
{
    if y1 <= y2 {
        let p = Seq::new((y2 - y1 + 1) as nat, |i: int| (x, y1 + i));
        assert(is_floor_path(m, p));
        assert(p.first() == (x, y1) && p.last() == (x, y2));
    } else {
        let p = Seq::new((y1 - y2 + 1) as nat, |i: int| (x, y1 - i));
        assert(is_floor_path(m, p));
        assert(p.first() == (x, y1) && p.last() == (x, y2));
    }
}

/// Any two interior cells of a carved room can be walked between:
/// go along the first cell's row, then down the second cell's column.
pub proof fn lemma_room_connected(m: Seq<Seq<Tile>>, r: Rect, a: (int, int), b: (int, int))
    requires
        forall|x: int, y: int| room_interior(r, x, y) ==> floor_at(m, x, y),
        room_interior(r, a.0, a.1),
        room_interior(r, b.0, b.1),
    ensures
        reachable(m, a, b),
{
    assert forall|x: int| #![auto] (if a.0 <= b.0 { a.0 <= x <= b.0 } else { b.0 <= x <= a.0 })
        implies floor_at(m, x, a.1) by {
        assert(room_interior(r, x, a.1));
    }
    lemma_h_path(m, a.0, b.0, a.1);
    assert forall|y: int| #![auto] (if a.1 <= b.1 { a.1 <= y <= b.1 } else { b.1 <= y <= a.1 })
        implies floor_at(m, b.0, y) by {
        assert(room_interior(r, b.0, y));
    }
    lemma_v_path(m, a.1, b.1, b.0);
    lemma_reach_trans(m, a, (b.0, a.1), b);
}

} // verus!
