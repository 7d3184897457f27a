use vstd::prelude::*;

verus! {

/// Squared Euclidean distance between (ax, ay) and (bx, by), as a
/// mathematical integer. Every range rule in the game compares a
/// squared distance against a squared threshold, which decides
/// exactly as comparing the real distances would.
pub open spec fn dist_sq(ax: int, ay: int, bx: int, by: int) -> int {
    (bx - ax) * (bx - ax) + (by - ay) * (by - ay)
}

/// Squared distance of two in-range points, computed exactly.
pub fn distance_sq(ax: i32, ay: i32, bx: i32, by: i32) -> (d: i64)
    requires
        -0x10000 <= ax <= 0x10000,
        -0x10000 <= ay <= 0x10000,
        -0x10000 <= bx <= 0x10000,
        -0x10000 <= by <= 0x10000,
    ensures
        d == dist_sq(ax as int, ay as int, bx as int, by as int),
{
    let dx: i64 = bx as i64 - ax as i64;
    let dy: i64 = by as i64 - ay as i64;
    assert(dx * dx <= 0x20000 * 0x20000 && dx * dx >= 0) by (nonlinear_arith)
        requires -0x20000 <= dx <= 0x20000;
    assert(dy * dy <= 0x20000 * 0x20000 && dy * dy >= 0) by (nonlinear_arith)
        requires -0x20000 <= dy <= 0x20000;
    dx * dx + dy * dy
}

/// An axis-aligned room candidate; `x2`/`y2` are one past the interior,
/// and the border (`x1`/`y1`/`x2`/`y2` lines) stays wall when carved.
#[derive(Clone, Copy, Debug, PartialEq, Eq, Structural)]
pub struct Rect {
    pub x1: i32,
    pub y1: i32,
    pub x2: i32,
    pub y2: i32,
}

impl Rect {
    pub fn new(x: i32, y: i32, w: i32, h: i32) -> (r: Rect)
        requires
            0 <= w,
            0 <= h,
            x + w <= i32::MAX,
            y + h <= i32::MAX,
        ensures
            r.x1 == x && r.y1 == y && r.x2 == x + w && r.y2 == y + h,
    {
        Rect { x1: x, y1: y, x2: x + w, y2: y + h }
    }

    /// The midpoint of the rectangle, which generation uses as the
    /// room's anchor for tunnels, the start position and the stairs.
    pub fn center(&self) -> (c: (i32, i32))
        requires
            0 <= self.x1 <= self.x2,
            0 <= self.y1 <= self.y2,
            self.x1 + self.x2 <= i32::MAX,
            self.y1 + self.y2 <= i32::MAX,
        ensures
            c.0 == (self.x1 + self.x2) / 2,
            c.1 == (self.y1 + self.y2) / 2,
            self.x1 <= c.0 <= self.x2,
            self.y1 <= c.1 <= self.y2,
    {
        let cx = (self.x1 + self.x2) / 2;
        let cy = (self.y1 + self.y2) / 2;
        (cx, cy)
    }

    /// Inclusive-bound intersection test: touching rectangles count
    /// as intersecting, so accepted rooms keep at least their border apart.
    pub fn intersects_with(&self, other: &Rect) -> (b: bool)
        ensures
            b == rect_overlap(*self, *other),
    {
        (self.x1 <= other.x2) && (self.x2 >= other.x1) && (self.y1 <= other.y2) && (self.y2
            >= other.y1)
    }
}

/// Two rectangles overlap under the inclusive bounds test.
pub open spec fn rect_overlap(a: Rect, b: Rect) -> bool {
    a.x1 <= b.x2 && a.x2 >= b.x1 && a.y1 <= b.y2 && a.y2 >= b.y1
}

} // verus!
