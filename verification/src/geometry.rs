//! Exact integer geometry: points, axis-aligned rectangles, containment,
//! segment/rectangle intersection, and integer-rounded Euclidean distance.
//!
//! One world unit is `MILLI` coordinate steps, so a coordinate is a
//! fixed-point number with three decimal digits.  Every predicate is decided
//! exactly in integer arithmetic.

use vstd::prelude::*;

verus! {

/// Coordinate steps per world unit.
pub const MILLI: u64 = 1000;

/// Largest coordinate magnitude accepted by the segment/rectangle
/// intersection test (products of differences must fit in `i128`).
pub const SEG_COORD_LIMIT: i64 = 0x1000_0000_0000_0000;

/// Largest coordinate magnitude accepted by the squared-distance
/// computation (the sum of squares must fit in `u64`).
pub const DIST_COORD_LIMIT: i64 = 0x4000_0000;

/// A 2D point in fixed-point coordinates.
#[derive(Clone, Copy, Debug, PartialEq, Eq, Structural)]
pub struct Point {
    pub x: i64,
    pub y: i64,
}

/// A closed axis-aligned rectangle in fixed-point coordinates.
#[derive(Clone, Copy, Debug, PartialEq, Eq, Structural)]
pub struct Rect {
    pub x_min: i64,
    pub y_min: i64,
    pub x_max: i64,
    pub y_max: i64,
}

impl Point {
    /// Coordinates small enough for the intersection test.
    pub open spec fn seg_bounded(self) -> bool {
        -SEG_COORD_LIMIT <= self.x <= SEG_COORD_LIMIT
            && -SEG_COORD_LIMIT <= self.y <= SEG_COORD_LIMIT
    }

    /// Coordinates small enough for the squared-distance computation.
    pub open spec fn dist_bounded(self) -> bool {
        -DIST_COORD_LIMIT <= self.x <= DIST_COORD_LIMIT
            && -DIST_COORD_LIMIT <= self.y <= DIST_COORD_LIMIT
    }

    pub fn new(x: i64, y: i64) -> (p: Point)
        ensures
            p.x == x,
            p.y == y,
    {
        Point { x, y }
    }
}

impl Rect {
    /// A rectangle is well formed when its corners are ordered and its
    /// coordinates are small enough for the intersection test.
    pub open spec fn wf(self) -> bool {
        self.x_min <= self.x_max
            && self.y_min <= self.y_max
            && -SEG_COORD_LIMIT <= self.x_min
            && self.x_max <= SEG_COORD_LIMIT
            && -SEG_COORD_LIMIT <= self.y_min
            && self.y_max <= SEG_COORD_LIMIT
    }

    /// The rectangle spanned by two arbitrary opposite corners.
    pub open spec fn spec_from_corners(c1: Point, c2: Point) -> Rect {
        Rect {
            x_min: if c1.x <= c2.x { c1.x } else { c2.x },
            x_max: if c1.x <= c2.x { c2.x } else { c1.x },
            y_min: if c1.y <= c2.y { c1.y } else { c2.y },
            y_max: if c1.y <= c2.y { c2.y } else { c1.y },
        }
    }

    /// Builds the rectangle spanned by two arbitrary opposite corners.
    pub fn from_corners(c1: Point, c2: Point) -> (r: Rect)
        ensures
            r == Rect::spec_from_corners(c1, c2),
            c1.seg_bounded() && c2.seg_bounded() ==> r.wf(),
    {
        let x_min = if c1.x <= c2.x { c1.x } else { c2.x };
        let x_max = if c1.x <= c2.x { c2.x } else { c1.x };
        let y_min = if c1.y <= c2.y { c1.y } else { c2.y };
        let y_max = if c1.y <= c2.y { c2.y } else { c1.y };
        Rect { x_min, y_min, x_max, y_max }
    }
}

/// The point lies in the closed rectangle.
pub open spec fn in_rect(p: Point, r: Rect) -> bool {
    r.x_min <= p.x <= r.x_max && r.y_min <= p.y <= r.y_max
}

/// Decides `in_rect`.
pub fn in_rect_exec(p: &Point, r: &Rect) -> (res: bool)
    ensures
        res == in_rect(*p, *r),
{
    r.x_min <= p.x && p.x <= r.x_max && r.y_min <= p.y && p.y <= r.y_max
}

/// Twice the signed area of the triangle `(a, b, c)`: positive when `c` lies
/// to the left of the directed line from `a` to `b`.
pub open spec fn side(ax: int, ay: int, bx: int, by: int, cx: int, cy: int) -> int {
    (bx - ax) * (cy - ay) - (by - ay) * (cx - ax)
}

/// The closed segment from `a` to `b` meets the closed rectangle `r`.
///
/// This is the separating-axis characterization: the two convex sets are
/// disjoint exactly when the rectangle's x-axis, its y-axis, or the
/// segment's normal separates them.  So they intersect when the bounding
/// boxes overlap on both axes and the four rectangle corners do not all lie
/// strictly on one side of the segment's supporting line.  A degenerate
/// segment (`a == b`) makes every `side` value zero, and the test reduces to
/// point containment.
pub open spec fn seg_intersects_rect(a: Point, b: Point, r: Rect) -> bool {
    let d1 = side(a.x as int, a.y as int, b.x as int, b.y as int, r.x_min as int, r.y_min as int);
    let d2 = side(a.x as int, a.y as int, b.x as int, b.y as int, r.x_max as int, r.y_min as int);
    let d3 = side(a.x as int, a.y as int, b.x as int, b.y as int, r.x_max as int, r.y_max as int);
    let d4 = side(a.x as int, a.y as int, b.x as int, b.y as int, r.x_min as int, r.y_max as int);
    &&& (a.x >= r.x_min || b.x >= r.x_min)
    &&& (a.x <= r.x_max || b.x <= r.x_max)
    &&& (a.y >= r.y_min || b.y >= r.y_min)
    &&& (a.y <= r.y_max || b.y <= r.y_max)
    &&& !(d1 > 0 && d2 > 0 && d3 > 0 && d4 > 0)
    &&& !(d1 < 0 && d2 < 0 && d3 < 0 && d4 < 0)
}

/// Computes `side` exactly in `i128` arithmetic.
fn side_exec(ax: i64, ay: i64, bx: i64, by: i64, cx: i64, cy: i64) -> (res: i128)
    requires
        -SEG_COORD_LIMIT <= ax <= SEG_COORD_LIMIT,
        -SEG_COORD_LIMIT <= ay <= SEG_COORD_LIMIT,
        -SEG_COORD_LIMIT <= bx <= SEG_COORD_LIMIT,
        -SEG_COORD_LIMIT <= by <= SEG_COORD_LIMIT,
        -SEG_COORD_LIMIT <= cx <= SEG_COORD_LIMIT,
        -SEG_COORD_LIMIT <= cy <= SEG_COORD_LIMIT,
    ensures
        res == side(ax as int, ay as int, bx as int, by as int, cx as int, cy as int),
{
    let vx: i128 = bx as i128 - ax as i128;
    let vy: i128 = by as i128 - ay as i128;
    let wx: i128 = cx as i128 - ax as i128;
    let wy: i128 = cy as i128 - ay as i128;
    proof {
        assert(vx * wy <= 0x2000_0000_0000_0001i128 * 0x2000_0000_0000_0001i128
            && vx * wy >= -(0x2000_0000_0000_0001i128 * 0x2000_0000_0000_0001i128)) by (nonlinear_arith)
            requires
                -0x2000_0000_0000_0001i128 <= vx <= 0x2000_0000_0000_0001i128,
                -0x2000_0000_0000_0001i128 <= wy <= 0x2000_0000_0000_0001i128;
        assert(vy * wx <= 0x2000_0000_0000_0001i128 * 0x2000_0000_0000_0001i128
            && vy * wx >= -(0x2000_0000_0000_0001i128 * 0x2000_0000_0000_0001i128)) by (nonlinear_arith)
            requires
                -0x2000_0000_0000_0001i128 <= vy <= 0x2000_0000_0000_0001i128,
                -0x2000_0000_0000_0001i128 <= wx <= 0x2000_0000_0000_0001i128;
    }
    vx * wy - vy * wx
}

/// Decides `seg_intersects_rect`.
pub fn seg_intersects_rect_exec(a: &Point, b: &Point, r: &Rect) -> (res: bool)
    requires
        a.seg_bounded(),
        b.seg_bounded(),
        r.wf(),
    ensures
        res == seg_intersects_rect(*a, *b, *r),
{
    if !((a.x >= r.x_min || b.x >= r.x_min) && (a.x <= r.x_max || b.x <= r.x_max)
        && (a.y >= r.y_min || b.y >= r.y_min) && (a.y <= r.y_max || b.y <= r.y_max)) {
        return false;
    }
    let d1 = side_exec(a.x, a.y, b.x, b.y, r.x_min, r.y_min);
    let d2 = side_exec(a.x, a.y, b.x, b.y, r.x_max, r.y_min);
    let d3 = side_exec(a.x, a.y, b.x, b.y, r.x_max, r.y_max);
    let d4 = side_exec(a.x, a.y, b.x, b.y, r.x_min, r.y_max);
    if d1 > 0 && d2 > 0 && d3 > 0 && d4 > 0 {
        return false;
    }
    if d1 < 0 && d2 < 0 && d3 < 0 && d4 < 0 {
        return false;
    }
    true
}

/// The squared Euclidean distance between two points, in coordinate steps.
pub open spec fn dist2(p: Point, q: Point) -> int {
    (p.x - q.x) * (p.x - q.x) + (p.y - q.y) * (p.y - q.y)
}

/// Computes `dist2` exactly.
pub fn dist2_exec(p: &Point, q: &Point) -> (d: u64)
    requires
        p.dist_bounded(),
        q.dist_bounded(),
    ensures
        d == dist2(*p, *q),
{
    let dx: i128 = p.x as i128 - q.x as i128;
    let dy: i128 = p.y as i128 - q.y as i128;
    proof {
        assert(0 <= dx * dx <= 0x8000_0000i128 * 0x8000_0000i128) by (nonlinear_arith)
            requires -0x8000_0000i128 <= dx <= 0x8000_0000i128;
        assert(0 <= dy * dy <= 0x8000_0000i128 * 0x8000_0000i128) by (nonlinear_arith)
            requires -0x8000_0000i128 <= dy <= 0x8000_0000i128;
    }
    (dx * dx + dy * dy) as u64
}

/// `r` is the integer square root of `n` rounded down.
pub open spec fn is_floor_sqrt(n: int, r: int) -> bool {
    0 <= r && r * r <= n && n < (r + 1) * (r + 1)
}

/// The integer square root, rounded down.
pub open spec fn floor_sqrt(n: int) -> int {
    choose|r: int| is_floor_sqrt(n, r)
}

/// Two witnesses of `is_floor_sqrt` are equal.
pub proof fn lemma_floor_sqrt_unique(n: int, r1: int, r2: int)
    requires
        is_floor_sqrt(n, r1),
        is_floor_sqrt(n, r2),
    ensures
        r1 == r2,
{
    if r1 < r2 {
        assert((r1 + 1) * (r1 + 1) <= r2 * r2) by (nonlinear_arith)
            requires 0 <= r1, 0 <= r2, r1 + 1 <= r2;
    }
    if r2 < r1 {
        assert((r2 + 1) * (r2 + 1) <= r1 * r1) by (nonlinear_arith)
            requires 0 <= r1, 0 <= r2, r2 + 1 <= r1;
    }
}

/// Computes the integer square root of `n`, rounded down, by binary search.
pub fn isqrt(n: u64) -> (r: u64)
    ensures
        is_floor_sqrt(n as int, r as int),
        r == floor_sqrt(n as int),
        r < 0x1_0000_0000,
{
    let mut lo: u64 = 0;
    let mut hi: u64 = 0x1_0000_0000;
    while lo + 1 < hi
        invariant
            0 <= lo < hi <= 0x1_0000_0000,
            lo * lo <= n,
            n < hi * hi,
        decreases hi - lo,
    {
        let mid = lo + (hi - lo) / 2;
        proof {
            assert((mid as u128) * (mid as u128) <= 0x1_0000_0000u128 * 0x1_0000_0000u128)
                by (nonlinear_arith)
                requires 0 <= mid as u128 <= 0x1_0000_0000u128;
        }
        if (mid as u128) * (mid as u128) <= n as u128 {
            lo = mid;
        } else {
            hi = mid;
        }
    }
    proof {
        assert(is_floor_sqrt(n as int, lo as int));
        lemma_floor_sqrt_unique(n as int, lo as int, floor_sqrt(n as int));
    }
    lo
}

/// The squared distance `d2`, in coordinate steps, converted to a world-unit
/// distance and rounded half away from zero.
pub open spec fn rounded_dist(d2: int) -> int {
    (floor_sqrt(d2) + (MILLI / 2) as int) / (MILLI as int)
}

/// Computes `rounded_dist`.
pub fn rounded_dist_exec(d2: u64) -> (w: u64)
    ensures
        w == rounded_dist(d2 as int),
        w <= 0x1_0000_0000,
{
    let r = isqrt(d2);
    (r + 500) / 1000
}

/// Every non-negative integer has an integer square root.
pub proof fn lemma_floor_sqrt_exists(n: int)
    requires
        0 <= n,
    ensures
        is_floor_sqrt(n, floor_sqrt(n)),
    decreases n,
{
    if n == 0 {
        assert(is_floor_sqrt(0, 0));
    } else {
        lemma_floor_sqrt_exists(n - 1);
        let r = floor_sqrt(n - 1);
        if (r + 1) * (r + 1) <= n {
            assert((r + 2) * (r + 2) > n) by (nonlinear_arith)
                requires 0 <= r, n - 1 < (r + 1) * (r + 1);
            assert(is_floor_sqrt(n, r + 1));
        } else {
            assert(is_floor_sqrt(n, r));
        }
    }
    let w = choose|w: int| is_floor_sqrt(n, w);
    lemma_floor_sqrt_unique(n, w, floor_sqrt(n));
}

/// A bounded squared distance gives a small rounded distance.
pub proof fn lemma_rounded_dist_bound(d2: int)
    requires
        0 <= d2 <= 0x8000_0000_0000_0000,
    ensures
        0 <= rounded_dist(d2) <= 0x40_0000,
{
    lemma_floor_sqrt_exists(d2);
    let r = floor_sqrt(d2);
    assert(r <= 3_037_000_499) by (nonlinear_arith)
        requires 0 <= r, r * r <= 0x8000_0000_0000_0000u64 as int;
    assert(0 <= (r + 500) / 1000 <= 0x40_0000) by (nonlinear_arith)
        requires 0 <= r <= 3_037_000_499int;
    assert(rounded_dist(d2) == (r + 500) / 1000);
}

/// The squared distance of two bounded points is bounded.
pub proof fn lemma_dist2_bound(p: Point, q: Point)
    requires
        p.dist_bounded(),
        q.dist_bounded(),
    ensures
        0 <= dist2(p, q) <= 0x8000_0000_0000_0000,
{
    let dx = p.x - q.x;
    let dy = p.y - q.y;
    assert(0 <= dx * dx <= 0x8000_0000int * 0x8000_0000int) by (nonlinear_arith)
        requires -0x8000_0000int <= dx <= 0x8000_0000int;
    assert(0 <= dy * dy <= 0x8000_0000int * 0x8000_0000int) by (nonlinear_arith)
        requires -0x8000_0000int <= dy <= 0x8000_0000int;
}

/// A segment with an endpoint inside the rectangle meets it.
pub proof fn lemma_endpoint_in_rect_intersects(a: Point, b: Point, r: Rect)
    requires
        in_rect(a, r),
    ensures
        seg_intersects_rect(a, b, r),
{
    let vx = b.x - a.x;
    let vy = b.y - a.y;
    let fxmin: int = if -vy >= 0 { r.x_min as int } else { r.x_max as int };
    let fymin: int = if vx >= 0 { r.y_min as int } else { r.y_max as int };
    let fxmax: int = if -vy >= 0 { r.x_max as int } else { r.x_min as int };
    let fymax: int = if vx >= 0 { r.y_max as int } else { r.y_min as int };
    assert(side(a.x as int, a.y as int, b.x as int, b.y as int, a.x as int, a.y as int) == 0)
        by (nonlinear_arith);
    assert(-vy * fxmin <= -vy * a.x) by (nonlinear_arith)
        requires
            fxmin == if -vy >= 0 { r.x_min as int } else { r.x_max as int },
            r.x_min <= a.x <= r.x_max;
    assert(vx * fymin <= vx * a.y) by (nonlinear_arith)
        requires
            fymin == if vx >= 0 { r.y_min as int } else { r.y_max as int },
            r.y_min <= a.y <= r.y_max;
    assert(-vy * a.x <= -vy * fxmax) by (nonlinear_arith)
        requires
            fxmax == if -vy >= 0 { r.x_max as int } else { r.x_min as int },
            r.x_min <= a.x <= r.x_max;
    assert(vx * a.y <= vx * fymax) by (nonlinear_arith)
        requires
            fymax == if vx >= 0 { r.y_max as int } else { r.y_min as int },
            r.y_min <= a.y <= r.y_max;
    assert forall|cx: int, cy: int|
        side(a.x as int, a.y as int, b.x as int, b.y as int, cx, cy)
            == -vy * cx + vx * cy + (vy * a.x - vx * a.y) by {
        assert(side(a.x as int, a.y as int, b.x as int, b.y as int, cx, cy)
            == -vy * cx + vx * cy + (vy * a.x - vx * a.y)) by (nonlinear_arith)
            requires vx == b.x - a.x, vy == b.y - a.y;
    }
    assert(side(a.x as int, a.y as int, b.x as int, b.y as int, fxmin, fymin) <= 0);
    assert(side(a.x as int, a.y as int, b.x as int, b.y as int, fxmax, fymax) >= 0);
}

} // verus!
