//! Grid points, their coordinates along a splitting axis, and squared distance.
use vstd::prelude::*;

verus! {

/// A grid location `(x, y)`.
pub type Point = (usize, usize);

/// Exclusive upper bound of a coordinate, which keeps every squared
/// distance between two grid points within `u128`.
pub open spec fn coord_limit() -> int {
    0x8000_0000_0000_0000
}

/// Whether both coordinates of `p` lie below `coord_limit()`.
pub open spec fn in_grid(p: Point) -> bool {
    p.0 < coord_limit() && p.1 < coord_limit()
}

/// Whether every point of `s` lies in the grid.
pub open spec fn all_in_grid(s: Seq<Point>) -> bool {
    forall|p: Point| s.contains(p) ==> in_grid(p)
}

/// The coordinate of `p` on the x axis when `on_x`, else on the y axis.
pub open spec fn coord(p: Point, on_x: bool) -> int {
    if on_x {
        p.0 as int
    } else {
        p.1 as int
    }
}

/// The absolute difference of two integers.
pub open spec fn abs_diff(a: int, b: int) -> int {
    if a < b {
        b - a
    } else {
        a - b
    }
}

/// The squared Euclidean distance between `p` and `q`.
pub open spec fn sq_dist(p: Point, q: Point) -> int {
    (p.0 - q.0) * (p.0 - q.0) + (p.1 - q.1) * (p.1 - q.1)
}

/// Squares of integers in the grid fit below 2^126.
proof fn lemma_square_bound(d: int)
    requires
        0 <= d < coord_limit(),
    ensures
        0 <= d * d < 0x4000_0000_0000_0000_0000_0000_0000_0000,
{
    assert(0 <= d * d <= d * 0x8000_0000_0000_0000) by (nonlinear_arith)
        requires
            0 <= d < 0x8000_0000_0000_0000,
    ;
    assert(d * 0x8000_0000_0000_0000 < 0x8000_0000_0000_0000 * 0x8000_0000_0000_0000)
        by (nonlinear_arith)
        requires
            0 <= d < 0x8000_0000_0000_0000,
    ;
}

/// Tells whether `p` lies in the grid that the tree supports.
pub fn is_grid_point(p: &Point) -> (r: bool)
    ensures
        r == in_grid(*p),
{
    (p.0 as u128) < 0x8000_0000_0000_0000u128 && (p.1 as u128) < 0x8000_0000_0000_0000u128
}

/// The coordinate of `p` on the axis chosen by `on_x`.
pub fn axis_coord(p: &Point, on_x: bool) -> (r: usize)
    ensures
        r == coord(*p, on_x),
{
    if on_x {
        p.0
    } else {
        p.1
    }
}

/// The absolute difference of two coordinates.
pub fn gap(a: usize, b: usize) -> (r: usize)
    ensures
        r == abs_diff(a as int, b as int),
{
    if a < b {
        b - a
    } else {
        a - b
    }
}

/// The squared Euclidean distance between two grid points, computed from the
/// absolute coordinate differences so that no subtraction underflows.
pub fn sqr_distance(p1: &Point, p2: &Point) -> (r: u128)
    requires
        in_grid(*p1),
        in_grid(*p2),
    ensures
        r == sq_dist(*p1, *p2),
{
    let dx: u128 = gap(p1.0, p2.0) as u128;
    let dy: u128 = gap(p1.1, p2.1) as u128;
    proof {
        lemma_square_bound(dx as int);
        lemma_square_bound(dy as int);
        assert(sq_dist(*p1, *p2) == dx * dx + dy * dy) by (nonlinear_arith)
            requires
                dx == abs_diff(p1.0 as int, p2.0 as int),
                dy == abs_diff(p1.1 as int, p2.1 as int),
        ;
    }
    dx * dx + dy * dy
}

} // verus!
