//! The squared distance field over a pixel grid, where each pixel takes the
//! least distance found from itself and its three mirror images.
use vstd::prelude::*;
use crate::point::{Point, in_grid};
use crate::kdtree::{KdTree, cand_view};

verus! {

/// The least of two integers.
pub open spec fn min2(a: int, b: int) -> int {
    if a <= b {
        a
    } else {
        b
    }
}

/// `p` reflected in the grid's edges: itself, across the y extent, across the
/// x extent, and across both.
pub open spec fn mirror(p: Point, bounds: Point, k: int) -> Point {
    if k == 0 {
        p
    } else if k == 1 {
        (p.0, (bounds.1 - p.1) as usize)
    } else if k == 2 {
        ((bounds.0 - p.0) as usize, p.1)
    } else {
        ((bounds.0 - p.0) as usize, (bounds.1 - p.1) as usize)
    }
}

/// The least squared distance from any of the four mirror images of `p` to
/// the tree's points.
pub open spec fn mirrored_sq(t: KdTree, p: Point, bounds: Point) -> int {
    min2(
        min2(t.nearest_spec(mirror(p, bounds, 0)).0, t.nearest_spec(mirror(p, bounds, 1)).0),
        min2(t.nearest_spec(mirror(p, bounds, 2)).0, t.nearest_spec(mirror(p, bounds, 3)).0),
    )
}

impl KdTree {
    /// The least squared distance from `p` or one of its mirror images within
    /// `bounds` to the tree's points, which approximates a wrapped grid.
    pub fn nearest_mirrored(&self, p: &Point, bounds: &Point) -> (r: u128)
        requires
            self.wf(),
            in_grid(*bounds),
            p.0 <= bounds.0,
            p.1 <= bounds.1,
        ensures
            r == mirrored_sq(*self, *p, *bounds),
    {
        let a = self.nearest(p).0;
        let b = self.nearest(&(p.0, bounds.1 - p.1)).0;
        let c = self.nearest(&(bounds.0 - p.0, p.1)).0;
        let d = self.nearest(&(bounds.0 - p.0, bounds.1 - p.1)).0;
        let ab = if a <= b {
            a
        } else {
            b
        };
        let cd = if c <= d {
            c
        } else {
            d
        };
        if ab <= cd {
            ab
        } else {
            cd
        }
    }

    /// The squared distance field of a `bounds.0` by `bounds.1` grid:
    /// `r[i][j]` is the mirrored squared distance of pixel `(i, j)`.
    pub fn distance_field(&self, bounds: &Point) -> (r: Vec<Vec<u128>>)
        requires
            self.wf(),
            in_grid(*bounds),
        ensures
            r@.len() == bounds.0,
            forall|i: int| 0 <= i < bounds.0 ==> (#[trigger] r@[i])@.len() == bounds.1,
            forall|i: int, j: int|
                0 <= i < bounds.0 && 0 <= j < bounds.1 ==> #[trigger] r@[i]@[j]
                    == mirrored_sq(*self, (i as usize, j as usize), *bounds),
    {
        let mut field: Vec<Vec<u128>> = Vec::new();
        let mut i: usize = 0;
        while i < bounds.0
            invariant
                i <= bounds.0,
                self.wf(),
                in_grid(*bounds),
                field@.len() == i,
                forall|a: int| 0 <= a < i ==> (#[trigger] field@[a])@.len() == bounds.1,
                forall|a: int, b: int|
                    0 <= a < i && 0 <= b < bounds.1 ==> #[trigger] field@[a]@[b]
                        == mirrored_sq(*self, (a as usize, b as usize), *bounds),
            decreases bounds.0 - i,
        {
            let mut column: Vec<u128> = Vec::new();
            let mut j: usize = 0;
            while j < bounds.1
                invariant
                    i < bounds.0,
                    j <= bounds.1,
                    self.wf(),
                    in_grid(*bounds),
                    column@.len() == j,
                    forall|b: int|
                        0 <= b < j ==> column@[b] == mirrored_sq(
                            *self,
                            (i, b as usize),
                            *bounds,
                        ),
                decreases bounds.1 - j,
            {
                column.push(self.nearest_mirrored(&(i, j), bounds));
                j = j + 1;
            }
            field.push(column);
            i = i + 1;
        }
        field
    }
}

} // verus!
