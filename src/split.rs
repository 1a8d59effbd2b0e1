//! Stable sorting of points along one axis, and the median split that the
//! tree builder applies at every branch.
use vstd::prelude::*;
use crate::point::{Point, coord, axis_coord};

verus! {

broadcast use vstd::seq_lib::group_to_multiset_ensures;

/// Whether `s` is ordered by the coordinate on the chosen axis.
pub open spec fn sorted_on(s: Seq<Point>, on_x: bool) -> bool {
    forall|i: int, j: int| 0 <= i < j < s.len() ==> coord(s[i], on_x) <= coord(s[j], on_x)
}

/// Whether every point of `s` lies at or below `bound` on the chosen axis.
pub open spec fn all_at_most(s: Seq<Point>, on_x: bool, bound: int) -> bool {
    forall|p: Point| s.contains(p) ==> coord(p, on_x) <= bound
}

/// Whether every point of `s` lies at or above `bound` on the chosen axis.
pub open spec fn all_at_least(s: Seq<Point>, on_x: bool, bound: int) -> bool {
    forall|p: Point| s.contains(p) ==> coord(p, on_x) >= bound
}

/// `s` with `p` placed after its last point whose coordinate on the axis is
/// at most `p`'s, or first when there is none.
pub open spec fn insert_stable(s: Seq<Point>, p: Point, on_x: bool) -> Seq<Point>
    decreases s.len(),
{
    if s.len() == 0 {
        seq![p]
    } else if coord(s.last(), on_x) <= coord(p, on_x) {
        s.push(p)
    } else {
        insert_stable(s.drop_last(), p, on_x).push(s.last())
    }
}

/// The stable sort of `xs` by the coordinate on the axis: points with equal
/// coordinates keep their order in `xs`.
pub open spec fn stable_sort(xs: Seq<Point>, on_x: bool) -> Seq<Point>
    decreases xs.len(),
{
    if xs.len() == 0 {
        Seq::empty()
    } else {
        insert_stable(stable_sort(xs.drop_last(), on_x), xs.last(), on_x)
    }
}

/// Placing `p` stably is inserting it at the index `j` that follows the last
/// point not above it.
proof fn lemma_insert_stable_at(s: Seq<Point>, p: Point, on_x: bool, j: int)
    requires
        0 <= j <= s.len(),
        forall|m: int| j <= m < s.len() ==> coord(#[trigger] s[m], on_x) > coord(p, on_x),
        j == 0 || coord(s[j - 1], on_x) <= coord(p, on_x),
    ensures
        insert_stable(s, p, on_x) == s.insert(j, p),
    decreases s.len(),
{
    if s.len() == 0 {
        assert(s.insert(j, p) =~= seq![p]);
    } else if coord(s.last(), on_x) <= coord(p, on_x) {
        assert(s.insert(j, p) =~= s.push(p));
    } else {
        let init = s.drop_last();
        lemma_insert_stable_at(init, p, on_x, j);
        assert(init.insert(j, p).push(s.last()) =~= s.insert(j, p));
    }
}

/// Sorts a copy of `xs` by the coordinate on the chosen axis. Each point is
/// placed after every point already placed with an equal coordinate, so
/// points with equal coordinates keep their relative order.
pub fn sort_on_axis(xs: &Vec<Point>, on_x: bool) -> (r: Vec<Point>)
    ensures
        r@ == stable_sort(xs@, on_x),
        r@.len() == xs@.len(),
        sorted_on(r@, on_x),
        r@.to_multiset() == xs@.to_multiset(),
{
    let mut r: Vec<Point> = Vec::new();
    let mut i: usize = 0;
    while i < xs.len()
        invariant
            i <= xs.len(),
            r@.len() == i,
            r@ == stable_sort(xs@.take(i as int), on_x),
            sorted_on(r@, on_x),
            r@.to_multiset() == xs@.take(i as int).to_multiset(),
        decreases xs.len() - i,
    {
        let p = xs[i];
        let k = axis_coord(&p, on_x);
        let mut j: usize = r.len();
        while j > 0 && axis_coord(&r[j - 1], on_x) > k
            invariant
                j <= r@.len(),
                forall|m: int| j <= m < r@.len() ==> coord(#[trigger] r@[m], on_x) > k,
            decreases j,
        {
            j = j - 1;
        }
        proof {
            r@.insert_ensures(j as int, p);
            assert(xs@.take(i + 1) =~= xs@.take(i as int).push(p));
            assert(xs@.take(i + 1).drop_last() =~= xs@.take(i as int));
            lemma_insert_stable_at(r@, p, on_x, j as int);
            let s = r@.insert(j as int, p);
            assert forall|a: int, b: int| 0 <= a < b < s.len() implies coord(s[a], on_x)
                <= coord(s[b], on_x) by {
                if b < j {
                } else if b == j {
                    if a < j - 1 {
                        assert(coord(r@[a], on_x) <= coord(r@[j - 1], on_x));
                    }
                } else if a < j {
                    assert(s[b] == r@[b - 1]);
                } else if a == j {
                    assert(s[b] == r@[b - 1]);
                } else {
                    assert(s[a] == r@[a - 1]);
                    assert(s[b] == r@[b - 1]);
                }
            }
        }
        r.insert(j, p);
        i = i + 1;
    }
    assert(xs@.take(xs@.len() as int) =~= xs@);
    r
}

/// Splits the points at the lower median on the chosen axis: after a stable
/// sort by that coordinate, the point at index `(n - 1) / 2` is the median,
/// the points before it go left and those after it go right.
pub fn split_at_median(xs: Vec<Point>, on_x: bool) -> (r: (Vec<Point>, Vec<Point>, Point))
    requires
        xs@.len() > 0,
    ensures
        r.0@ == stable_sort(xs@, on_x).subrange(0, (xs@.len() - 1) / 2),
        r.2 == stable_sort(xs@, on_x)[(xs@.len() - 1) / 2],
        r.1@ == stable_sort(xs@, on_x).subrange((xs@.len() - 1) / 2 + 1, xs@.len() as int),
        r.0@.len() == (xs@.len() - 1) / 2,
        r.1@.len() == xs@.len() - 1 - (xs@.len() - 1) / 2,
        (r.0@ + seq![r.2] + r.1@).to_multiset() == xs@.to_multiset(),
        sorted_on(r.0@ + seq![r.2] + r.1@, on_x),
        all_at_most(r.0@, on_x, coord(r.2, on_x)),
        all_at_least(r.1@, on_x, coord(r.2, on_x)),
{
    let sorted = sort_on_axis(&xs, on_x);
    let median_index: usize = (sorted.len() - 1) / 2;
    let mut left: Vec<Point> = Vec::new();
    let mut right: Vec<Point> = Vec::new();
    let mut i: usize = 0;
    while i < median_index
        invariant
            i <= median_index < sorted@.len(),
            left@ =~= sorted@.subrange(0, i as int),
        decreases median_index - i,
    {
        left.push(sorted[i]);
        i = i + 1;
    }
    let mut i: usize = median_index + 1;
    while i < sorted.len()
        invariant
            median_index < i <= sorted@.len(),
            right@ =~= sorted@.subrange(median_index + 1, i as int),
        decreases sorted@.len() - i,
    {
        right.push(sorted[i]);
        i = i + 1;
    }
    let median = sorted[median_index];
    assert(left@ + seq![median] + right@ =~= sorted@);
    assert forall|p: Point| left@.contains(p) implies coord(p, on_x) <= coord(median, on_x) by {
        let k = choose|k: int| 0 <= k < left@.len() && left@[k] == p;
        assert(sorted@[k] == p);
    }
    assert forall|p: Point| right@.contains(p) implies coord(p, on_x) >= coord(median, on_x) by {
        let k = choose|k: int| 0 <= k < right@.len() && right@[k] == p;
        assert(sorted@[median_index + 1 + k] == p);
    }
    (left, right, median)
}

} // verus!
