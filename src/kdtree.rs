//! The k-d tree: its nodes, their mathematical model, the builder and the
//! nearest-neighbour search.
use vstd::prelude::*;
use crate::point::{
    Point, in_grid, all_in_grid, coord, abs_diff, sq_dist, axis_coord, gap, sqr_distance,
};
use crate::split::{all_at_most, all_at_least, split_at_median, stable_sort};

verus! {

broadcast use vstd::seq_lib::group_to_multiset_ensures;

/// Point sets smaller than this are stored in a leaf unless another bound is chosen.
pub const DEFAULT_LEAF_THRESHOLD: usize = 15;

/// A node of the tree. A branch holds its pivot and the subtrees of the points
/// below and above it on the branch's axis; a side with no points is absent.
#[derive(Debug)]
pub enum Node {
    Leaf(Vec<Point>),
    Branch(Option<Box<Node>>, Option<Box<Node>>, Point),
}

/// A search result: a squared distance and the point at that distance.
pub type Candidate = (u128, Point);

/// The mathematical value of a search result.
pub open spec fn cand_view(c: Candidate) -> (int, Point) {
    (c.0 as int, c.1)
}

/// The mathematical value of an optional search result.
pub open spec fn opt_view(o: Option<Candidate>) -> Option<(int, Point)> {
    match o {
        Some(c) => Some(cand_view(c)),
        None => None,
    }
}

/// `a` unless `b` is strictly closer: ties keep `a`.
pub open spec fn closer(a: (int, Point), b: (int, Point)) -> (int, Point) {
    if b.0 < a.0 {
        b
    } else {
        a
    }
}

/// `best` merged with an optional candidate.
pub open spec fn merge_opt(best: (int, Point), o: Option<(int, Point)>) -> (int, Point) {
    match o {
        Some(c) => closer(best, c),
        None => best,
    }
}

/// The first point of `s`, in order, at the least squared distance from `q`,
/// with that distance.
pub open spec fn scan_nearest(s: Seq<Point>, q: Point) -> (int, Point)
    decreases s.len(),
{
    if s.len() <= 1 {
        (sq_dist(s[0], q), s[0])
    } else {
        closer(scan_nearest(s.drop_last(), q), (sq_dist(s.last(), q), s.last()))
    }
}

/// What a branch returns: the pivot's candidate merged with the near side's;
/// the far side is searched only when the gap between query and pivot on the
/// branch's axis is below the best squared distance so far.
pub open spec fn branch_result(
    pivot: (int, Point),
    near: Option<(int, Point)>,
    far: Option<(int, Point)>,
    gap: int,
) -> (int, Point) {
    let best = merge_opt(pivot, near);
    if gap < best.0 {
        merge_opt(best, far)
    } else {
        best
    }
}

impl Node {
    /// The points stored under this node: left side, pivot, right side.
    pub open spec fn points(self) -> Seq<Point>
        decreases self,
    {
        match self {
            Node::Leaf(v) => v@,
            Node::Branch(l, r, pivot) => {
                let lp = match l {
                    Some(b) => b.points(),
                    None => Seq::empty(),
                };
                let rp = match r {
                    Some(b) => b.points(),
                    None => Seq::empty(),
                };
                lp + seq![pivot] + rp
            },
        }
    }

    /// The shape that the builder gives a node built at an axis and a leaf
    /// threshold: a leaf holds between 1 and `threshold - 1` points; a branch
    /// was built from at least `threshold` points, of which `(n - 1) / 2` lie
    /// on its left; the left points lie at or below the pivot on the branch's
    /// axis, the right points at or above it; the subtrees alternate the axis.
    pub open spec fn wf(self, on_x: bool, threshold: int) -> bool
        decreases self,
    {
        match self {
            Node::Leaf(v) => 0 < v@.len() < threshold,
            Node::Branch(l, r, pivot) => {
                let lp = match l {
                    Some(b) => b.points(),
                    None => Seq::empty(),
                };
                let rp = match r {
                    Some(b) => b.points(),
                    None => Seq::empty(),
                };
                let n = lp.len() + 1 + rp.len();
                &&& n >= threshold
                &&& lp.len() == (n - 1) / 2
                &&& all_at_most(lp, on_x, coord(pivot, on_x))
                &&& all_at_least(rp, on_x, coord(pivot, on_x))
                &&& match l {
                    Some(b) => b.wf(!on_x, threshold),
                    None => true,
                }
                &&& match r {
                    Some(b) => b.wf(!on_x, threshold),
                    None => true,
                }
            },
        }
    }

    /// The result of the search for `q` from this node: a leaf gives its first
    /// nearest point; a branch searches the side of its pivot where `q` lies
    /// first (the left side when the pivot's coordinate is greater than `q`'s,
    /// else the right side) and prunes the other side as `branch_result` says.
    pub open spec fn query(self, q: Point, on_x: bool) -> (int, Point)
        decreases self,
    {
        match self {
            Node::Leaf(v) => scan_nearest(v@, q),
            Node::Branch(l, r, pivot) => {
                let lq = match l {
                    Some(b) => Some(b.query(q, !on_x)),
                    None => None,
                };
                let rq = match r {
                    Some(b) => Some(b.query(q, !on_x)),
                    None => None,
                };
                let pc = (sq_dist(pivot, q), pivot);
                let g = abs_diff(coord(pivot, on_x), coord(q, on_x));
                if coord(pivot, on_x) > coord(q, on_x) {
                    branch_result(pc, lq, rq, g)
                } else {
                    branch_result(pc, rq, lq, g)
                }
            },
        }
    }
}

/// The first point of `ls`, in order, at the least squared distance from `q`.
fn scan_leaf(ls: &Vec<Point>, q: &Point) -> (r: Candidate)
    requires
        ls@.len() > 0,
        all_in_grid(ls@),
        in_grid(*q),
    ensures
        cand_view(r) == scan_nearest(ls@, *q),
{
    assert(ls@.contains(ls@[0]));
    let mut best: Candidate = (sqr_distance(&ls[0], q), ls[0]);
    let mut i: usize = 1;
    while i < ls.len()
        invariant
            1 <= i <= ls@.len(),
            all_in_grid(ls@),
            in_grid(*q),
            cand_view(best) == scan_nearest(ls@.take(i as int), *q),
        decreases ls@.len() - i,
    {
        assert(ls@.contains(ls@[i as int]));
        let d = sqr_distance(&ls[i], q);
        assert(ls@.take(i + 1).drop_last() =~= ls@.take(i as int));
        if d < best.0 {
            best = (d, ls[i]);
        }
        i = i + 1;
    }
    assert(ls@.take(ls@.len() as int) =~= ls@);
    best
}

/// `best` unless `c` is present and strictly closer.
fn merge_candidate(best: Candidate, c: Option<Candidate>) -> (r: Candidate)
    ensures
        cand_view(r) == merge_opt(cand_view(best), opt_view(c)),
{
    match c {
        Some(c) => if c.0 < best.0 {
            c
        } else {
            best
        },
        None => best,
    }
}

/// Every point of a side of a branch is a point of the branch.
proof fn lemma_sides_contained(node: Node)
    requires
        node is Branch,
    ensures
        match node {
            Node::Branch(l, r, pivot) => {
                &&& node.points().contains(pivot)
                &&& forall|p: Point|
                    (match l {
                        Some(b) => b.points().contains(p),
                        None => false,
                    }) ==> node.points().contains(p)
                &&& forall|p: Point|
                    (match r {
                        Some(b) => b.points().contains(p),
                        None => false,
                    }) ==> node.points().contains(p)
            },
            _ => true,
        },
{
    if let Node::Branch(l, r, pivot) = node {
        let lp = match l {
            Some(b) => b.points(),
            None => Seq::empty(),
        };
        let rp = match r {
            Some(b) => b.points(),
            None => Seq::empty(),
        };
        let all = lp + seq![pivot] + rp;
        assert(all[lp.len() as int] == pivot);
        assert forall|p: Point| lp.contains(p) implies all.contains(p) by {
            let k = choose|k: int| 0 <= k < lp.len() && lp[k] == p;
            assert(all[k] == p);
        }
        assert forall|p: Point| rp.contains(p) implies all.contains(p) by {
            let k = choose|k: int| 0 <= k < rp.len() && rp[k] == p;
            assert(all[lp.len() + 1 + k] == p);
        }
    }
}

/// Searches the subtree at `node`, built on the axis chosen by `on_x`.
fn nearest_in(node: &Node, q: &Point, on_x: bool, Ghost(threshold): Ghost<int>) -> (r: Candidate)
    requires
        node.wf(on_x, threshold),
        all_in_grid(node.points()),
        in_grid(*q),
    ensures
        cand_view(r) == node.query(*q, on_x),
    decreases node,
{
    match node {
        Node::Leaf(ls) => scan_leaf(ls, q),
        Node::Branch(l, r, pivot) => {
            proof {
                lemma_sides_contained(*node);
            }
            let pc: Candidate = (sqr_distance(pivot, q), *pivot);
            let pk = axis_coord(pivot, on_x);
            let qk = axis_coord(q, on_x);
            let g = gap(pk, qk);
            if pk > qk {
                let nc = match l {
                    Some(b) => Some(nearest_in(b, q, !on_x, Ghost(threshold))),
                    None => None,
                };
                let best = merge_candidate(pc, nc);
                if (g as u128) < best.0 {
                    let fc = match r {
                        Some(b) => Some(nearest_in(b, q, !on_x, Ghost(threshold))),
                        None => None,
                    };
                    merge_candidate(best, fc)
                } else {
                    best
                }
            } else {
                let nc = match r {
                    Some(b) => Some(nearest_in(b, q, !on_x, Ghost(threshold))),
                    None => None,
                };
                let best = merge_candidate(pc, nc);
                if (g as u128) < best.0 {
                    let fc = match l {
                        Some(b) => Some(nearest_in(b, q, !on_x, Ghost(threshold))),
                        None => None,
                    };
                    merge_candidate(best, fc)
                } else {
                    best
                }
            }
        },
    }
}

/// Points that agree as multisets agree on every bound over their members.
proof fn lemma_same_members(a: Seq<Point>, b: Seq<Point>)
    requires
        a.to_multiset() == b.to_multiset(),
    ensures
        forall|p: Point| a.contains(p) <==> b.contains(p),
{
    assert forall|p: Point| a.contains(p) <==> b.contains(p) by {
        assert(a.contains(p) <==> a.to_multiset().count(p) > 0);
        assert(b.contains(p) <==> b.to_multiset().count(p) > 0);
    }
}

/// The points of an optional subtree.
pub open spec fn side_points(o: Option<Box<Node>>) -> Seq<Point> {
    match o {
        Some(b) => b.points(),
        None => Seq::empty(),
    }
}

/// Whether `node` is the subtree that building `xs` on the axis chosen by
/// `on_x` gives: fewer than `threshold` points make a leaf holding them in
/// their order; otherwise the points are stably sorted on the axis, the one at
/// index `(n - 1) / 2` is the pivot, and the points before and after it are
/// built on the other axis, each side absent exactly when it has no points.
pub open spec fn built_from(node: Node, xs: Seq<Point>, on_x: bool, threshold: int) -> bool
    decreases node,
{
    match node {
        Node::Leaf(v) => xs.len() < threshold && v@ == xs,
        Node::Branch(l, r, pivot) => {
            let n = xs.len() as int;
            let s = stable_sort(xs, on_x);
            let m = (n - 1) / 2;
            &&& n >= threshold
            &&& n > 0
            &&& pivot == s[m]
            &&& match l {
                Some(b) => m > 0 && built_from(*b, s.subrange(0, m), !on_x, threshold),
                None => m == 0,
            }
            &&& match r {
                Some(b) => m + 1 < n && built_from(*b, s.subrange(m + 1, n), !on_x, threshold),
                None => m + 1 == n,
            }
        },
    }
}

/// Builds the subtree of `xs` on the axis chosen by `on_x`: fewer than
/// `threshold` points make a leaf; otherwise the lower median on the axis
/// becomes the pivot and each non-empty side is built on the other axis.
fn build(xs: Vec<Point>, on_x: bool, threshold: usize) -> (r: Node)
    requires
        xs@.len() > 0,
    ensures
        r.wf(on_x, threshold as int),
        built_from(r, xs@, on_x, threshold as int),
        r.points().to_multiset() == xs@.to_multiset(),
    decreases xs@.len(),
{
    if xs.len() < threshold {
        Node::Leaf(xs)
    } else {
        let ghost n = xs@.len();
        let (left, right, median) = split_at_median(xs, on_x);
        let ghost lv = left@;
        let ghost rv = right@;
        let l = if left.len() == 0 {
            None
        } else {
            Some(Box::new(build(left, !on_x, threshold)))
        };
        let r = if right.len() == 0 {
            None
        } else {
            Some(Box::new(build(right, !on_x, threshold)))
        };
        proof {
            if l is None {
                assert(lv =~= Seq::<Point>::empty());
            }
            if r is None {
                assert(rv =~= Seq::<Point>::empty());
            }
            assert(side_points(l).to_multiset() == lv.to_multiset());
            assert(side_points(r).to_multiset() == rv.to_multiset());
            lemma_same_members(side_points(l), lv);
            lemma_same_members(side_points(r), rv);
            vstd::seq_lib::lemma_multiset_commutative(side_points(l) + seq![median], side_points(r));
            vstd::seq_lib::lemma_multiset_commutative(side_points(l), seq![median]);
            vstd::seq_lib::lemma_multiset_commutative(lv + seq![median], rv);
            vstd::seq_lib::lemma_multiset_commutative(lv, seq![median]);
            assert(side_points(l).len() == side_points(l).to_multiset().len());
            assert(side_points(r).len() == side_points(r).to_multiset().len());
            assert(lv.len() == lv.to_multiset().len());
            assert(rv.len() == rv.to_multiset().len());
            assert(side_points(l).len() == (n - 1) / 2);
            assert(all_at_most(side_points(l), on_x, coord(median, on_x)));
            assert(all_at_least(side_points(r), on_x, coord(median, on_x)));
        }
        Node::Branch(l, r, median)
    }
}

/// Whether `c` names a point of `s` at its true squared distance from `q`,
/// no farther than any point of `s`.
pub open spec fn is_nearest_in(s: Seq<Point>, q: Point, c: (int, Point)) -> bool {
    &&& s.contains(c.1)
    &&& c.0 == sq_dist(c.1, q)
    &&& forall|p: Point| s.contains(p) ==> c.0 <= sq_dist(p, q)
}

/// Whether an optional result is a nearest point of `s`, and absent only
/// when `s` is empty.
pub open spec fn opt_nearest_in(s: Seq<Point>, q: Point, o: Option<(int, Point)>) -> bool {
    match o {
        Some(c) => is_nearest_in(s, q, c),
        None => forall|p: Point| !s.contains(p),
    }
}

/// The first nearest point of a non-empty sequence is a nearest point of it.
pub proof fn lemma_scan_is_nearest(s: Seq<Point>, q: Point)
    requires
        s.len() > 0,
    ensures
        is_nearest_in(s, q, scan_nearest(s, q)),
    decreases s.len(),
{
    if s.len() <= 1 {
        assert(s.contains(s[0]));
        assert forall|p: Point| s.contains(p) implies scan_nearest(s, q).0 <= sq_dist(p, q) by {
            let k = choose|k: int| 0 <= k < s.len() && s[k] == p;
        }
    } else {
        let init = s.drop_last();
        lemma_scan_is_nearest(init, q);
        let c = scan_nearest(init, q);
        let k0 = choose|k: int| 0 <= k < init.len() && init[k] == c.1;
        assert(s[k0] == c.1);
        assert(s[s.len() - 1] == s.last());
        assert(scan_nearest(s, q) == closer(c, (sq_dist(s.last(), q), s.last())));
        assert forall|p: Point| s.contains(p) implies scan_nearest(s, q).0 <= sq_dist(p, q) by {
            let k = choose|k: int| 0 <= k < s.len() && s[k] == p;
            if k < s.len() - 1 {
                assert(init[k] == p);
                assert(init.contains(p));
            } else {
                assert(p == s.last());
            }
        }
    }
}

/// A point whose gap from `q` on an axis is at least `g` lies at a squared
/// distance of at least `g`.
proof fn lemma_gap_bounds_distance(p: Point, q: Point, on_x: bool, g: int)
    requires
        0 <= g <= abs_diff(coord(p, on_x), coord(q, on_x)),
    ensures
        g <= sq_dist(p, q),
{
    let d = abs_diff(coord(p, on_x), coord(q, on_x));
    let dx = p.0 - q.0;
    let dy = p.1 - q.1;
    assert(d * d == if on_x { dx * dx } else { dy * dy }) by (nonlinear_arith)
        requires
            d == abs_diff(coord(p, on_x), coord(q, on_x)),
            dx == p.0 - q.0,
            dy == p.1 - q.1,
    ;
    assert(0 <= dx * dx && 0 <= dy * dy) by (nonlinear_arith);
    assert(g <= d * d) by (nonlinear_arith)
        requires
            0 <= g <= d,
    ;
}

/// Merging the pivot with the near and far results gives a nearest point of
/// the branch, provided each skipped far point lies no closer than `g`.
proof fn lemma_branch_is_nearest(
    all: Seq<Point>,
    q: Point,
    pivot: Point,
    near_pts: Seq<Point>,
    far_pts: Seq<Point>,
    near: Option<(int, Point)>,
    far: Option<(int, Point)>,
    g: int,
)
    requires
        forall|p: Point|
            all.contains(p) <==> (p == pivot || near_pts.contains(p) || far_pts.contains(p)),
        opt_nearest_in(near_pts, q, near),
        opt_nearest_in(far_pts, q, far),
        0 <= g,
        forall|p: Point| far_pts.contains(p) ==> g <= sq_dist(p, q),
    ensures
        is_nearest_in(all, q, branch_result((sq_dist(pivot, q), pivot), near, far, g)),
{
    let best = merge_opt((sq_dist(pivot, q), pivot), near);
    assert(all.contains(best.1));
    assert forall|p: Point| p == pivot || near_pts.contains(p) implies best.0 <= sq_dist(p, q) by {
    }
    if g < best.0 {
        let r = merge_opt(best, far);
        assert(all.contains(r.1));
    } else {
        assert forall|p: Point| all.contains(p) implies best.0 <= sq_dist(p, q) by {
            if far_pts.contains(p) {
            }
        }
    }
}

/// The search from a well-formed node returns a nearest point of the node.
pub proof fn lemma_query_is_nearest(node: Node, q: Point, on_x: bool, threshold: int)
    requires
        node.wf(on_x, threshold),
    ensures
        is_nearest_in(node.points(), q, node.query(q, on_x)),
    decreases node,
{
    match node {
        Node::Leaf(v) => {
            lemma_scan_is_nearest(v@, q);
        },
        Node::Branch(l, r, pivot) => {
            let lp = side_points(l);
            let rp = side_points(r);
            let lq = match l {
                Some(b) => Some(b.query(q, !on_x)),
                None => None,
            };
            let rq = match r {
                Some(b) => Some(b.query(q, !on_x)),
                None => None,
            };
            match l {
                Some(b) => lemma_query_is_nearest(*b, q, !on_x, threshold),
                None => {},
            }
            match r {
                Some(b) => lemma_query_is_nearest(*b, q, !on_x, threshold),
                None => {},
            }
            let all = node.points();
            assert(all == lp + seq![pivot] + rp);
            assert forall|p: Point|
                all.contains(p) <==> (p == pivot || lp.contains(p) || rp.contains(p)) by {
                if all.contains(p) {
                    let k = choose|k: int| 0 <= k < all.len() && all[k] == p;
                    if k < lp.len() {
                        assert(lp[k] == p);
                    } else if k > lp.len() {
                        assert(rp[k - lp.len() - 1] == p);
                    }
                }
                if lp.contains(p) {
                    let k = choose|k: int| 0 <= k < lp.len() && lp[k] == p;
                    assert(all[k] == p);
                }
                if rp.contains(p) {
                    let k = choose|k: int| 0 <= k < rp.len() && rp[k] == p;
                    assert(all[lp.len() + 1 + k] == p);
                }
                if p == pivot {
                    assert(all[lp.len() as int] == p);
                }
            }
            let pk = coord(pivot, on_x);
            let qk = coord(q, on_x);
            let g = abs_diff(pk, qk);
            if pk > qk {
                assert forall|p: Point| rp.contains(p) implies g <= sq_dist(p, q) by {
                    lemma_gap_bounds_distance(p, q, on_x, g);
                }
                lemma_branch_is_nearest(all, q, pivot, lp, rp, lq, rq, g);
            } else {
                assert forall|p: Point| lp.contains(p) implies g <= sq_dist(p, q) by {
                    lemma_gap_bounds_distance(p, q, on_x, g);
                }
                lemma_branch_is_nearest(all, q, pivot, rp, lp, rq, lq, g);
            }
        },
    }
}

/// Two to the power `n`.
pub open spec fn pow2(n: nat) -> nat
    decreases n,
{
    if n == 0 {
        1
    } else {
        2 * pow2((n - 1) as nat)
    }
}

/// The greater of two naturals.
pub open spec fn max_nat(a: nat, b: nat) -> nat {
    if a >= b {
        a
    } else {
        b
    }
}

impl Node {
    /// The number of nodes on the longest path from this node down to a leaf,
    /// not counting this node: the recursion depth of building or searching it.
    pub open spec fn height(self) -> nat
        decreases self,
    {
        match self {
            Node::Leaf(_) => 0,
            Node::Branch(l, r, _) => {
                let hl = match l {
                    Some(b) => b.height(),
                    None => 0,
                };
                let hr = match r {
                    Some(b) => b.height(),
                    None => 0,
                };
                1 + max_nat(hl, hr)
            },
        }
    }
}

/// A well-formed node holding `n` points has a height of at most
/// `log2(n) + 1`, whatever the points are: the median split halves the points
/// by index, so runs of equal coordinates do not deepen the tree.
pub proof fn lemma_height_bound(node: Node, on_x: bool, threshold: int)
    requires
        node.wf(on_x, threshold),
    ensures
        pow2(node.height()) <= 2 * node.points().len(),
    decreases node,
{
    match node {
        Node::Leaf(_) => {},
        Node::Branch(l, r, _) => {
            let kl = side_points(l).len();
            let kr = side_points(r).len();
            let n = node.points().len();
            assert(n == kl + 1 + kr);
            let hl = match l {
                Some(b) => b.height(),
                None => 0,
            };
            let hr = match r {
                Some(b) => b.height(),
                None => 0,
            };
            match l {
                Some(b) => {
                    lemma_height_bound(*b, !on_x, threshold);
                    lemma_node_nonempty(*b, !on_x, threshold);
                },
                None => {},
            }
            match r {
                Some(b) => {
                    lemma_height_bound(*b, !on_x, threshold);
                    lemma_node_nonempty(*b, !on_x, threshold);
                },
                None => {},
            }
            assert(pow2(hl) <= 2 * kl || (hl == 0 && kl == 0));
            assert(pow2(hr) <= 2 * kr || (hr == 0 && kr == 0));
            assert(kl == (n - 1) / 2);
            assert(2 * kr <= n);
            assert(pow2(node.height()) == 2 * pow2(max_nat(hl, hr)));
        },
    }
}

/// A well-formed node holds at least one point.
proof fn lemma_node_nonempty(node: Node, on_x: bool, threshold: int)
    requires
        node.wf(on_x, threshold),
    ensures
        node.points().len() > 0,
{
}

/// Why a tree could not be built.
#[derive(Debug, PartialEq, Eq)]
pub enum BuildError {
    /// There were no points to build from.
    InvalidInput,
}

/// A k-d tree over grid points, built once and then searched.
#[derive(Debug)]
pub struct KdTree {
    root: Node,
    threshold: usize,
}

impl KdTree {
    /// The root node.
    pub closed spec fn root(&self) -> Node {
        self.root
    }

    /// The leaf threshold that the tree was built with.
    pub closed spec fn leaf_threshold(&self) -> int {
        self.threshold as int
    }

    /// The points held by the tree.
    pub open spec fn points(&self) -> Seq<Point> {
        self.root().points()
    }

    /// The tree has the builder's shape, starting on the x axis, and all its
    /// points lie in the grid.
    pub open spec fn wf(&self) -> bool {
        &&& self.root().wf(true, self.leaf_threshold())
        &&& all_in_grid(self.points())
    }

    /// The search result for `q`, as a squared distance and a point.
    pub open spec fn nearest_spec(&self, q: Point) -> (int, Point) {
        self.root().query(q, true)
    }

    /// Builds a tree over `xs` whose leaves hold fewer than `threshold` points.
    pub fn with_leaf_threshold(xs: Vec<Point>, threshold: usize) -> (r: Result<KdTree, BuildError>)
        requires
            all_in_grid(xs@),
        ensures
            r is Err <==> xs@.len() == 0,
            r matches Ok(t) ==> {
                &&& t.wf()
                &&& t.leaf_threshold() == threshold
                &&& t.points().to_multiset() == xs@.to_multiset()
            },
    {
        if xs.len() == 0 {
            return Err(BuildError::InvalidInput);
        }
        let ghost v = xs@;
        let root = build(xs, true, threshold);
        proof {
            lemma_same_members(root.points(), v);
        }
        Ok(KdTree { root, threshold })
    }

    /// Builds a tree over `xs` with the default leaf threshold.
    pub fn new(xs: Vec<Point>) -> (r: Result<KdTree, BuildError>)
        requires
            all_in_grid(xs@),
        ensures
            r is Err <==> xs@.len() == 0,
            r matches Ok(t) ==> {
                &&& t.wf()
                &&& t.leaf_threshold() == DEFAULT_LEAF_THRESHOLD
                &&& t.points().to_multiset() == xs@.to_multiset()
            },
    {
        Self::with_leaf_threshold(xs, DEFAULT_LEAF_THRESHOLD)
    }

    /// The squared distance from `q` to the tree's nearest point, and that point.
    pub fn nearest(&self, q: &Point) -> (r: Candidate)
        requires
            self.wf(),
            in_grid(*q),
        ensures
            cand_view(r) == self.nearest_spec(*q),
            is_nearest_in(self.points(), *q, cand_view(r)),
    {
        proof {
            lemma_query_is_nearest(self.root, *q, true, self.threshold as int);
        }
        nearest_in(&self.root, q, true, Ghost(self.threshold as int))
    }
}

/// Two nearest points of one set are at the same distance.
proof fn lemma_nearest_unique_distance(s: Seq<Point>, q: Point, a: (int, Point), b: (int, Point))
    requires
        is_nearest_in(s, q, a),
        is_nearest_in(s, q, b),
    ensures
        a.0 == b.0,
{
    assert(s.contains(a.1));
    assert(s.contains(b.1));
}

/// The search agrees with a brute-force scan of the points the tree was built
/// from: the scan keeps the first point in list order at the least squared
/// distance, and the search returns a point of the list at that same distance.
pub proof fn lemma_nearest_matches_brute_force(t: KdTree, pts: Seq<Point>, q: Point)
    requires
        t.wf(),
        pts.len() > 0,
        t.points().to_multiset() == pts.to_multiset(),
    ensures
        t.nearest_spec(q).0 == scan_nearest(pts, q).0,
        pts.contains(t.nearest_spec(q).1),
        sq_dist(t.nearest_spec(q).1, q) == t.nearest_spec(q).0,
{
    lemma_query_is_nearest(t.root(), q, true, t.leaf_threshold());
    lemma_scan_is_nearest(pts, q);
    lemma_same_members(t.points(), pts);
    lemma_nearest_unique_distance(pts, q, t.nearest_spec(q), scan_nearest(pts, q));
}

/// Searching one tree for one point always gives the same result.
pub proof fn lemma_nearest_deterministic(t: KdTree, q: Point, r1: Candidate, r2: Candidate)
    requires
        cand_view(r1) == t.nearest_spec(q),
        cand_view(r2) == t.nearest_spec(q),
    ensures
        r1 == r2,
{
}

/// Searching a tree for one of the points it was built from finds a point at
/// distance zero.
pub proof fn lemma_self_distance(t: KdTree, pts: Seq<Point>, p: Point)
    requires
        t.wf(),
        t.points().to_multiset() == pts.to_multiset(),
        pts.contains(p),
    ensures
        t.nearest_spec(p).0 == 0,
{
    lemma_query_is_nearest(t.root(), p, true, t.leaf_threshold());
    lemma_same_members(t.points(), pts);
    assert(sq_dist(p, p) == 0);
    let c = t.nearest_spec(p);
    assert(sq_dist(c.1, p) >= 0) by (nonlinear_arith);
}

} // verus!
