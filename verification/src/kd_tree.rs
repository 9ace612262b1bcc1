//! Balanced k-d spatial index over three-dimensional integer points:
//! build by balanced splits on cycling axes, then answer
//! nearest-unexcluded-neighbor queries with branch-and-bound pruning.

use vstd::multiset::Multiset;
use vstd::prelude::*;

use crate::day08::{lemma_sq_dist_sym, spec_sq_dist, Day08, Point, COORD_LIMIT};

verus! {

broadcast use {vstd::seq_lib::group_seq_properties, vstd::multiset::group_multiset_axioms};

#[derive(Clone, Copy, PartialEq, Eq, Structural, Debug)]
pub enum Axis {
    X,
    Y,
    Z,
}

/// The coordinate of a point along an axis.
pub open spec fn spec_coord(p: Point, a: Axis) -> int {
    match a {
        Axis::X => p.x as int,
        Axis::Y => p.y as int,
        Axis::Z => p.z as int,
    }
}

pub fn coord(p: &Point, a: Axis) -> (c: i64)
    ensures
        c == spec_coord(*p, a),
{
    match a {
        Axis::X => p.x,
        Axis::Y => p.y,
        Axis::Z => p.z,
    }
}

/// The split axis cycles X, Y, Z with the tree depth.
pub open spec fn spec_axis_for(depth: int) -> Axis {
    if depth % 3 == 0 {
        Axis::X
    } else if depth % 3 == 1 {
        Axis::Y
    } else {
        Axis::Z
    }
}

pub struct SplitNode {
    pub axis: Axis,
    pub position: i64,
    pub left: Box<KdNode>,
    pub right: Box<KdNode>,
}

pub struct LeafNode {
    pub points: Vec<Point>,
}

pub enum KdNode {
    Split(SplitNode),
    Leaf(LeafNode),
}

impl KdNode {
    /// The multiset of all points stored in the leaves below this node.
    pub open spec fn points_multiset(self) -> Multiset<Point>
        decreases self,
    {
        match self {
            KdNode::Leaf(leaf) => leaf.points@.to_multiset(),
            KdNode::Split(s) => (*s.left).points_multiset().add((*s.right).points_multiset()),
        }
    }

    /// Well-formed subtree: every point sits on the correct side of
    /// every split above it, and all coordinates are in bounds.
    pub open spec fn wf(self) -> bool
        decreases self,
    {
        match self {
            KdNode::Leaf(leaf) => forall|k: int|
                0 <= k < leaf.points@.len() ==> (#[trigger] leaf.points@[k]).in_bounds(),
            KdNode::Split(s) => {
                &&& -COORD_LIMIT <= s.position <= COORD_LIMIT
                &&& (*s.left).wf()
                &&& (*s.right).wf()
                &&& forall|p: Point|
                    (*s.left).points_multiset().contains(p) ==> spec_coord(p, s.axis)
                        <= s.position
                &&& forall|p: Point|
                    (*s.right).points_multiset().contains(p) ==> spec_coord(p, s.axis)
                        > s.position
            },
        }
    }

    /// Every point of a well-formed subtree is in bounds.
    pub proof fn lemma_wf_in_bounds(self, p: Point)
        requires
            self.wf(),
            self.points_multiset().contains(p),
        ensures
            p.in_bounds(),
        decreases self,
    {
        match self {
            KdNode::Leaf(leaf) => {
                assert(leaf.points@.contains(p));
            },
            KdNode::Split(s) => {
                if (*s.left).points_multiset().contains(p) {
                    (*s.left).lemma_wf_in_bounds(p);
                } else {
                    (*s.right).lemma_wf_in_bounds(p);
                }
            },
        }
    }
}

/// How many of the points lie at or below `c` on axis `a`.
pub open spec fn count_le(ps: Seq<Point>, a: Axis, c: int) -> nat
    decreases ps.len(),
{
    if ps.len() == 0 {
        0
    } else {
        count_le(ps.drop_last(), a, c) + (if spec_coord(ps.last(), a) <= c {
            1nat
        } else {
            0nat
        })
    }
}

pub proof fn lemma_count_le_le(ps: Seq<Point>, a: Axis, c: int)
    ensures
        count_le(ps, a, c) <= ps.len(),
    decreases ps.len(),
{
    if ps.len() > 0 {
        lemma_count_le_le(ps.drop_last(), a, c);
    }
}

/// The balance score of a split plane: the absolute difference between
/// the number of points at or below the plane and the number above it.
pub open spec fn spec_balance_diff(ps: Seq<Point>, a: Axis, c: int) -> int {
    let le = count_le(ps, a, c) as int;
    let gt = ps.len() - le;
    if le >= gt {
        le - gt
    } else {
        gt - le
    }
}

/// Some point of `ps` has coordinate `c` on axis `a`.
pub open spec fn coord_present(ps: Seq<Point>, a: Axis, c: int) -> bool {
    exists|k: int| 0 <= k < ps.len() && spec_coord(#[trigger] ps[k], a) == c
}

/// Counts the points with coordinate at or below `c` on axis `a`.
fn count_le_exec(points: &Vec<Point>, a: Axis, c: i64) -> (r: usize)
    ensures
        r == count_le(points@, a, c as int),
{
    let mut r: usize = 0;
    let mut k: usize = 0;
    while k < points.len()
        invariant
            k <= points@.len(),
            r == count_le(points@.take(k as int), a, c as int),
            r <= k,
        decreases points@.len() - k,
    {
        proof {
            assert(points@.take(k + 1).drop_last() =~= points@.take(k as int));
            assert(points@.take(k + 1).last() == points@[k as int]);
        }
        if coord(&points[k], a) <= c {
            r = r + 1;
        }
        k = k + 1;
    }
    proof {
        assert(points@.take(points@.len() as int) =~= points@);
    }
    r
}

/// The balance score of the plane at `c`; exact counterpart of
/// `spec_balance_diff`.
fn balance_diff(points: &Vec<Point>, a: Axis, c: i64) -> (d: usize)
    requires
        points@.len() <= usize::MAX / 2,
    ensures
        d == spec_balance_diff(points@, a, c as int),
{
    let n = points.len();
    let le = count_le_exec(points, a, c);
    proof {
        lemma_count_le_le(points@, a, c as int);
    }
    if 2 * le >= n {
        2 * le - n
    } else {
        n - 2 * le
    }
}

pub struct KdTree {
    pub root: Box<KdNode>,
}

impl KdTree {
    /// Chooses the split plane at this depth: the axis cycles with the
    /// depth, and among the coordinates present in the point set the
    /// plane is the one that balances the two sides best, ties going to
    /// the smallest such coordinate.
    pub fn find_best_split_plane(points: &Vec<Point>, depth: usize) -> (r: (Axis, i64))
        requires
            points@.len() >= 1,
            points@.len() <= usize::MAX / 2,
        ensures
            r.0 == spec_axis_for(depth as int),
            coord_present(points@, r.0, r.1 as int),
            forall|c: int|
                coord_present(points@, r.0, c) ==> spec_balance_diff(points@, r.0, r.1 as int)
                    <= #[trigger] spec_balance_diff(points@, r.0, c),
            forall|c: int|
                coord_present(points@, r.0, c) && #[trigger] spec_balance_diff(points@, r.0, c)
                    == spec_balance_diff(points@, r.0, r.1 as int) ==> r.1 <= c,
    {
        let axis = if depth % 3 == 0 {
            Axis::X
        } else if depth % 3 == 1 {
            Axis::Y
        } else {
            Axis::Z
        };
        let n = points.len();
        let mut best_c: i64 = coord(&points[0], axis);
        let mut best_d: usize = balance_diff(points, axis, best_c);
        let mut k: usize = 1;
        while k < n
            invariant
                n == points@.len(),
                1 <= k <= n,
                points@.len() <= usize::MAX / 2,
                exists|t: int|
                    0 <= t < k && spec_coord(#[trigger] points@[t], axis) == best_c as int,
                best_d == spec_balance_diff(points@, axis, best_c as int),
                forall|t: int|
                    0 <= t < k ==> best_d as int <= spec_balance_diff(
                        points@,
                        axis,
                        spec_coord(#[trigger] points@[t], axis),
                    ),
                forall|t: int|
                    0 <= t < k && spec_balance_diff(
                        points@,
                        axis,
                        spec_coord(#[trigger] points@[t], axis),
                    ) == best_d as int ==> best_c as int <= spec_coord(points@[t], axis),
            decreases n - k,
        {
            let c = coord(&points[k], axis);
            let d = balance_diff(points, axis, c);
            if d < best_d || (d == best_d && c < best_c) {
                best_c = c;
                best_d = d;
            }
            k = k + 1;
        }
        proof {
            assert forall|c: int| coord_present(points@, axis, c) implies spec_balance_diff(
                points@,
                axis,
                best_c as int,
            ) <= #[trigger] spec_balance_diff(points@, axis, c) by {
                let t = choose|t: int|
                    0 <= t < points@.len() && spec_coord(#[trigger] points@[t], axis) == c;
                assert(best_d as int <= spec_balance_diff(
                    points@,
                    axis,
                    spec_coord(points@[t], axis),
                ));
            }
            assert forall|c: int|
                coord_present(points@, axis, c) && #[trigger] spec_balance_diff(points@, axis, c)
                    == spec_balance_diff(points@, axis, best_c as int) implies best_c as int
                <= c by {
                let t = choose|t: int|
                    0 <= t < points@.len() && spec_coord(#[trigger] points@[t], axis) == c;
                assert(spec_balance_diff(points@, axis, spec_coord(points@[t], axis)) == best_d);
            }
        }
        (axis, best_c)
    }

    /// Splits the points into those at or below the plane and those
    /// above it, preserving the multiset.
    fn partition_points(points: Vec<Point>, a: Axis, c: i64) -> (r: (Vec<Point>, Vec<Point>))
        ensures
            r.0@.to_multiset().add(r.1@.to_multiset()) == points@.to_multiset(),
            r.0@.len() + r.1@.len() == points@.len(),
            forall|k: int|
                0 <= k < r.0@.len() ==> spec_coord(#[trigger] r.0@[k], a) <= c as int,
            forall|k: int| 0 <= k < r.1@.len() ==> spec_coord(#[trigger] r.1@[k], a) > c as int,
            forall|p: Point| r.0@.contains(p) ==> points@.contains(p),
            forall|p: Point| r.1@.contains(p) ==> points@.contains(p),
    {
        let mut left: Vec<Point> = Vec::new();
        let mut right: Vec<Point> = Vec::new();
        let mut k: usize = 0;
        while k < points.len()
            invariant
                k <= points@.len(),
                left@.to_multiset().add(right@.to_multiset()) == points@.take(
                    k as int,
                ).to_multiset(),
                left@.len() + right@.len() == k,
                forall|t: int|
                    0 <= t < left@.len() ==> spec_coord(#[trigger] left@[t], a) <= c as int,
                forall|t: int|
                    0 <= t < right@.len() ==> spec_coord(#[trigger] right@[t], a) > c as int,
                forall|p: Point| left@.contains(p) ==> points@.contains(p),
                forall|p: Point| right@.contains(p) ==> points@.contains(p),
            decreases points@.len() - k,
        {
            let p = points[k];
            let ghost left0 = left@;
            let ghost right0 = right@;
            if coord(&p, a) <= c {
                left.push(p);
                proof {
                    assert forall|q: Point| left@.contains(q) implies points@.contains(q) by {
                        if q != p {
                            assert(left0.contains(q));
                        } else {
                            assert(points@[k as int] == p);
                        }
                    }
                }
            } else {
                right.push(p);
                proof {
                    assert forall|q: Point| right@.contains(q) implies points@.contains(q) by {
                        if q != p {
                            assert(right0.contains(q));
                        } else {
                            assert(points@[k as int] == p);
                        }
                    }
                }
            }
            proof {
                assert(points@.take(k + 1).drop_last() =~= points@.take(k as int));
                assert(points@.take(k + 1) =~= points@.take(k as int).push(points@[k as int]));
                assert(left@.to_multiset().add(right@.to_multiset()) =~= points@.take(
                    k + 1,
                ).to_multiset());
            }
            k = k + 1;
        }
        proof {
            assert(points@.take(points@.len() as int) =~= points@);
        }
        (left, right)
    }

    /// Builds a subtree over `points` at the given depth. Point sets no
    /// larger than `leaf_size` become leaves, as does a set whose
    /// chosen plane cannot separate it (all coordinates equal on the
    /// split axis). Every input point lands in exactly one leaf: the
    /// multiset of points below the result equals the input multiset.
    pub fn build_tree(points: Vec<Point>, depth: usize, leaf_size: usize) -> (node: KdNode)
        requires
            leaf_size >= 1,
            points@.len() <= usize::MAX / 2,
            depth <= usize::MAX - points@.len(),
            forall|k: int| 0 <= k < points@.len() ==> (#[trigger] points@[k]).in_bounds(),
        ensures
            node.wf(),
            node.points_multiset() == points@.to_multiset(),
        decreases points@.len(),
    {
        if points.len() <= leaf_size {
            let node = KdNode::Leaf(LeafNode { points });
            return node;
        }
        let (axis, position) = Self::find_best_split_plane(&points, depth);
        proof {
            let t = choose|t: int|
                0 <= t < points@.len() && spec_coord(#[trigger] points@[t], axis) == position;
            assert(points@[t].in_bounds());
        }
        let ghost all = points@;
        let (left_points, right_points) = Self::partition_points(points, axis, position);
        if right_points.len() == 0 {
            // Degenerate plane: every point sits at or below it, which
            // happens only when all coordinates on this axis coincide.
            // Recursing would not shrink the set, so stop in a leaf.
            proof {
                assert(left_points@.to_multiset().add(right_points@.to_multiset())
                    =~= left_points@.to_multiset());
                assert forall|k: int| 0 <= k < left_points@.len() implies (
                #[trigger] left_points@[k]).in_bounds() by {
                    assert(left_points@.contains(left_points@[k]));
                    assert(all.contains(left_points@[k]));
                }
            }
            let node = KdNode::Leaf(LeafNode { points: left_points });
            return node;
        }
        proof {
            let t = choose|t: int|
                0 <= t < all.len() && spec_coord(#[trigger] all[t], axis) == position;
            assert(all.contains(all[t]));
            assert(all.to_multiset().contains(all[t]));
            if left_points@.len() == 0 {
                assert(left_points@.to_multiset().len() == 0);
                assert(right_points@.contains(all[t]));
            }
            assert(left_points@.len() >= 1);
        }
        proof {
            assert forall|k: int| 0 <= k < left_points@.len() implies (
            #[trigger] left_points@[k]).in_bounds() by {
                assert(left_points@.contains(left_points@[k]));
                assert(all.contains(left_points@[k]));
            }
            assert forall|k: int| 0 <= k < right_points@.len() implies (
            #[trigger] right_points@[k]).in_bounds() by {
                assert(right_points@.contains(right_points@[k]));
                assert(all.contains(right_points@[k]));
            }
        }
        let left = Self::build_tree(left_points, depth + 1, leaf_size);
        let right = Self::build_tree(right_points, depth + 1, leaf_size);
        let node = KdNode::Split(
            SplitNode { axis, position, left: Box::new(left), right: Box::new(right) },
        );
        proof {
            assert forall|p: Point|
                (*(match node {
                    KdNode::Split(s) => s.left,
                    KdNode::Leaf(_) => arbitrary(),
                })).points_multiset().contains(p) implies spec_coord(p, axis)
                <= position as int by {
                assert(left_points@.to_multiset().contains(p));
                assert(left_points@.contains(p));
            }
            assert forall|p: Point|
                (*(match node {
                    KdNode::Split(s) => s.right,
                    KdNode::Leaf(_) => arbitrary(),
                })).points_multiset().contains(p) implies spec_coord(p, axis)
                > position as int by {
                assert(right_points@.to_multiset().contains(p));
                assert(right_points@.contains(p));
            }
            assert(node.points_multiset() =~= all.to_multiset());
        }
        node
    }

    /// Builds the index over the whole point set.
    pub fn new(points: Vec<Point>, leaf_size: usize) -> (t: KdTree)
        requires
            leaf_size >= 1,
            points@.len() <= usize::MAX / 2,
            forall|k: int| 0 <= k < points@.len() ==> (#[trigger] points@[k]).in_bounds(),
        ensures
            (*t.root).wf(),
            (*t.root).points_multiset() == points@.to_multiset(),
    {
        let root = Self::build_tree(points, 0, leaf_size);
        KdTree { root: Box::new(root) }
    }
}


/// A squared distance is never negative.
pub proof fn lemma_sq_dist_nonneg(a: Point, b: Point)
    ensures
        spec_sq_dist(a, b) >= 0,
{
    let dx = a.x - b.x;
    let dy = a.y - b.y;
    let dz = a.z - b.z;
    assert(dx * dx >= 0 && dy * dy >= 0 && dz * dz >= 0) by (nonlinear_arith);
}

/// A squared distance dominates the squared difference along any
/// single axis.
proof fn lemma_axis_component(q: Point, t: Point, a: Axis)
    ensures
        spec_sq_dist(q, t) >= (spec_coord(q, a) - spec_coord(t, a)) * (spec_coord(q, a)
            - spec_coord(t, a)),
{
    let dx = q.x - t.x;
    let dy = q.y - t.y;
    let dz = q.z - t.z;
    assert(dx * dx >= 0 && dy * dy >= 0 && dz * dz >= 0) by (nonlinear_arith);
}

/// Branch-and-bound pruning is sound: when the target's distance to
/// the splitting plane already reaches the best squared distance `d`,
/// no point on the far side of the plane can beat `d`. This relies on
/// integer coordinates: a plane distance `u >= 1` satisfies
/// `u * u >= u`.
proof fn lemma_prune_far(q: Point, t: Point, a: Axis, pos: int, d: int, target_low: bool)
    requires
        0 <= d,
        target_low ==> spec_coord(t, a) <= pos && spec_coord(q, a) > pos,
        !target_low ==> spec_coord(q, a) <= pos && spec_coord(t, a) > pos,
        d <= (if target_low {
            pos - spec_coord(t, a)
        } else {
            spec_coord(t, a) - pos
        }),
    ensures
        spec_sq_dist(q, t) >= d,
{
    let cq = spec_coord(q, a);
    let ct = spec_coord(t, a);
    let u = if target_low {
        cq - ct
    } else {
        ct - cq
    };
    assert(u >= d);
    lemma_axis_component(q, t, a);
    assert((cq - ct) * (cq - ct) == u * u) by (nonlinear_arith)
        requires
            u == cq - ct || u == ct - cq,
    ;
    if d > 0 {
        assert(u * u >= u) by (nonlinear_arith)
            requires
                u >= 1,
        ;
    } else {
        lemma_sq_dist_nonneg(q, t);
    }
}

/// Linear membership test against an exclusion list.
pub fn contains_point(list: &Vec<Point>, p: &Point) -> (r: bool)
    ensures
        r == list@.contains(*p),
{
    let mut k: usize = 0;
    while k < list.len()
        invariant
            k <= list@.len(),
            forall|t: int| 0 <= t < k ==> #[trigger] list@[t] != *p,
        decreases list@.len() - k,
    {
        if list[k] == *p {
            return true;
        }
        k = k + 1;
    }
    false
}

/// Classic k-d branch-and-bound search below one node. The result
/// improves on `best`: it is the minimum over `best` and all
/// unexcluded points of the subtree.
fn nn_node(node: &KdNode, target: &Point, excludes: &Vec<Point>, best: Option<(Point, i64)>) -> (r:
    Option<(Point, i64)>)
    requires
        node.wf(),
        target.in_bounds(),
        match best {
            None => true,
            Some(pd) => pd.1 == spec_sq_dist(pd.0, *target) && pd.0.in_bounds(),
        },
    ensures
        match r {
            None => best is None && (forall|q: Point|
                node.points_multiset().contains(q) ==> excludes@.contains(q)),
            Some(pd) => {
                &&& pd.1 == spec_sq_dist(pd.0, *target)
                &&& pd.0.in_bounds()
                &&& (best == Some(pd) || (node.points_multiset().contains(pd.0)
                    && !excludes@.contains(pd.0)))
                &&& forall|q: Point|
                    node.points_multiset().contains(q) && !excludes@.contains(q) ==> pd.1
                        <= spec_sq_dist(q, *target)
                &&& (best matches Some(b) ==> pd.1 <= b.1)
            },
        },
    decreases node,
{
    match node {
        KdNode::Leaf(leaf) => {
            let mut cur = best;
            let mut k: usize = 0;
            while k < leaf.points.len()
                invariant
                    target.in_bounds(),
                    k <= leaf.points@.len(),
                    forall|t: int|
                        0 <= t < leaf.points@.len() ==> (#[trigger] leaf.points@[t]).in_bounds(),
                    match cur {
                        None => best is None && (forall|t: int|
                            0 <= t < k ==> excludes@.contains(#[trigger] leaf.points@[t])),
                        Some(pd) => {
                            &&& pd.1 == spec_sq_dist(pd.0, *target)
                            &&& pd.0.in_bounds()
                            &&& (best == Some(pd) || (leaf.points@.contains(pd.0)
                                && !excludes@.contains(pd.0)))
                            &&& forall|t: int|
                                0 <= t < k && !excludes@.contains(#[trigger] leaf.points@[t])
                                    ==> pd.1 <= spec_sq_dist(leaf.points@[t], *target)
                            &&& (best matches Some(b) ==> pd.1 <= b.1)
                        },
                    },
                decreases leaf.points@.len() - k,
            {
                let p = leaf.points[k];
                if !contains_point(excludes, &p) {
                    let d = Day08::squared_distance(&p, target);
                    match cur {
                        None => {
                            cur = Some((p, d));
                        },
                        Some(pd) => {
                            if d < pd.1 {
                                cur = Some((p, d));
                            }
                        },
                    }
                }
                k = k + 1;
            }
            proof {
                match cur {
                    None => {
                        assert forall|q: Point|
                            node.points_multiset().contains(q) implies excludes@.contains(q) by {
                            assert(leaf.points@.contains(q));
                            let t = choose|t: int|
                                0 <= t < leaf.points@.len() && leaf.points@[t] == q;
                            assert(excludes@.contains(leaf.points@[t]));
                        }
                    },
                    Some(pd) => {
                        assert forall|q: Point|
                            node.points_multiset().contains(q) && !excludes@.contains(q)
                            implies pd.1 <= spec_sq_dist(q, *target) by {
                            assert(leaf.points@.contains(q));
                            let t = choose|t: int|
                                0 <= t < leaf.points@.len() && leaf.points@[t] == q;
                            assert(pd.1 <= spec_sq_dist(leaf.points@[t], *target));
                        }
                        if !(best == Some(pd)) {
                            assert(leaf.points@.contains(pd.0));
                            assert(node.points_multiset().contains(pd.0));
                        }
                    },
                }
            }
            cur
        },
        KdNode::Split(s) => {
            let tc = coord(target, s.axis);
            let go_left = tc <= s.position;
            let r1 = if go_left {
                nn_node(&s.left, target, excludes, best)
            } else {
                nn_node(&s.right, target, excludes, best)
            };
            let ad = if go_left {
                s.position - tc
            } else {
                tc - s.position
            };
            let descend = match &r1 {
                None => true,
                Some(pd) => ad < pd.1,
            };
            if descend {
                let r2 = if go_left {
                    nn_node(&s.right, target, excludes, r1)
                } else {
                    nn_node(&s.left, target, excludes, r1)
                };
                proof {
                    let near = if go_left {
                        *s.left
                    } else {
                        *s.right
                    };
                    let far = if go_left {
                        *s.right
                    } else {
                        *s.left
                    };
                    match r2 {
                        None => {
                            assert forall|q: Point|
                                node.points_multiset().contains(q)
                                implies excludes@.contains(q) by {
                                assert(near.points_multiset().contains(q)
                                    || far.points_multiset().contains(q));
                            }
                        },
                        Some(pd) => {
                            assert forall|q: Point|
                                node.points_multiset().contains(q) && !excludes@.contains(q)
                                implies pd.1 <= spec_sq_dist(q, *target) by {
                                assert(near.points_multiset().contains(q)
                                    || far.points_multiset().contains(q));
                                if near.points_multiset().contains(q) {
                                    let d1 = match r1 {
                                        Some(pd1) => pd1.1,
                                        None => 0,
                                    };
                                    assert(r1 matches Some(pd1) ==> pd.1 <= pd1.1);
                                }
                            }
                        },
                    }
                }
                r2
            } else {
                proof {
                    let pd = r1->Some_0;
                    let far = if go_left {
                        *s.right
                    } else {
                        *s.left
                    };
                    let near = if go_left {
                        *s.left
                    } else {
                        *s.right
                    };
                    lemma_sq_dist_nonneg(pd.0, *target);
                    assert forall|q: Point|
                        node.points_multiset().contains(q) && !excludes@.contains(q)
                        implies pd.1 <= spec_sq_dist(q, *target) by {
                        assert(near.points_multiset().contains(q) || far.points_multiset(
                        ).contains(q));
                        if far.points_multiset().contains(q) {
                            lemma_prune_far(
                                q,
                                *target,
                                s.axis,
                                s.position as int,
                                pd.1 as int,
                                go_left,
                            );
                        }
                    }
                }
                r1
            }
        },
    }
}

impl KdTree {
    /// Nearest-neighbor query with exclusion: returns an unexcluded
    /// point of the tree at minimal squared distance from the target
    /// (the brute-force minimum over all unexcluded points), or `None`
    /// when every point of the tree is excluded.
    pub fn nearest_neighbor_search(&self, target: &Point, excludes: &Vec<Point>) -> (r: Option<
        Point,
    >)
        requires
            (*self.root).wf(),
            target.in_bounds(),
        ensures
            match r {
                None => forall|q: Point|
                    (*self.root).points_multiset().contains(q) ==> excludes@.contains(q),
                Some(p) => {
                    &&& (*self.root).points_multiset().contains(p)
                    &&& !excludes@.contains(p)
                    &&& forall|q: Point|
                        (*self.root).points_multiset().contains(q) && !excludes@.contains(q)
                            ==> spec_sq_dist(p, *target) <= spec_sq_dist(q, *target)
                },
            },
    {
        match nn_node(&self.root, target, excludes, None) {
            Some(pd) => Some(pd.0),
            None => None,
        }
    }
}


/// A pair `(p, q)` is excluded at step `t` when the two points
/// coincide, or some earlier pairing already matched them together.
/// Exclusion works on point values: equal points share exclusions.
pub open spec fn pair_excluded(pairs: Seq<(Point, Point)>, t: int, p: Point, q: Point) -> bool {
    ||| p == q
    ||| exists|m: int|
        0 <= m < t && (((#[trigger] pairs[m]).0 == p && pairs[m].1 == q) || (pairs[m].0 == q
            && pairs[m].1 == p))
}

/// Step `t` of a greedy pairing is valid: both points come from the
/// input set, they were not excluded from each other, and no
/// unexcluded pair of input points was strictly closer.
pub open spec fn valid_round(points: Seq<Point>, pairs: Seq<(Point, Point)>, t: int) -> bool {
    &&& points.contains(pairs[t].0)
    &&& points.contains(pairs[t].1)
    &&& !pair_excluded(pairs, t, pairs[t].0, pairs[t].1)
    &&& forall|c: int, d: int|
        0 <= c < points.len() && 0 <= d < points.len() && !pair_excluded(
            pairs,
            t,
            #[trigger] points[c],
            #[trigger] points[d],
        ) ==> spec_sq_dist(pairs[t].0, pairs[t].1) <= spec_sq_dist(points[c], points[d])
}

/// Appending a later pairing does not change what was excluded at an
/// earlier step.
pub proof fn lemma_pair_excluded_push(
    pairs: Seq<(Point, Point)>,
    e: (Point, Point),
    t: int,
    p: Point,
    q: Point,
)
    requires
        0 <= t <= pairs.len(),
    ensures
        pair_excluded(pairs.push(e), t, p, q) == pair_excluded(pairs, t, p, q),
{
    if p != q {
        if pair_excluded(pairs.push(e), t, p, q) {
            let m = choose|m: int|
                0 <= m < t && (((#[trigger] pairs.push(e)[m]).0 == p && pairs.push(e)[m].1 == q)
                    || (pairs.push(e)[m].0 == q && pairs.push(e)[m].1 == p));
            assert(pairs.push(e)[m] == pairs[m]);
            assert(pair_excluded(pairs, t, p, q));
        }
        if pair_excluded(pairs, t, p, q) {
            let m = choose|m: int|
                0 <= m < t && (((#[trigger] pairs[m]).0 == p && pairs[m].1 == q) || (pairs[m].0
                    == q && pairs[m].1 == p));
            assert(pairs.push(e)[m] == pairs[m]);
            assert(pair_excluded(pairs.push(e), t, p, q));
        }
    }
}

/// What is excluded right after recording one more pairing: everything
/// that was excluded before, plus the new pairing in either direction.
pub proof fn lemma_pair_excluded_snoc(pairs: Seq<(Point, Point)>, e: (Point, Point), p: Point, q: Point)
    ensures
        pair_excluded(pairs.push(e), pairs.len() as int + 1, p, q) == (pair_excluded(
            pairs,
            pairs.len() as int,
            p,
            q,
        ) || (e.0 == p && e.1 == q) || (e.0 == q && e.1 == p)),
{
    let ps2 = pairs.push(e);
    let t2: int = pairs.len() as int + 1;
    if p != q {
        if pair_excluded(ps2, t2, p, q) {
            let m = choose|m: int|
                0 <= m < t2 && (((#[trigger] ps2[m]).0 == p && ps2[m].1 == q) || (ps2[m].0 == q
                    && ps2[m].1 == p));
            if m < pairs.len() {
                assert(ps2[m] == pairs[m]);
                assert(pair_excluded(pairs, pairs.len() as int, p, q));
            } else {
                assert(ps2[m] == e);
            }
        }
        if pair_excluded(pairs, pairs.len() as int, p, q) {
            let m = choose|m: int|
                0 <= m < pairs.len() && (((#[trigger] pairs[m]).0 == p && pairs[m].1 == q) || (
                pairs[m].0 == q && pairs[m].1 == p));
            assert(ps2[m] == pairs[m]);
            assert(pair_excluded(ps2, t2, p, q));
        }
        if (e.0 == p && e.1 == q) || (e.0 == q && e.1 == p) {
            assert(ps2[pairs.len() as int] == e);
            assert(pair_excluded(ps2, t2, p, q));
        }
    }
}

/// A valid earlier step stays valid after a later pairing is recorded.
pub proof fn lemma_valid_round_push(
    points: Seq<Point>,
    pairs: Seq<(Point, Point)>,
    e: (Point, Point),
    t: int,
)
    requires
        0 <= t < pairs.len(),
        valid_round(points, pairs, t),
    ensures
        valid_round(points, pairs.push(e), t),
{
    let ps2 = pairs.push(e);
    assert(ps2[t] == pairs[t]);
    lemma_pair_excluded_push(pairs, e, t, pairs[t].0, pairs[t].1);
    assert forall|c: int, d: int|
        0 <= c < points.len() && 0 <= d < points.len() && !pair_excluded(
            ps2,
            t,
            #[trigger] points[c],
            #[trigger] points[d],
        ) implies spec_sq_dist(ps2[t].0, ps2[t].1) <= spec_sq_dist(points[c], points[d]) by {
        lemma_pair_excluded_push(pairs, e, t, points[c], points[d]);
    }
}

/// Strategy B clustering: each round queries, for every point, its
/// nearest neighbor outside that point's exclusion set, pairs the
/// globally closest such pair, and marks the two points as mutually
/// excluded (a point may pair again with a different partner later).
/// Stops after `rounds` pairings, or as soon as no pair is possible.
/// Exclusion is by point value, and every point starts excluded from
/// itself.
pub fn greedy_pairs(points: &Vec<Point>, rounds: usize, leaf_size: usize) -> (pairs: Vec<
    (Point, Point),
>)
    requires
        leaf_size >= 1,
        points@.len() <= usize::MAX / 2,
        forall|k: int| 0 <= k < points@.len() ==> (#[trigger] points@[k]).in_bounds(),
    ensures
        pairs@.len() <= rounds,
        forall|t: int| 0 <= t < pairs@.len() ==> valid_round(points@, pairs@, t),
        pairs@.len() < rounds ==> (forall|c: int, d: int|
            0 <= c < points@.len() && 0 <= d < points@.len() ==> pair_excluded(
                pairs@,
                pairs@.len() as int,
                #[trigger] points@[c],
                #[trigger] points@[d],
            )),
{
    let n = points.len();
    let cloned = points.clone();
    proof {
        assert(cloned@ =~= points@);
    }
    let tree = KdTree::new(cloned, leaf_size);
    let mut excl: Vec<Vec<Point>> = Vec::new();
    let mut i: usize = 0;
    while i < n
        invariant
            n == points@.len(),
            i <= n,
            excl@.len() == i,
            forall|ii: int| 0 <= ii < i ==> (#[trigger] excl@[ii])@ =~= seq![points@[ii]],
        decreases n - i,
    {
        let mut own: Vec<Point> = Vec::new();
        own.push(points[i]);
        excl.push(own);
        i = i + 1;
    }
    let mut pairs: Vec<(Point, Point)> = Vec::new();
    let mut round: usize = 0;
    proof {
        assert forall|ii: int, q: Point| 0 <= ii < n implies (#[trigger] excl@[ii]@.contains(q)
            <==> pair_excluded(pairs@, pairs@.len() as int, points@[ii], q)) by {
            assert(excl@[ii]@ =~= seq![points@[ii]]);
            assert(excl@[ii]@.len() == 1);
            assert(excl@[ii]@[0] == points@[ii]);
            if q == points@[ii] {
                assert(excl@[ii]@.contains(q));
            }
            if excl@[ii]@.contains(q) {
                let t = choose|t: int| 0 <= t < excl@[ii]@.len() && excl@[ii]@[t] == q;
                assert(t == 0);
            }
        }
    }
    while round < rounds
        invariant
            n == points@.len(),
            forall|k: int| 0 <= k < points@.len() ==> (#[trigger] points@[k]).in_bounds(),
            (*tree.root).wf(),
            (*tree.root).points_multiset() == points@.to_multiset(),
            excl@.len() == n,
            round <= rounds,
            pairs@.len() == round,
            forall|ii: int, q: Point|
                0 <= ii < n ==> (#[trigger] excl@[ii]@.contains(q) <==> pair_excluded(
                    pairs@,
                    pairs@.len() as int,
                    points@[ii],
                    q,
                )),
            forall|t: int| 0 <= t < pairs@.len() ==> valid_round(points@, pairs@, t),
        decreases rounds - round,
    {
        let ghost cur = pairs@;
        let mut best: Option<(Point, Point, i64)> = None;
        let mut i: usize = 0;
        while i < n
            invariant
                n == points@.len(),
                i <= n,
                forall|k: int| 0 <= k < points@.len() ==> (#[trigger] points@[k]).in_bounds(),
                (*tree.root).wf(),
                (*tree.root).points_multiset() == points@.to_multiset(),
                excl@.len() == n,
                cur == pairs@,
                forall|ii: int, q: Point|
                    0 <= ii < n ==> (#[trigger] excl@[ii]@.contains(q) <==> pair_excluded(
                        cur,
                        cur.len() as int,
                        points@[ii],
                        q,
                    )),
                match best {
                    None => forall|c: int, d: int|
                        0 <= c < i && 0 <= d < n ==> pair_excluded(
                            cur,
                            cur.len() as int,
                            #[trigger] points@[c],
                            #[trigger] points@[d],
                        ),
                    Some(b) => {
                        &&& b.2 == spec_sq_dist(b.0, b.1)
                        &&& points@.contains(b.0)
                        &&& points@.contains(b.1)
                        &&& !pair_excluded(cur, cur.len() as int, b.0, b.1)
                        &&& forall|c: int, d: int|
                            0 <= c < i && 0 <= d < n && !pair_excluded(
                                cur,
                                cur.len() as int,
                                #[trigger] points@[c],
                                #[trigger] points@[d],
                            ) ==> b.2 <= spec_sq_dist(points@[c], points@[d])
                    },
                },
            decreases n - i,
        {
            let p = points[i];
            let nb = tree.nearest_neighbor_search(&p, &excl[i]);
            match nb {
                Some(q) => {
                    proof {
                        (*tree.root).lemma_wf_in_bounds(q);
                    }
                    let d = Day08::squared_distance(&p, &q);
                    let take = match &best {
                        None => true,
                        Some(b) => d < b.2,
                    };
                    proof {
                        assert(points@.to_multiset().contains(q));
                        assert(points@.contains(q));
                        assert(!pair_excluded(cur, cur.len() as int, points@[i as int], q));
                        assert forall|dd: int|
                            0 <= dd < n && !pair_excluded(
                                cur,
                                cur.len() as int,
                                points@[i as int],
                                #[trigger] points@[dd],
                            ) implies d <= spec_sq_dist(points@[i as int], points@[dd]) by {
                            assert(points@.contains(points@[dd]));
                            assert(points@.to_multiset().contains(points@[dd]));
                            assert(!excl@[i as int]@.contains(points@[dd]));
                            assert(spec_sq_dist(q, p) <= spec_sq_dist(points@[dd], p));
                            lemma_sq_dist_sym(q, p);
                            lemma_sq_dist_sym(points@[dd], p);
                        }
                    }
                    if take {
                        best = Some((p, q, d));
                    }
                },
                None => {
                    proof {
                        assert forall|dd: int| 0 <= dd < n implies pair_excluded(
                            cur,
                            cur.len() as int,
                            points@[i as int],
                            #[trigger] points@[dd],
                        ) by {
                            assert(points@.contains(points@[dd]));
                            assert(points@.to_multiset().contains(points@[dd]));
                            assert(excl@[i as int]@.contains(points@[dd]));
                        }
                    }
                },
            }
            i = i + 1;
        }
        let b = match best {
            None => {
                return pairs;
            },
            Some(b) => b,
        };
        let ghost e = (b.0, b.1);
        pairs.push((b.0, b.1));
        let mut k: usize = 0;
        while k < n
            invariant
                n == points@.len(),
                k <= n,
                excl@.len() == n,
                pairs@ == cur.push(e),
                e == (b.0, b.1),
                b.0 != b.1,
                forall|ii: int, q: Point|
                    k <= ii < n ==> (#[trigger] excl@[ii]@.contains(q) <==> pair_excluded(
                        cur,
                        cur.len() as int,
                        points@[ii],
                        q,
                    )),
                forall|ii: int, q: Point|
                    0 <= ii < k ==> (#[trigger] excl@[ii]@.contains(q) <==> pair_excluded(
                        pairs@,
                        pairs@.len() as int,
                        points@[ii],
                        q,
                    )),
            decreases n - k,
        {
            let ghost excl0 = excl@[k as int]@;
            if points[k] == b.0 {
                let cell = &mut excl[k];
                cell.push(b.1);
            } else if points[k] == b.1 {
                let cell = &mut excl[k];
                cell.push(b.0);
            }
            proof {
                assert forall|q: Point| ((#[trigger] excl@[k as int]@.contains(q)) <==> pair_excluded(
                    pairs@,
                    pairs@.len() as int,
                    points@[k as int],
                    q,
                )) by {
                    lemma_pair_excluded_snoc(cur, e, points@[k as int], q);
                    assert(excl0.contains(q) <==> pair_excluded(
                        cur,
                        cur.len() as int,
                        points@[k as int],
                        q,
                    ));
                    if points@[k as int] == b.0 {
                        assert(excl@[k as int]@ =~= excl0.push(b.1));
                        if excl@[k as int]@.contains(q) {
                            if q == b.1 {
                            } else {
                                assert(excl0.contains(q));
                            }
                        }
                    } else if points@[k as int] == b.1 {
                        assert(excl@[k as int]@ =~= excl0.push(b.0));
                        if excl@[k as int]@.contains(q) {
                            if q == b.0 {
                            } else {
                                assert(excl0.contains(q));
                            }
                        }
                    } else {
                        assert(excl@[k as int]@ == excl0);
                    }
                }
            }
            k = k + 1;
        }
        proof {
            assert forall|t: int| 0 <= t < pairs@.len() implies valid_round(
                points@,
                pairs@,
                t,
            ) by {
                if t < cur.len() {
                    lemma_valid_round_push(points@, cur, e, t);
                } else {
                    assert(pairs@[t] == e);
                    lemma_pair_excluded_push(cur, e, t, e.0, e.1);
                    assert forall|c: int, d: int|
                        0 <= c < points@.len() && 0 <= d < points@.len() && !pair_excluded(
                            pairs@,
                            t,
                            #[trigger] points@[c],
                            #[trigger] points@[d],
                        ) implies spec_sq_dist(pairs@[t].0, pairs@[t].1) <= spec_sq_dist(
                        points@[c],
                        points@[d],
                    ) by {
                        lemma_pair_excluded_push(cur, e, t, points@[c], points@[d]);
                    }
                }
            }
        }
        round = round + 1;
    }
    pairs
}

} // verus!
