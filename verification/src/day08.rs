//! Spatial clustering engine: three-dimensional integer points, a
//! union-find structure with path compression and union-by-rank, an
//! ordered frontier of candidate pairwise merges, and the two clustering
//! queries (sizes of the largest components after a bounded number of
//! merges, and the merge that first connects the whole set).

use vstd::prelude::*;

use vstd::relations::{sorted_by, total_ordering};

use crate::strutil::{
    lines_of, parse_i64, spec_lines, spec_parse_i64, spec_split, spec_trim, spec_uint_string,
    spec_int_string, split_char, to_chars, trim_chars, u64_string, i64_string,
};
use crate::forest::{
    chain_root, forest_ok, lemma_chain_root_fixed, lemma_chain_root_props, lemma_compress_ok,
    lemma_compress_same_root, lemma_union_ok, lemma_union_root, union_levels,
};

verus! {

broadcast use {vstd::seq_lib::group_to_multiset_ensures, vstd::multiset::group_multiset_axioms};

/// Coordinates are assumed to stay within this bound so that a squared
/// distance `dx*dx + dy*dy + dz*dz` never overflows an `i64`:
/// `3 * (2 * 800_000_000)^2 = 7_680_000_000_000_000_000 < i64::MAX`.
pub const COORD_LIMIT: i64 = 800_000_000;

#[derive(Clone, Copy, PartialEq, Eq, Structural, Hash, Debug)]
pub struct Point {
    pub x: i64,
    pub y: i64,
    pub z: i64,
}

impl Point {
    /// All three coordinates lie within the documented bound.
    pub open spec fn in_bounds(self) -> bool {
        &&& -COORD_LIMIT <= self.x <= COORD_LIMIT
        &&& -COORD_LIMIT <= self.y <= COORD_LIMIT
        &&& -COORD_LIMIT <= self.z <= COORD_LIMIT
    }

    pub fn new(x: i64, y: i64, z: i64) -> (p: Point)
        ensures
            p == (Point { x, y, z }),
    {
        Point { x, y, z }
    }
}

/// Exact squared euclidean distance, in unbounded integer arithmetic.
pub open spec fn spec_sq_dist(a: Point, b: Point) -> int {
    (a.x - b.x) * (a.x - b.x) + (a.y - b.y) * (a.y - b.y) + (a.z - b.z) * (a.z - b.z)
}

pub struct Day08;

impl Day08 {
    /// Squared distance between two in-bounds points; exact and
    /// overflow-free by the coordinate bound.
    pub fn squared_distance(a: &Point, b: &Point) -> (d: i64)
        requires
            a.in_bounds(),
            b.in_bounds(),
        ensures
            d == spec_sq_dist(*a, *b),
            0 <= d <= 3 * (2 * COORD_LIMIT) * (2 * COORD_LIMIT),
    {
        let dx = a.x - b.x;
        let dy = a.y - b.y;
        let dz = a.z - b.z;
        proof {
            lemma_square_bound(dx as int, 2 * COORD_LIMIT);
            lemma_square_bound(dy as int, 2 * COORD_LIMIT);
            lemma_square_bound(dz as int, 2 * COORD_LIMIT);
        }
        dx * dx + dy * dy + dz * dz
    }
}

/// Squared distance is symmetric in its two points.
pub proof fn lemma_sq_dist_sym(a: Point, b: Point)
    ensures
        spec_sq_dist(a, b) == spec_sq_dist(b, a),
{
    assert(spec_sq_dist(a, b) == spec_sq_dist(b, a)) by (nonlinear_arith);
}

/// For `|v| <= b`, the square `v * v` lies between `0` and `b * b`.
pub proof fn lemma_square_bound(v: int, b: int)
    requires
        -b <= v <= b,
    ensures
        0 <= v * v <= b * b,
{
    assert(0 <= v * v <= b * b) by (nonlinear_arith)
        requires
            -b <= v <= b,
    ;
}

/// Disjoint-set structure over indices `0..n` with path compression and
/// union-by-rank. The partition it represents is exposed through the
/// spec function `rep`, the representative of each index's class.
pub struct UnionFind {
    parent: Vec<usize>,
    rank: Vec<usize>,
    level: Ghost<Seq<nat>>,
}

impl UnionFind {
    /// Internal well-formedness: the parent array is a forest.
    pub closed spec fn inv(self) -> bool {
        &&& self.rank@.len() == self.parent@.len()
        &&& forest_ok(self.parent@, self.level@)
    }

    pub closed spec fn spec_len(self) -> nat {
        self.parent@.len()
    }

    /// The representative of index `x`'s class.
    pub closed spec fn rep(self, x: int) -> int {
        chain_root(self.parent@, self.level@, x)
    }

    pub closed spec fn rank_of(self, r: int) -> int {
        self.rank@[r] as int
    }

    pub open spec fn same_class(self, a: int, b: int) -> bool {
        self.rep(a) == self.rep(b)
    }

    /// Every index is in the same class as index 0.
    pub open spec fn all_connected(self) -> bool {
        forall|i: int| 0 <= i < self.spec_len() ==> #[trigger] self.rep(i) == self.rep(0)
    }

    /// Representatives are idempotent and in range: the root of a class is
    /// its own representative.
    pub proof fn lemma_rep_idempotent(self, x: int)
        requires
            self.inv(),
            0 <= x < self.spec_len(),
        ensures
            0 <= self.rep(x) < self.spec_len(),
            self.rep(self.rep(x)) == self.rep(x),
    {
        lemma_chain_root_props(self.parent@, self.level@, x);
        lemma_chain_root_fixed(self.parent@, self.level@, self.rep(x));
    }

    /// The representative of `x` is a fixed point of the parent array.
    proof fn lemma_rep_is_root(self, x: int)
        requires
            self.inv(),
            0 <= x < self.spec_len(),
        ensures
            0 <= self.rep(x) < self.spec_len(),
            self.parent@[self.rep(x)] == self.rep(x),
    {
        lemma_chain_root_props(self.parent@, self.level@, x);
    }

    pub fn new(size: usize) -> (uf: UnionFind)
        ensures
            uf.inv(),
            uf.spec_len() == size,
            forall|i: int| 0 <= i < size ==> #[trigger] uf.rep(i) == i,
            forall|i: int| 0 <= i < size ==> #[trigger] uf.rank_of(i) == 0,
    {
        let mut parent: Vec<usize> = Vec::new();
        let mut k: usize = 0;
        while k < size
            invariant
                k <= size,
                parent@.len() == k,
                forall|i: int| 0 <= i < k ==> #[trigger] parent@[i] == i,
            decreases size - k,
        {
            parent.push(k);
            k = k + 1;
        }
        let rank: Vec<usize> = vec![0; size];
        let uf = UnionFind { parent, rank, level: Ghost(Seq::new(size as nat, |i: int| 0)) };
        proof {
            assert(forest_ok(uf.parent@, uf.level@));
        }
        uf
    }

    /// Returns the representative of `x`'s class, compressing the path
    /// from `x` to the root. The partition itself does not change.
    pub fn find(&mut self, x: usize) -> (r: usize)
        requires
            old(self).inv(),
            x < old(self).spec_len(),
        ensures
            final(self).inv(),
            final(self).spec_len() == old(self).spec_len(),
            r as int == old(self).rep(x as int),
            r < final(self).spec_len(),
            forall|i: int|
                0 <= i < final(self).spec_len() ==> #[trigger] final(self).rep(i) == old(self).rep(i),
            forall|i: int|
                0 <= i < final(self).spec_len() ==> #[trigger] final(self).rank_of(i) == old(self).rank_of(i),
    {
        let ghost uf0 = *self;
        proof {
            lemma_chain_root_props(uf0.parent@, uf0.level@, x as int);
        }
        let mut r: usize = x;
        while self.parent[r] != r
            invariant
                *self == uf0,
                uf0.inv(),
                x < uf0.spec_len(),
                r < uf0.spec_len(),
                chain_root(uf0.parent@, uf0.level@, r as int) == uf0.rep(x as int),
            decreases uf0.level@[r as int],
        {
            r = self.parent[r];
        }
        proof {
            lemma_chain_root_fixed(uf0.parent@, uf0.level@, r as int);
        }
        let mut c: usize = x;
        while self.parent[c] != c
            invariant
                self.inv(),
                self.spec_len() == uf0.spec_len(),
                self.level@ == uf0.level@,
                self.rank@ == uf0.rank@,
                c < uf0.spec_len(),
                r < uf0.spec_len(),
                r as int == uf0.rep(x as int),
                self.parent@[r as int] == r,
                chain_root(self.parent@, self.level@, c as int) == r as int,
                forall|i: int|
                    0 <= i < uf0.spec_len() ==> #[trigger] chain_root(
                        self.parent@,
                        self.level@,
                        i,
                    ) == uf0.rep(i),
            decreases uf0.level@[c as int],
        {
            let next = self.parent[c];
            proof {
                let p1 = self.parent@;
                let lv = self.level@;
                lemma_compress_ok(p1, lv, c as int);
                assert forall|i: int| 0 <= i < uf0.spec_len() implies #[trigger] chain_root(
                    p1.update(c as int, r),
                    lv,
                    i,
                ) == chain_root(p1, lv, i) by {
                    lemma_compress_same_root(p1, lv, c as int, i);
                }
                assert(p1.update(c as int, r) == p1.update(
                    c as int,
                    chain_root(p1, lv, c as int) as usize,
                ));
            }
            self.parent[c] = r;
            c = next;
        }
        r
    }

    /// What `union(x, y)` does to the partition and the ranks: the two
    /// classes merge under the winner `w` chosen by rank (ties go to
    /// `x`'s root, whose rank then grows by one); everything else is
    /// untouched. When the classes already coincide, nothing changes.
    pub open spec fn union_post(pre: UnionFind, post: UnionFind, x: int, y: int) -> bool {
        let rx = pre.rep(x);
        let ry = pre.rep(y);
        let w = if rx == ry {
            rx
        } else if pre.rank_of(rx) >= pre.rank_of(ry) {
            rx
        } else {
            ry
        };
        &&& post.spec_len() == pre.spec_len()
        &&& forall|i: int|
            0 <= i < pre.spec_len() ==> #[trigger] post.rep(i) == (if pre.rep(i) == rx
                || pre.rep(i) == ry {
                w
            } else {
                pre.rep(i)
            })
        &&& forall|i: int|
            0 <= i < pre.spec_len() && i != w ==> #[trigger] post.rank_of(i) == pre.rank_of(i)
        &&& post.rank_of(w) == (if rx != ry && pre.rank_of(rx) == pre.rank_of(ry)
            && pre.rank_of(w) < usize::MAX as int {
            pre.rank_of(w) + 1
        } else {
            pre.rank_of(w)
        })
    }

    /// Attaches root `loser` beneath root `winner`: exactly `loser`'s
    /// class moves to `winner`; ranks are untouched.
    fn attach(&mut self, winner: usize, loser: usize)
        requires
            old(self).inv(),
            winner < old(self).spec_len(),
            loser < old(self).spec_len(),
            old(self).parent@[winner as int] == winner,
            old(self).parent@[loser as int] == loser,
            winner != loser,
        ensures
            final(self).inv(),
            final(self).spec_len() == old(self).spec_len(),
            final(self).rank@ == old(self).rank@,
            forall|i: int|
                0 <= i < final(self).spec_len() ==> #[trigger] final(self).rep(i) == (if old(
                    self,
                ).rep(i) == loser {
                    winner as int
                } else {
                    old(self).rep(i)
                }),
    {
        let ghost p = self.parent@;
        let ghost lv = self.level@;
        let ghost lv2 = union_levels(p, lv, winner as int, loser as int);
        proof {
            lemma_chain_root_fixed(p, lv, winner as int);
            lemma_chain_root_fixed(p, lv, loser as int);
            lemma_union_ok(p, lv, winner as int, loser as int);
            assert forall|i: int| 0 <= i < p.len() implies #[trigger] chain_root(
                p.update(loser as int, winner),
                lv2,
                i,
            ) == (if chain_root(p, lv, i) == loser {
                winner as int
            } else {
                chain_root(p, lv, i)
            }) by {
                lemma_union_root(p, lv, winner as int, loser as int, i);
            }
        }
        self.parent[loser] = winner;
        self.level = Ghost(lv2);
        proof {
            assert(self.parent@ =~= p.update(loser as int, winner));
        }
    }

    /// Merges the classes of `x` and `y` by rank; a no-op when they are
    /// already the same class.
    pub fn union(&mut self, x: usize, y: usize)
        requires
            old(self).inv(),
            x < old(self).spec_len(),
            y < old(self).spec_len(),
        ensures
            final(self).inv(),
            Self::union_post(*old(self), *final(self), x as int, y as int),
    {
        let ghost pre = *old(self);
        let root_x = self.find(x);
        let root_y = self.find(y);
        proof {
            self.lemma_rep_is_root(x as int);
            self.lemma_rep_is_root(y as int);
        }
        let ghost mid = *self;
        let ghost rx = root_x as int;
        let ghost ry = root_y as int;
        if root_x != root_y {
            if self.rank[root_x] > self.rank[root_y] {
                self.attach(root_x, root_y);
                proof {
                    assert forall|i: int| 0 <= i < pre.spec_len() implies #[trigger] self.rep(i)
                        == (if pre.rep(i) == ry {
                        rx
                    } else {
                        pre.rep(i)
                    }) by {
                        assert(mid.rep(i) == pre.rep(i));
                    }
                }
            } else if self.rank[root_x] < self.rank[root_y] {
                self.attach(root_y, root_x);
                proof {
                    assert forall|i: int| 0 <= i < pre.spec_len() implies #[trigger] self.rep(i)
                        == (if pre.rep(i) == rx {
                        ry
                    } else {
                        pre.rep(i)
                    }) by {
                        assert(mid.rep(i) == pre.rep(i));
                    }
                }
            } else {
                self.attach(root_x, root_y);
                let ghost aft = *self;
                let grown = self.rank[root_x];
                if grown < usize::MAX {
                    self.rank[root_x] = grown + 1;
                }
                proof {
                    assert forall|i: int| 0 <= i < pre.spec_len() implies #[trigger] self.rep(i)
                        == (if pre.rep(i) == ry {
                        rx
                    } else {
                        pre.rep(i)
                    }) by {
                        assert(self.parent@ =~= aft.parent@);
                        assert(self.level@ == aft.level@);
                        assert(self.rep(i) == aft.rep(i));
                        assert(mid.rep(i) == pre.rep(i));
                        assert(aft.rep(i) == (if mid.rep(i) == ry {
                            rx
                        } else {
                            mid.rep(i)
                        }));
                    }
                }
            }
        }
        proof {
            let post = *self;
            let w = if rx == ry {
                rx
            } else if pre.rank_of(rx) >= pre.rank_of(ry) {
                rx
            } else {
                ry
            };
            assert(root_x as int == rx);
            assert(root_y as int == ry);
            assert(mid.rank_of(rx) == pre.rank_of(rx));
            assert(mid.rank_of(ry) == pre.rank_of(ry));
            assert forall|i: int| 0 <= i < pre.spec_len() implies #[trigger] post.rep(i) == (
            if pre.rep(i) == rx || pre.rep(i) == ry {
                w
            } else {
                pre.rep(i)
            }) by {
                assert(mid.rep(i) == pre.rep(i));
            }
            assert forall|i: int|
                0 <= i < pre.spec_len() && i != w implies #[trigger] post.rank_of(i)
                == pre.rank_of(i) by {
                assert(mid.rank_of(i) == pre.rank_of(i));
            }
            assert(post.rank_of(w) == (if rx != ry && pre.rank_of(rx) == pre.rank_of(ry)
                && pre.rank_of(w) < usize::MAX as int {
                pre.rank_of(w) + 1
            } else {
                pre.rank_of(w)
            }));
            assert(Self::union_post(pre, post, x as int, y as int));
        }
    }

    /// After a union, the two arguments share a class.
    pub proof fn lemma_union_connects(pre: UnionFind, post: UnionFind, x: int, y: int)
        requires
            0 <= x < pre.spec_len(),
            0 <= y < pre.spec_len(),
            Self::union_post(pre, post, x, y),
        ensures
            post.same_class(x, y),
    {
    }

    /// Repeating `union` on the same pair changes nothing further: the
    /// partition and the ranks after the second call equal those after
    /// the first.
    pub proof fn lemma_union_idempotent(
        uf0: UnionFind,
        uf1: UnionFind,
        uf2: UnionFind,
        x: int,
        y: int,
    )
        requires
            0 <= x < uf0.spec_len(),
            0 <= y < uf0.spec_len(),
            Self::union_post(uf0, uf1, x, y),
            Self::union_post(uf1, uf2, x, y),
        ensures
            forall|i: int| 0 <= i < uf1.spec_len() ==> #[trigger] uf2.rep(i) == uf1.rep(i),
            forall|i: int| 0 <= i < uf1.spec_len() ==> #[trigger] uf2.rank_of(i) == uf1.rank_of(i),
    {
        let rx = uf0.rep(x);
        let ry = uf0.rep(y);
        let w = if rx == ry {
            rx
        } else if uf0.rank_of(rx) >= uf0.rank_of(ry) {
            rx
        } else {
            ry
        };
        assert(uf1.rep(x) == w);
        assert(uf1.rep(y) == w);
    }

    /// True exactly when every index shares its class with index 0.
    pub fn are_all_same_root(&mut self) -> (b: bool)
        requires
            old(self).inv(),
            old(self).spec_len() >= 1,
        ensures
            final(self).inv(),
            final(self).spec_len() == old(self).spec_len(),
            b == old(self).all_connected(),
            forall|i: int|
                0 <= i < final(self).spec_len() ==> #[trigger] final(self).rep(i) == old(self).rep(i),
            forall|i: int|
                0 <= i < final(self).spec_len() ==> #[trigger] final(self).rank_of(i) == old(self).rank_of(i),
    {
        let ghost pre = *old(self);
        let first_root = self.find(0);
        let n = self.parent.len();
        let mut i: usize = 1;
        while i < n
            invariant
                pre == *old(self),
                self.inv(),
                self.spec_len() == pre.spec_len(),
                n == pre.spec_len(),
                1 <= i <= n,
                first_root as int == pre.rep(0),
                forall|j: int| 0 <= j < self.spec_len() ==> #[trigger] self.rep(j) == pre.rep(j),
                forall|j: int|
                    0 <= j < self.spec_len() ==> #[trigger] self.rank_of(j) == pre.rank_of(j),
                forall|j: int| 0 <= j < i ==> #[trigger] pre.rep(j) == pre.rep(0),
            decreases n - i,
        {
            if self.find(i) != first_root {
                return false;
            }
            i = i + 1;
        }
        true
    }
}


/// A candidate merge between the points at indices `i < j`, at the given
/// squared distance.
#[derive(Clone, Copy, PartialEq, Eq, Structural, Debug)]
pub struct CandidateEdge {
    pub distance: i64,
    pub i: usize,
    pub j: usize,
}

/// Candidate edges are ordered by distance ascending, then by `i`, then
/// by `j`, so the drain order is fully deterministic.
pub open spec fn spec_edge_le(a: CandidateEdge, b: CandidateEdge) -> bool {
    ||| a.distance < b.distance
    ||| (a.distance == b.distance && a.i < b.i)
    ||| (a.distance == b.distance && a.i == b.i && a.j <= b.j)
}

pub open spec fn edge_order() -> spec_fn(CandidateEdge, CandidateEdge) -> bool {
    |a: CandidateEdge, b: CandidateEdge| spec_edge_le(a, b)
}

pub proof fn lemma_edge_order_total()
    ensures
        total_ordering(edge_order()),
{
}

/// Exact executable counterpart of the edge ordering.
pub fn edge_le(a: &CandidateEdge, b: &CandidateEdge) -> (r: bool)
    ensures
        r == spec_edge_le(*a, *b),
{
    if a.distance != b.distance {
        a.distance < b.distance
    } else if a.i != b.i {
        a.i < b.i
    } else {
        a.j <= b.j
    }
}

/// Selection sort on candidate edges: the result is sorted in the
/// deterministic drain order and holds exactly the input edges.
pub fn sort_edges(input: Vec<CandidateEdge>) -> (out: Vec<CandidateEdge>)
    ensures
        sorted_by(out@, edge_order()),
        out@.to_multiset() == input@.to_multiset(),
{
    let ghost all = input@;
    let mut rest = input;
    let mut out: Vec<CandidateEdge> = Vec::new();
    while rest.len() > 0
        invariant
            out@.to_multiset().add(rest@.to_multiset()) == all.to_multiset(),
            sorted_by(out@, edge_order()),
            forall|a: int, b: int|
                0 <= a < out@.len() && 0 <= b < rest@.len() ==> spec_edge_le(
                    #[trigger] out@[a],
                    #[trigger] rest@[b],
                ),
        decreases rest.len(),
    {
        let mut m: usize = 0;
        let mut k: usize = 1;
        while k < rest.len()
            invariant
                rest@.len() > 0,
                m < k <= rest@.len(),
                forall|t: int| 0 <= t < k ==> spec_edge_le(rest@[m as int], #[trigger] rest@[t]),
            decreases rest.len() - k,
        {
            if edge_le(&rest[k], &rest[m]) {
                m = k;
            }
            k = k + 1;
        }
        let ghost rest0 = rest@;
        let ghost out0 = out@;
        let e = rest.remove(m);
        out.push(e);
        proof {
            assert(rest0.contains(e));
            assert(out@.to_multiset().add(rest@.to_multiset()) =~= all.to_multiset());
            assert(sorted_by(out@, edge_order()));
        }
    }
    out
}

/// Each edge records a real pair `i < j` together with its exact
/// squared distance.
pub open spec fn edge_valid(points: Seq<Point>, e: CandidateEdge) -> bool {
    &&& e.i < e.j
    &&& (e.j as int) < points.len()
    &&& e.distance == spec_sq_dist(points[e.i as int], points[e.j as int])
}

/// Some edge of `es` joins exactly the pair `(a, b)`.
pub open spec fn has_pair(es: Seq<CandidateEdge>, a: int, b: int) -> bool {
    exists|k: int| 0 <= k < es.len() && (#[trigger] es[k]).i == a && es[k].j == b
}

/// `es` holds exactly one candidate edge for every unordered pair of
/// point indices, sorted in the deterministic drain order.
pub open spec fn is_pair_ordering(points: Seq<Point>, es: Seq<CandidateEdge>) -> bool {
    &&& forall|k: int| 0 <= k < es.len() ==> edge_valid(points, #[trigger] es[k])
    &&& forall|a: int, b: int| 0 <= a < b < points.len() ==> #[trigger] has_pair(es, a, b)
    &&& forall|k: int, l: int|
        0 <= k < es.len() && 0 <= l < es.len() && k != l ==> !((#[trigger] es[k]).i
            == (#[trigger] es[l]).i && es[k].j == es[l].j)
    &&& sorted_by(es, edge_order())
}

/// There is exactly one frontier ordering for a given point set.
pub proof fn lemma_pair_ordering_unique(
    points: Seq<Point>,
    es1: Seq<CandidateEdge>,
    es2: Seq<CandidateEdge>,
)
    requires
        is_pair_ordering(points, es1),
        is_pair_ordering(points, es2),
    ensures
        es1 == es2,
{
    lemma_edge_order_total();
    assert(es1.no_duplicates()) by {
        assert forall|k: int, l: int|
            0 <= k < es1.len() && 0 <= l < es1.len() && k != l implies es1[k] != es1[l] by {}
    }
    assert(es2.no_duplicates()) by {
        assert forall|k: int, l: int|
            0 <= k < es2.len() && 0 <= l < es2.len() && k != l implies es2[k] != es2[l] by {}
    }
    es1.lemma_multiset_has_no_duplicates();
    es2.lemma_multiset_has_no_duplicates();
    assert forall|e: CandidateEdge|
        #[trigger] es1.to_multiset().count(e) == es2.to_multiset().count(e) by {
        if es1.contains(e) {
            let k = choose|k: int| 0 <= k < es1.len() && es1[k] == e;
            assert(edge_valid(points, e));
            assert(has_pair(es2, e.i as int, e.j as int));
            let l = choose|l: int|
                0 <= l < es2.len() && (#[trigger] es2[l]).i == e.i as int && es2[l].j == e.j as int;
            assert(edge_valid(points, es2[l]));
            assert(es2[l] == e);
            assert(es2.contains(e));
            assert(es1.to_multiset().count(e) == 1);
            assert(es2.to_multiset().count(e) == 1);
        } else if es2.contains(e) {
            let l = choose|l: int| 0 <= l < es2.len() && es2[l] == e;
            assert(edge_valid(points, e));
            assert(has_pair(es1, e.i as int, e.j as int));
            let k = choose|k: int|
                0 <= k < es1.len() && (#[trigger] es1[k]).i == e.i as int && es1[k].j == e.j as int;
            assert(edge_valid(points, es1[k]));
            assert(es1[k] == e);
            assert(es1.contains(e));
            assert(false);
        } else {
            assert(es1.to_multiset().count(e) == 0);
            assert(es2.to_multiset().count(e) == 0);
        }
    }
    assert(es1.to_multiset() =~= es2.to_multiset());
    vstd::seq_lib::lemma_sorted_unique(es1, es2, edge_order());
    assert(es1 =~= es2);
}

/// The distance frontier: every candidate pairwise merge, consumed in
/// ascending `(distance, i, j)` order. Built once, then drained.
pub struct DistanceFrontier {
    edges: Vec<CandidateEdge>,
    next: usize,
}

impl DistanceFrontier {
    pub closed spec fn wf(self) -> bool {
        &&& self.next <= self.edges@.len()
        &&& sorted_by(self.edges@, edge_order())
    }

    /// The edges not yet popped, in pop order.
    pub closed spec fn remaining(self) -> Seq<CandidateEdge> {
        self.edges@.skip(self.next as int)
    }

    /// The edges popped so far, in the order they came out.
    pub closed spec fn popped(self) -> Seq<CandidateEdge> {
        self.edges@.take(self.next as int)
    }

    /// The pop order is non-decreasing: everything already popped is at
    /// or below everything still in the frontier, and the popped
    /// sequence itself is sorted by `(distance, i, j)`.
    pub proof fn lemma_pop_order(self)
        requires
            self.wf(),
        ensures
            sorted_by(self.popped(), edge_order()),
            forall|a: int, b: int|
                0 <= a < self.popped().len() && 0 <= b < self.remaining().len() ==> spec_edge_le(
                    #[trigger] self.popped()[a],
                    #[trigger] self.remaining()[b],
                ),
    {
        assert forall|a: int, b: int|
            0 <= a < self.popped().len() && 0 <= b < self.remaining().len() implies spec_edge_le(
            #[trigger] self.popped()[a],
            #[trigger] self.remaining()[b],
        ) by {
            assert(self.popped()[a] == self.edges@[a]);
            assert(self.remaining()[b] == self.edges@[self.next + b]);
            assert(edge_order()(self.edges@[a], self.edges@[self.next + b]));
        }
    }

    /// Removes and returns the least remaining candidate edge.
    pub fn pop(&mut self) -> (r: Option<CandidateEdge>)
        requires
            old(self).wf(),
        ensures
            final(self).wf(),
            old(self).remaining().len() == 0 ==> r is None && *final(self) == *old(self),
            old(self).remaining().len() > 0 ==> {
                &&& r == Some(old(self).remaining()[0])
                &&& final(self).remaining() == old(self).remaining().drop_first()
                &&& final(self).popped() == old(self).popped().push(old(self).remaining()[0])
            },
    {
        proof {
            assert(old(self).remaining().len() == self.edges@.len() - self.next);
        }
        if self.next < self.edges.len() {
            let e = self.edges[self.next];
            self.next = self.next + 1;
            proof {
                assert(self.remaining() =~= old(self).remaining().drop_first());
                assert(self.popped() =~= old(self).popped().push(old(self).remaining()[0]));
            }
            Some(e)
        } else {
            None
        }
    }

    /// True when every candidate edge has been popped.
    pub fn is_exhausted(&self) -> (b: bool)
        requires
            self.wf(),
        ensures
            b == (self.remaining().len() == 0),
    {
        self.next >= self.edges.len()
    }
}

impl Day08 {
    /// Builds the frontier of all pairwise candidate edges for the given
    /// points, ready to drain in ascending order.
    pub fn build_frontier(points: &Vec<Point>) -> (fr: DistanceFrontier)
        requires
            forall|k: int| 0 <= k < points@.len() ==> (#[trigger] points@[k]).in_bounds(),
        ensures
            fr.wf(),
            fr.popped() == Seq::<CandidateEdge>::empty(),
            is_pair_ordering(points@, fr.remaining()),
    {
        let n = points.len();
        let mut raw: Vec<CandidateEdge> = Vec::new();
        let mut i: usize = 0;
        while i < n
            invariant
                n == points@.len(),
                i <= n,
                forall|k: int| 0 <= k < points@.len() ==> (#[trigger] points@[k]).in_bounds(),
                forall|k: int| 0 <= k < raw@.len() ==> edge_valid(points@, #[trigger] raw@[k]),
                forall|k: int| 0 <= k < raw@.len() ==> (#[trigger] raw@[k]).i < i,
                forall|a: int, b: int|
                    0 <= a < b < points@.len() && a < i ==> #[trigger] has_pair(raw@, a, b),
                forall|k: int, l: int|
                    0 <= k < raw@.len() && 0 <= l < raw@.len() && k != l ==> !((
                    #[trigger] raw@[k]).i == (#[trigger] raw@[l]).i && raw@[k].j == raw@[l].j),
            decreases n - i,
        {
            let mut j: usize = i + 1;
            while j < n
                invariant
                    n == points@.len(),
                    i < j <= n || (i + 1 == j && j > n),
                    i < n,
                    forall|k: int| 0 <= k < points@.len() ==> (#[trigger] points@[k]).in_bounds(),
                    forall|k: int| 0 <= k < raw@.len() ==> edge_valid(points@, #[trigger] raw@[k]),
                    forall|k: int|
                        0 <= k < raw@.len() ==> ((#[trigger] raw@[k]).i < i || (raw@[k].i == i
                            && raw@[k].j < j)),
                    forall|a: int, b: int|
                        0 <= a < b < points@.len() && a < i ==> #[trigger] has_pair(raw@, a, b),
                    forall|b: int| i < b < j ==> #[trigger] has_pair(raw@, i as int, b),
                    forall|k: int, l: int|
                        0 <= k < raw@.len() && 0 <= l < raw@.len() && k != l ==> !((
                        #[trigger] raw@[k]).i == (#[trigger] raw@[l]).i && raw@[k].j
                            == raw@[l].j),
                decreases n - j,
            {
                let d = Self::squared_distance(&points[i], &points[j]);
                let ghost raw0 = raw@;
                raw.push(CandidateEdge { distance: d, i, j });
                proof {
                    assert forall|a: int, b: int|
                        0 <= a < b < points@.len() && a < i implies #[trigger] has_pair(
                        raw@,
                        a,
                        b,
                    ) by {
                        assert(has_pair(raw0, a, b));
                        let k = choose|k: int|
                            0 <= k < raw0.len() && (#[trigger] raw0[k]).i == a && raw0[k].j == b;
                        assert(raw@[k] == raw0[k]);
                    }
                    assert forall|b: int| i < b < j + 1 implies #[trigger] has_pair(
                        raw@,
                        i as int,
                        b,
                    ) by {
                        if b < j {
                            assert(has_pair(raw0, i as int, b));
                            let k = choose|k: int|
                                0 <= k < raw0.len() && (#[trigger] raw0[k]).i == i as int
                                    && raw0[k].j == b;
                            assert(raw@[k] == raw0[k]);
                        } else {
                            assert(raw@[raw0.len() as int].i == i as int);
                        }
                    }
                }
                j = j + 1;
            }
            i = i + 1;
        }
        let edges = sort_edges(raw);
        let fr = DistanceFrontier { edges, next: 0 };
        proof {
            let ghost es = fr.remaining();
            assert(es =~= edges@);
            raw@.lemma_multiset_has_no_duplicates();
            assert forall|k: int| 0 <= k < es.len() implies edge_valid(points@, #[trigger] es[k]) by {
                assert(es.to_multiset().contains(es[k]));
                assert(raw@.to_multiset().contains(es[k]));
                assert(raw@.contains(es[k]));
            }
            assert forall|a: int, b: int|
                0 <= a < b < points@.len() implies #[trigger] has_pair(es, a, b) by {
                assert(has_pair(raw@, a, b));
                let k = choose|k: int|
                    0 <= k < raw@.len() && (#[trigger] raw@[k]).i == a && raw@[k].j == b;
                assert(raw@.contains(raw@[k]));
                assert(raw@.to_multiset().contains(raw@[k]));
                assert(es.to_multiset().contains(raw@[k]));
                assert(es.contains(raw@[k]));
                let l = choose|l: int| 0 <= l < es.len() && es[l] == raw@[k];
                assert((#[trigger] es[l]).i == a && es[l].j == b);
            }
            es.lemma_multiset_has_no_duplicates_conv();
            assert forall|k: int, l: int|
                0 <= k < es.len() && 0 <= l < es.len() && k != l implies !((#[trigger] es[k]).i
                == (#[trigger] es[l]).i && es[k].j == es[l].j) by {
                if es[k].i == es[l].i && es[k].j == es[l].j {
                    assert(edge_valid(points@, es[k]));
                    assert(edge_valid(points@, es[l]));
                    assert(es[k] == es[l]);
                }
            }
            assert(fr.popped() =~= Seq::<CandidateEdge>::empty());
        }
        fr
    }
}


/// Ghost mirror of the union-find state: a representative and a rank for
/// every index. Unions evolve it exactly as `UnionFind::union` evolves
/// the structure, so the outcome of a drain loop is a pure function of
/// the point set and the drain order.
pub struct ClusterModel {
    pub reps: Seq<int>,
    pub ranks: Seq<int>,
}

pub open spec fn model_init(n: nat) -> ClusterModel {
    ClusterModel { reps: Seq::new(n, |i: int| i), ranks: Seq::new(n, |i: int| 0) }
}

pub open spec fn model_union(m: ClusterModel, x: int, y: int) -> ClusterModel {
    let rx = m.reps[x];
    let ry = m.reps[y];
    let w = if rx == ry {
        rx
    } else if m.ranks[rx] >= m.ranks[ry] {
        rx
    } else {
        ry
    };
    ClusterModel {
        reps: Seq::new(
            m.reps.len(),
            |i: int| if m.reps[i] == rx || m.reps[i] == ry {
                w
            } else {
                m.reps[i]
            },
        ),
        ranks: if rx != ry && m.ranks[rx] == m.ranks[ry] && m.ranks[w] < usize::MAX as int {
            m.ranks.update(w, m.ranks[w] + 1)
        } else {
            m.ranks
        },
    }
}

/// The model after draining the first `k` edges of `es` (all of them,
/// if `es` is shorter).
pub open spec fn model_after(n: nat, es: Seq<CandidateEdge>, k: nat) -> ClusterModel
    decreases k,
{
    if k == 0 {
        model_init(n)
    } else {
        let m = model_after(n, es, (k - 1) as nat);
        if k - 1 < es.len() {
            model_union(m, es[k - 1].i as int, es[k - 1].j as int)
        } else {
            m
        }
    }
}

/// Draining past the end of the frontier changes nothing.
pub proof fn lemma_model_after_stable(n: nat, es: Seq<CandidateEdge>, k: nat)
    requires
        k >= es.len(),
    ensures
        model_after(n, es, k) == model_after(n, es, es.len()),
    decreases k,
{
    if k > es.len() {
        lemma_model_after_stable(n, es, (k - 1) as nat);
    }
}

/// The union-find structure agrees with a model, index by index.
pub open spec fn matches_model(uf: UnionFind, m: ClusterModel) -> bool {
    &&& m.reps.len() == uf.spec_len()
    &&& m.ranks.len() == uf.spec_len()
    &&& forall|i: int| 0 <= i < uf.spec_len() ==> #[trigger] uf.rep(i) == m.reps[i]
    &&& forall|i: int| 0 <= i < uf.spec_len() ==> #[trigger] uf.rank_of(i) == m.ranks[i]
}

/// A union on the structure tracks a union on the model.
pub proof fn lemma_union_matches(
    pre: UnionFind,
    post: UnionFind,
    m: ClusterModel,
    x: int,
    y: int,
)
    requires
        pre.inv(),
        matches_model(pre, m),
        0 <= x < pre.spec_len(),
        0 <= y < pre.spec_len(),
        UnionFind::union_post(pre, post, x, y),
    ensures
        matches_model(post, model_union(m, x, y)),
{
    pre.lemma_rep_idempotent(x);
    pre.lemma_rep_idempotent(y);
    let m2 = model_union(m, x, y);
    let rx = pre.rep(x);
    let ry = pre.rep(y);
    let w = if rx == ry {
        rx
    } else if pre.rank_of(rx) >= pre.rank_of(ry) {
        rx
    } else {
        ry
    };
    assert(m.reps[x] == rx && m.reps[y] == ry);
    assert(m.ranks[rx] == pre.rank_of(rx) && m.ranks[ry] == pre.rank_of(ry));
    assert forall|i: int| 0 <= i < post.spec_len() implies #[trigger] post.rep(i)
        == m2.reps[i] by {
        assert(pre.rep(i) == m.reps[i]);
    }
    assert forall|i: int| 0 <= i < post.spec_len() implies #[trigger] post.rank_of(i)
        == m2.ranks[i] by {
        assert(pre.rank_of(i) == m.ranks[i]);
    }
}

/// How many indices have representative `r`.
pub open spec fn count_rep(reps: Seq<int>, r: int) -> nat
    decreases reps.len(),
{
    if reps.len() == 0 {
        0
    } else {
        count_rep(reps.drop_last(), r) + (if reps.last() == r {
            1nat
        } else {
            0nat
        })
    }
}

/// No class is larger than the whole index set.
pub proof fn lemma_count_rep_le(reps: Seq<int>, r: int)
    ensures
        count_rep(reps, r) <= reps.len(),
    decreases reps.len(),
{
    if reps.len() > 0 {
        lemma_count_rep_le(reps.drop_last(), r);
    }
}

/// Sum of the class sizes of the representatives `0, 1, .., k-1`.
pub open spec fn sum_counts(reps: Seq<int>, k: nat) -> nat
    decreases k,
{
    if k == 0 {
        0
    } else {
        sum_counts(reps, (k - 1) as nat) + count_rep(reps, k - 1)
    }
}

proof fn lemma_sum_counts_empty(reps: Seq<int>, k: nat)
    requires
        reps.len() == 0,
    ensures
        sum_counts(reps, k) == 0,
    decreases k,
{
    if k > 0 {
        lemma_sum_counts_empty(reps, (k - 1) as nat);
    }
}

proof fn lemma_sum_counts_drop(reps: Seq<int>, k: nat)
    requires
        reps.len() > 0,
    ensures
        sum_counts(reps, k) == sum_counts(reps.drop_last(), k) + (if 0 <= reps.last() < k {
            1nat
        } else {
            0nat
        }),
    decreases k,
{
    if k > 0 {
        lemma_sum_counts_drop(reps, (k - 1) as nat);
    }
}

/// Class sizes always sum to the number of indices: summing the sizes
/// of all classes with representatives below `k` covers each index
/// exactly once, provided every representative lies below `k`.
pub proof fn lemma_class_sizes_sum(reps: Seq<int>, k: nat)
    requires
        forall|i: int| 0 <= i < reps.len() ==> 0 <= #[trigger] reps[i] < k,
    ensures
        sum_counts(reps, k) == reps.len(),
    decreases reps.len(),
{
    if reps.len() > 0 {
        assert(forall|i: int|
            0 <= i < reps.len() - 1 ==> #[trigger] reps.drop_last()[i] == reps[i]);
        lemma_class_sizes_sum(reps.drop_last(), k);
        lemma_sum_counts_drop(reps, k);
        assert(reps.last() == reps[reps.len() - 1]);
        assert(0 <= reps.last() < k);
    } else {
        lemma_sum_counts_empty(reps, k);
    }
}

/// The representatives of a union-find structure, as a sequence.
pub open spec fn rep_seq(uf: UnionFind) -> Seq<int> {
    Seq::new(uf.spec_len(), |i: int| uf.rep(i))
}

impl UnionFind {
    /// The sizes of all classes sum to the number of indices.
    pub proof fn lemma_class_sizes_total(self)
        requires
            self.inv(),
        ensures
            sum_counts(rep_seq(self), self.spec_len()) == self.spec_len(),
    {
        assert forall|i: int| 0 <= i < rep_seq(self).len() implies 0 <= #[trigger] rep_seq(self)[i]
            < self.spec_len() by {
            self.lemma_rep_idempotent(i);
        }
        lemma_class_sizes_sum(rep_seq(self), self.spec_len());
    }
}

/// Counts the size of every connected component: entry `r` of the
/// result is the number of indices whose class representative is `r`.
pub fn component_counts(uf: &mut UnionFind) -> (counts: Vec<usize>)
    requires
        old(uf).inv(),
    ensures
        final(uf).inv(),
        final(uf).spec_len() == old(uf).spec_len(),
        forall|i: int|
            0 <= i < final(uf).spec_len() ==> #[trigger] final(uf).rep(i) == old(uf).rep(i),
        forall|i: int|
            0 <= i < final(uf).spec_len() ==> #[trigger] final(uf).rank_of(i) == old(uf).rank_of(
                i,
            ),
        counts@.len() == old(uf).spec_len(),
        forall|r: int|
            0 <= r < counts@.len() ==> #[trigger] counts@[r] == count_rep(rep_seq(*old(uf)), r),
{
    let ghost pre = *old(uf);
    let n = uf.parent.len();
    let mut counts: Vec<usize> = vec![0; n];
    let mut i: usize = 0;
    while i < n
        invariant
            pre == *old(uf),
            pre.inv(),
            uf.inv(),
            uf.spec_len() == pre.spec_len(),
            n == pre.spec_len(),
            i <= n,
            counts@.len() == n,
            forall|j: int| 0 <= j < uf.spec_len() ==> #[trigger] uf.rep(j) == pre.rep(j),
            forall|j: int| 0 <= j < uf.spec_len() ==> #[trigger] uf.rank_of(j) == pre.rank_of(j),
            forall|r: int|
                0 <= r < n ==> #[trigger] counts@[r] == count_rep(rep_seq(pre).take(i as int), r),
        decreases n - i,
    {
        let root = uf.find(i);
        proof {
            pre.lemma_rep_idempotent(i as int);
            let ghost rs = rep_seq(pre);
            assert forall|r: int| 0 <= r < n implies count_rep(rs.take(i + 1), r) == count_rep(
                rs.take(i as int),
                r,
            ) + (if rs[i as int] == r {
                1nat
            } else {
                0nat
            }) by {
                assert(rs.take(i + 1).drop_last() =~= rs.take(i as int));
                assert(rs.take(i + 1).last() == rs[i as int]);
            }
            lemma_count_rep_le(rep_seq(pre).take(i as int), root as int);
            assert(counts@[root as int] <= i);
        }
        let c = counts[root];
        counts[root] = c + 1;
        i = i + 1;
    }
    proof {
        assert(rep_seq(pre).take(n as int) =~= rep_seq(pre));
    }
    counts
}

/// The three largest entries seen, in descending order, zero-padded.
pub open spec fn top3_insert(t: (int, int, int), v: int) -> (int, int, int) {
    if v >= t.0 {
        (v, t.0, t.1)
    } else if v >= t.1 {
        (t.0, v, t.1)
    } else if v >= t.2 {
        (t.0, t.1, v)
    } else {
        t
    }
}

pub open spec fn top3_of(s: Seq<int>) -> (int, int, int)
    decreases s.len(),
{
    if s.len() == 0 {
        (0, 0, 0)
    } else {
        top3_insert(top3_of(s.drop_last()), s.last())
    }
}

/// A missing component counts as a neutral factor of one.
pub open spec fn pad1(v: int) -> int {
    if v < 1 {
        1
    } else {
        v
    }
}

/// The three largest component sizes among `counts`, descending,
/// zero-padded; every returned value stays within `bound` if all the
/// counts do.
pub fn largest_three(counts: &Vec<usize>, bound: usize) -> (t: (usize, usize, usize))
    requires
        forall|r: int| 0 <= r < counts@.len() ==> #[trigger] counts@[r] <= bound,
    ensures
        (t.0 as int, t.1 as int, t.2 as int) == top3_of(
            Seq::new(counts@.len(), |r: int| counts@[r] as int),
        ),
        t.0 <= bound && t.1 <= bound && t.2 <= bound,
{
    let ghost cs = Seq::new(counts@.len(), |r: int| counts@[r] as int);
    let mut a: usize = 0;
    let mut b: usize = 0;
    let mut c: usize = 0;
    let mut r: usize = 0;
    while r < counts.len()
        invariant
            r <= counts@.len(),
            cs == Seq::new(counts@.len(), |q: int| counts@[q] as int),
            forall|q: int| 0 <= q < counts@.len() ==> #[trigger] counts@[q] <= bound,
            (a as int, b as int, c as int) == top3_of(cs.take(r as int)),
            a <= bound && b <= bound && c <= bound,
        decreases counts@.len() - r,
    {
        let v = counts[r];
        proof {
            assert(cs.take(r + 1).drop_last() =~= cs.take(r as int));
            assert(cs.take(r + 1).last() == v as int);
        }
        if v >= a {
            c = b;
            b = a;
            a = v;
        } else if v >= b {
            c = b;
            b = v;
        } else if v >= c {
            c = v;
        }
        r = r + 1;
    }
    proof {
        assert(cs.take(counts@.len() as int) =~= cs);
    }
    (a, b, c)
}

/// Every index shares the model's class of index 0.
pub open spec fn model_all_connected(m: ClusterModel) -> bool {
    forall|i: int| 0 <= i < m.reps.len() ==> #[trigger] m.reps[i] == m.reps[0]
}

/// The answer of the bounded query: drain `budget` pops (redundant pops
/// count), then multiply the three largest component sizes, padding
/// missing components with one.
pub open spec fn spec_bounded_answer(n: nat, es: Seq<CandidateEdge>, budget: nat) -> int {
    let m = model_after(n, es, budget);
    let t = top3_of(Seq::new(n, |r: int| count_rep(m.reps, r) as int));
    pad1(t.0) * pad1(t.1) * pad1(t.2)
}

/// The first edge whose union makes the whole set connected, walking
/// the drain order from position `k`; `None` when the frontier runs out
/// first.
pub open spec fn spec_bottleneck(n: nat, es: Seq<CandidateEdge>, k: nat) -> Option<
    (usize, usize),
>
    decreases es.len() - k,
{
    if k >= es.len() {
        None
    } else {
        let m2 = model_after(n, es, (k + 1) as nat);
        if model_all_connected(m2) {
            Some((es[k as int].i, es[k as int].j))
        } else {
            spec_bottleneck(n, es, (k + 1) as nat)
        }
    }
}

/// For factors between 1 and `m`, a triple product stays within `m^3`.
pub proof fn lemma_product_bound(a: int, b: int, c: int, m: int)
    requires
        1 <= a <= m,
        1 <= b <= m,
        1 <= c <= m,
    ensures
        1 <= a * b <= m * m,
        1 <= (a * b) * c <= (m * m) * m,
{
    assert(1 <= a * b <= m * m) by (nonlinear_arith)
        requires
            1 <= a <= m,
            1 <= b <= m,
    ;
    assert(1 <= (a * b) * c <= (m * m) * m) by (nonlinear_arith)
        requires
            1 <= a * b <= m * m,
            1 <= c <= m,
    ;
}

/// Point sets are capped so that a product of three component sizes
/// fits in a `u64`: `2_000_000^3 < u64::MAX`.
pub const MAX_POINTS: usize = 2_000_000;

impl Day08 {
    /// Bounded query: pop up to `budget` candidate edges (redundant pops
    /// spend budget too), union each, and return the product of the
    /// three largest component sizes, padding missing components as one.
    pub fn bounded_query(points: &Vec<Point>, budget: usize) -> (product: u64)
        requires
            forall|k: int| 0 <= k < points@.len() ==> (#[trigger] points@[k]).in_bounds(),
            points@.len() <= MAX_POINTS,
        ensures
            forall|es: Seq<CandidateEdge>|
                is_pair_ordering(points@, es) ==> product as int == spec_bounded_answer(
                    points@.len(),
                    es,
                    budget as nat,
                ),
    {
        let n = points.len();
        let mut fr = Self::build_frontier(points);
        let ghost es = fr.remaining();
        let mut uf = UnionFind::new(n);
        let mut it: usize = 0;
        while it < budget && !fr.is_exhausted()
            invariant
                n == points@.len(),
                it <= budget,
                uf.inv(),
                uf.spec_len() == n,
                fr.wf(),
                is_pair_ordering(points@, es),
                fr.popped() == es.take(it as int),
                fr.remaining() == es.skip(it as int),
                it <= es.len(),
                matches_model(uf, model_after(n as nat, es, it as nat)),
            decreases budget - it,
        {
            let e = match fr.pop() {
                Some(e) => e,
                None => {
                    proof {
                        assert(false);
                    }
                    CandidateEdge { distance: 0, i: 0, j: 0 }
                },
            };
            proof {
                assert(e == es[it as int]);
                assert(edge_valid(points@, es[it as int]));
                assert(fr.remaining() =~= es.skip(it + 1));
                assert(fr.popped() =~= es.take(it + 1));
            }
            let ghost preuf = uf;
            let ghost m = model_after(n as nat, es, it as nat);
            uf.union(e.i, e.j);
            proof {
                lemma_union_matches(preuf, uf, m, e.i as int, e.j as int);
                assert(model_after(n as nat, es, (it + 1) as nat) == model_union(
                    m,
                    e.i as int,
                    e.j as int,
                ));
            }
            it = it + 1;
        }
        let ghost m_final = model_after(n as nat, es, budget as nat);
        proof {
            if it < budget {
                assert(es.skip(it as int).len() == 0);
                assert(it == es.len());
                lemma_model_after_stable(n as nat, es, budget as nat);
                assert(model_after(n as nat, es, es.len()) == model_after(
                    n as nat,
                    es,
                    it as nat,
                ));
            }
            assert(matches_model(uf, m_final));
        }
        let ghost ufq = uf;
        let counts = component_counts(&mut uf);
        proof {
            assert(rep_seq(ufq) =~= m_final.reps);
            assert forall|r: int| 0 <= r < counts@.len() implies #[trigger] counts@[r]
                <= MAX_POINTS by {
                lemma_count_rep_le(rep_seq(ufq), r);
            }
            assert(Seq::new(counts@.len(), |r: int| counts@[r] as int) =~= Seq::new(
                n as nat,
                |r: int| count_rep(m_final.reps, r) as int,
            ));
        }
        let t = largest_three(&counts, MAX_POINTS);
        let a = if t.0 < 1 {
            1
        } else {
            t.0
        };
        let b = if t.1 < 1 {
            1
        } else {
            t.1
        };
        let c = if t.2 < 1 {
            1
        } else {
            t.2
        };
        proof {
            lemma_product_bound(a as int, b as int, c as int, MAX_POINTS as int);
        }
        let ab = (a as u64) * (b as u64);
        let product = ab * (c as u64);
        proof {
            assert(product as int == spec_bounded_answer(points@.len(), es, budget as nat));
            assert forall|es2: Seq<CandidateEdge>|
                is_pair_ordering(points@, es2) implies product as int == spec_bounded_answer(
                points@.len(),
                es2,
                budget as nat,
            ) by {
                lemma_pair_ordering_unique(points@, es2, es);
            }
        }
        product
    }

    /// Full-connectivity query: drain the frontier (redundant pops do
    /// not stop the loop) until every point is in one component, and
    /// return the indices of the merge that first connected the set, or
    /// `None` when the frontier runs out first (including point sets of
    /// size 0 or 1, which are trivially connected and yield no edge).
    pub fn full_connectivity_query(points: &Vec<Point>) -> (r: Option<(usize, usize)>)
        requires
            forall|k: int| 0 <= k < points@.len() ==> (#[trigger] points@[k]).in_bounds(),
        ensures
            forall|es: Seq<CandidateEdge>|
                is_pair_ordering(points@, es) ==> r == spec_bottleneck(points@.len(), es, 0),
            r matches Some(ij) ==> ij.0 < ij.1 < points@.len(),
    {
        let n = points.len();
        let mut fr = Self::build_frontier(points);
        let ghost es = fr.remaining();
        let mut uf = UnionFind::new(n);
        let mut it: usize = 0;
        while !fr.is_exhausted()
            invariant
                n == points@.len(),
                uf.inv(),
                uf.spec_len() == n,
                fr.wf(),
                is_pair_ordering(points@, es),
                fr.popped() == es.take(it as int),
                fr.remaining() == es.skip(it as int),
                it <= es.len(),
                matches_model(uf, model_after(n as nat, es, it as nat)),
                spec_bottleneck(n as nat, es, it as nat) == spec_bottleneck(n as nat, es, 0),
            decreases es.len() - it,
        {
            let e = match fr.pop() {
                Some(e) => e,
                None => {
                    proof {
                        assert(false);
                    }
                    CandidateEdge { distance: 0, i: 0, j: 0 }
                },
            };
            proof {
                assert(e == es[it as int]);
                assert(edge_valid(points@, es[it as int]));
                assert(fr.remaining() =~= es.skip(it + 1));
                assert(fr.popped() =~= es.take(it + 1));
            }
            let ghost preuf = uf;
            let ghost m = model_after(n as nat, es, it as nat);
            uf.union(e.i, e.j);
            proof {
                lemma_union_matches(preuf, uf, m, e.i as int, e.j as int);
                assert(model_after(n as nat, es, (it + 1) as nat) == model_union(
                    m,
                    e.i as int,
                    e.j as int,
                ));
            }
            let ghost uf_u = uf;
            let connected = uf.are_all_same_root();
            proof {
                let m2 = model_after(n as nat, es, (it + 1) as nat);
                assert forall|i: int| 0 <= i < uf.spec_len() implies #[trigger] uf.rep(i)
                    == m2.reps[i] by {
                    assert(uf.rep(i) == uf_u.rep(i));
                }
                assert forall|i: int| 0 <= i < uf.spec_len() implies #[trigger] uf.rank_of(i)
                    == m2.ranks[i] by {
                    assert(uf.rank_of(i) == uf_u.rank_of(i));
                }
                assert(matches_model(uf, m2));
                if connected {
                    assert forall|i: int| 0 <= i < m2.reps.len() implies #[trigger] m2.reps[i]
                        == m2.reps[0] by {
                        assert(uf_u.rep(i) == m2.reps[i]);
                        assert(uf_u.rep(0) == m2.reps[0]);
                    }
                    assert(model_all_connected(m2));
                } else {
                    if model_all_connected(m2) {
                        assert forall|i: int| 0 <= i < uf_u.spec_len() implies #[trigger] uf_u.rep(
                            i,
                        ) == uf_u.rep(0) by {
                            assert(m2.reps[i] == m2.reps[0]);
                        }
                        assert(uf_u.all_connected());
                        assert(false);
                    }
                }
            }
            if connected {
                proof {
                    assert(spec_bottleneck(n as nat, es, it as nat) == Some((e.i, e.j)));
                    assert forall|es2: Seq<CandidateEdge>|
                        is_pair_ordering(points@, es2) implies Some((e.i, e.j))
                        == spec_bottleneck(points@.len(), es2, 0) by {
                        lemma_pair_ordering_unique(points@, es2, es);
                    }
                }
                return Some((e.i, e.j));
            }
            it = it + 1;
        }
        proof {
            assert(es.skip(it as int).len() == 0);
            assert(it == es.len());
            assert(spec_bottleneck(n as nat, es, it as nat) is None);
            assert forall|es2: Seq<CandidateEdge>|
                is_pair_ordering(points@, es2) implies spec_bottleneck(points@.len(), es2, 0)
                is None by {
                lemma_pair_ordering_unique(points@, es2, es);
            }
        }
        None
    }
}


/// One input line parsed as a point: trim, split at commas, require
/// every field to be a signed integer, and take the first three as
/// the coordinates.
pub open spec fn spec_parse_point(line: Seq<char>) -> Option<Point> {
    let fields = spec_split(spec_trim(line), ',');
    if fields.len() < 3 {
        None
    } else if exists|t: int|
        0 <= t < fields.len() && spec_parse_i64(#[trigger] fields[t]) is None {
        None
    } else {
        Some(
            Point {
                x: spec_parse_i64(fields[0])->Some_0,
                y: spec_parse_i64(fields[1])->Some_0,
                z: spec_parse_i64(fields[2])->Some_0,
            },
        )
    }
}

pub open spec fn spec_parse_point_lines(lns: Seq<Seq<char>>) -> Option<Seq<Point>>
    decreases lns.len(),
{
    if lns.len() == 0 {
        Some(Seq::empty())
    } else {
        match (spec_parse_point_lines(lns.drop_last()), spec_parse_point(lns.last())) {
            (Some(ps), Some(p)) => Some(ps.push(p)),
            _ => None,
        }
    }
}

/// The whole input parsed as one point per line.
pub open spec fn spec_parse_points(s: Seq<char>) -> Option<Seq<Point>> {
    spec_parse_point_lines(spec_lines(s))
}

/// One bad line spoils the whole parse.
proof fn lemma_parse_point_lines_fail(lns: Seq<Seq<char>>, k: int)
    requires
        0 <= k < lns.len(),
        spec_parse_point(lns[k]) is None,
    ensures
        spec_parse_point_lines(lns) is None,
    decreases lns.len(),
{
    if k < lns.len() - 1 {
        assert(lns.drop_last()[k] == lns[k]);
        lemma_parse_point_lines_fail(lns.drop_last(), k);
    }
}

/// The driver accepts a point set when every coordinate is within the
/// documented bound and the set is small enough for the size products.
pub open spec fn points_ok(ps: Seq<Point>) -> bool {
    &&& ps.len() <= MAX_POINTS
    &&& forall|k: int| 0 <= k < ps.len() ==> (#[trigger] ps[k]).in_bounds()
}

impl Day08 {
    /// Parses one point per line, each line a comma-separated triple of
    /// signed integers; `None` exactly on malformed input.
    pub fn parse(input: &str) -> (r: Option<Vec<Point>>)
        ensures
            match r {
                None => spec_parse_points(input@) is None,
                Some(ps) => spec_parse_points(input@) == Some(ps@),
            },
    {
        let cs = to_chars(input);
        let lns = lines_of(&cs);
        let ghost lseq = spec_lines(input@);
        let mut out: Vec<Point> = Vec::new();
        let mut k: usize = 0;
        while k < lns.len()
            invariant
                lseq == spec_lines(input@),
                lns@.len() == lseq.len(),
                forall|t: int| 0 <= t < lns@.len() ==> (#[trigger] lns@[t])@ == lseq[t],
                k <= lns@.len(),
                spec_parse_point_lines(lseq.take(k as int)) == Some(out@),
            decreases lns@.len() - k,
        {
            let trimmed = trim_chars(&lns[k]);
            let fields = split_char(&trimmed, ',');
            proof {
                assert(lseq.take(k + 1).drop_last() =~= lseq.take(k as int));
                assert(lseq.take(k + 1).last() == lseq[k as int]);
            }
            if fields.len() < 3 {
                proof {
                    assert(spec_parse_point(lseq[k as int]) is None);
                    lemma_parse_point_lines_fail(lseq, k as int);
                }
                return None;
            }
            let mut x: i64 = 0;
            let mut y: i64 = 0;
            let mut z: i64 = 0;
            let mut f: usize = 0;
            while f < fields.len()
                invariant
                    lseq == spec_lines(input@),
                    k < lseq.len(),
                    trimmed@ == spec_trim(lseq[k as int]),
                    fields@.len() >= 3,
                    f <= fields@.len(),
                    fields@.len() == spec_split(trimmed@, ',').len(),
                    forall|t: int|
                        0 <= t < fields@.len() ==> (#[trigger] fields@[t])@ == spec_split(
                            trimmed@,
                            ',',
                        )[t],
                    forall|t: int|
                        0 <= t < f ==> spec_parse_i64(
                            #[trigger] spec_split(trimmed@, ',')[t],
                        ) is Some,
                    f >= 1 ==> x == spec_parse_i64(spec_split(trimmed@, ',')[0])->Some_0,
                    f >= 2 ==> y == spec_parse_i64(spec_split(trimmed@, ',')[1])->Some_0,
                    f >= 3 ==> z == spec_parse_i64(spec_split(trimmed@, ',')[2])->Some_0,
                decreases fields@.len() - f,
            {
                match parse_i64(&fields[f]) {
                    Some(v) => {
                        if f == 0 {
                            x = v;
                        }
                        if f == 1 {
                            y = v;
                        }
                        if f == 2 {
                            z = v;
                        }
                    },
                    None => {
                        proof {
                            assert(spec_parse_i64(
                                spec_split(spec_trim(lseq[k as int]), ',')[f as int],
                            ) is None);
                            assert(spec_parse_point(lseq[k as int]) is None);
                            lemma_parse_point_lines_fail(lseq, k as int);
                        }
                        return None;
                    },
                }
                f = f + 1;
            }
            proof {
                assert(spec_parse_point(lseq[k as int]) == Some(Point { x, y, z }));
            }
            out.push(Point::new(x, y, z));
            k = k + 1;
        }
        proof {
            assert(lseq.take(lseq.len() as int) =~= lseq);
        }
        Some(out)
    }

    /// Checks the coordinate bound and the size cap on a parsed set.
    pub fn check_points(points: &Vec<Point>) -> (ok: bool)
        ensures
            ok == points_ok(points@),
    {
        if points.len() > MAX_POINTS {
            return false;
        }
        let mut k: usize = 0;
        while k < points.len()
            invariant
                k <= points@.len(),
                forall|t: int| 0 <= t < k ==> (#[trigger] points@[t]).in_bounds(),
            decreases points@.len() - k,
        {
            let p = &points[k];
            if p.x < -COORD_LIMIT || p.x > COORD_LIMIT || p.y < -COORD_LIMIT || p.y > COORD_LIMIT
                || p.z < -COORD_LIMIT || p.z > COORD_LIMIT {
                return false;
            }
            k = k + 1;
        }
        true
    }

    /// Bounded query over a text input: up to 1000 merges, then the
    /// product of the three largest component sizes, in decimal.
    /// `None` exactly on malformed input or a point set out of range.
    pub fn part1(&self, input: &str) -> (r: Option<String>)
        ensures
            match r {
                None => spec_parse_points(input@) is None || !points_ok(
                    spec_parse_points(input@)->Some_0,
                ),
                Some(out) => {
                    &&& spec_parse_points(input@) is Some
                    &&& points_ok(spec_parse_points(input@)->Some_0)
                    &&& forall|es: Seq<CandidateEdge>|
                        is_pair_ordering(spec_parse_points(input@)->Some_0, es) ==> out@
                            == spec_uint_string(
                            spec_bounded_answer(
                                spec_parse_points(input@)->Some_0.len(),
                                es,
                                1000,
                            ),
                        )
                },
            },
    {
        let points = match Self::parse(input) {
            Some(ps) => ps,
            None => {
                return None;
            },
        };
        if !Self::check_points(&points) {
            return None;
        }
        let product = Self::bounded_query(&points, 1000);
        Some(u64_string(product))
    }

    /// Full-connectivity query over a text input: the product of the
    /// x-coordinates of the two points whose merge first connects the
    /// set, in decimal, or `0` when the set is connected without any
    /// merge. `None` exactly on malformed input or a point set out of
    /// range.
    pub fn part2(&self, input: &str) -> (r: Option<String>)
        ensures
            match r {
                None => spec_parse_points(input@) is None || !points_ok(
                    spec_parse_points(input@)->Some_0,
                ),
                Some(out) => {
                    &&& spec_parse_points(input@) is Some
                    &&& points_ok(spec_parse_points(input@)->Some_0)
                    &&& forall|es: Seq<CandidateEdge>|
                        is_pair_ordering(spec_parse_points(input@)->Some_0, es) ==> out@ == ({
                            let ps = spec_parse_points(input@)->Some_0;
                            match spec_bottleneck(ps.len(), es, 0) {
                                Some(ij) => spec_int_string(
                                    ps[ij.0 as int].x as int * ps[ij.1 as int].x as int,
                                ),
                                None => spec_int_string(0),
                            }
                        })
                },
            },
    {
        let points = match Self::parse(input) {
            Some(ps) => ps,
            None => {
                return None;
            },
        };
        if !Self::check_points(&points) {
            return None;
        }
        let ghost ps = points@;
        let bottleneck = Self::full_connectivity_query(&points);
        match bottleneck {
            Some(ij) => {
                let (i, j) = ij;
                let a = points[i].x;
                let b = points[j].x;
                proof {
                    lemma_mul_bound_pair(a as int, b as int, COORD_LIMIT as int);
                }
                Some(i64_string(a * b))
            },
            None => Some(i64_string(0)),
        }
    }
}

/// For `|a| <= m` and `|b| <= m`, the product stays within `m * m`.
pub proof fn lemma_mul_bound_pair(a: int, b: int, m: int)
    requires
        -m <= a <= m,
        -m <= b <= m,
        0 <= m,
    ensures
        -(m * m) <= a * b <= m * m,
{
    assert(-(m * m) <= a * b <= m * m) by (nonlinear_arith)
        requires
            -m <= a <= m,
            -m <= b <= m,
            0 <= m,
    ;
}

} // verus!
