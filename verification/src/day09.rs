//! Plane puzzle: two-dimensional integer corner points; the first
//! query finds the largest axis-aligned rectangle area spanned by any
//! pair of points, counting both boundary rows and columns.

use vstd::prelude::*;

use crate::strutil::{
    lines_of, parse_i64, spec_lines, spec_parse_i64, spec_split, split_char, to_chars,
    trim_chars, spec_trim, spec_uint_string, u128_string,
};

verus! {

pub struct Day09;

#[derive(Clone, Copy, PartialEq, Eq, Structural, Debug)]
pub struct Point {
    pub x: i64,
    pub y: i64,
}

/// One `x,y` line: every comma-separated field must parse and there
/// must be at least two.
pub open spec fn spec_parse_pt(line: Seq<char>) -> Option<Point> {
    let fields = spec_split(spec_trim(line), ',');
    if fields.len() < 2 {
        None
    } else if exists|t: int| 0 <= t < fields.len() && spec_parse_i64(#[trigger] fields[t]) is None {
        None
    } else {
        Some(Point { x: spec_parse_i64(fields[0])->Some_0, y: spec_parse_i64(fields[1])->Some_0 })
    }
}

pub open spec fn spec_parse_pts(lns: Seq<Seq<char>>) -> Option<Seq<Point>>
    decreases lns.len(),
{
    if lns.len() == 0 {
        Some(Seq::empty())
    } else {
        match (spec_parse_pts(lns.drop_last()), spec_parse_pt(lns.last())) {
            (Some(ps), Some(p)) => Some(ps.push(p)),
            _ => None,
        }
    }
}

proof fn lemma_parse_pts_fail(lns: Seq<Seq<char>>, k: int)
    requires
        0 <= k < lns.len(),
        spec_parse_pt(lns[k]) is None,
    ensures
        spec_parse_pts(lns) is None,
    decreases lns.len(),
{
    if k < lns.len() - 1 {
        assert(lns.drop_last()[k] == lns[k]);
        lemma_parse_pts_fail(lns.drop_last(), k);
    }
}

/// The rectangle area spanned by two corner points, boundary included.
pub open spec fn spec_area(a: Point, b: Point) -> int {
    let dx = if a.x >= b.x {
        a.x - b.x
    } else {
        b.x - a.x
    };
    let dy = if a.y >= b.y {
        a.y - b.y
    } else {
        b.y - a.y
    };
    (dx + 1) * (dy + 1)
}

/// The largest pair area among pairs `(i, j)` with `j` past the given
/// start, then all later pairs; `None` when an area leaves the
/// supported 128-bit range.
pub open spec fn spec_best_from(pts: Seq<Point>, i: int, j: int, cur: int) -> Option<int>
    decreases pts.len() - i, pts.len() - j,
{
    if i < 0 || j < i + 1 || i >= pts.len() {
        Some(cur)
    } else if j >= pts.len() {
        spec_best_from(pts, i + 1, i + 2, cur)
    } else {
        let a = spec_area(pts[i], pts[j]);
        if a > 0xffffffffffffffffffffffffffffffff {
            None
        } else {
            spec_best_from(pts, i, j + 1, if a > cur {
                a
            } else {
                cur
            })
        }
    }
}

pub open spec fn spec_max_area(pts: Seq<Point>) -> Option<int> {
    spec_best_from(pts, 0, 1, 0)
}

impl Day09 {
    /// Parses one point per line; `None` exactly on malformed input.
    pub fn parse(input: &str) -> (r: Option<Vec<Point>>)
        ensures
            match r {
                None => spec_parse_pts(spec_lines(input@)) is None,
                Some(ps) => spec_parse_pts(spec_lines(input@)) == Some(ps@),
            },
    {
        let cs = to_chars(input);
        let lns = lines_of(&cs);
        let ghost lseq = spec_lines(input@);
        let mut out: Vec<Point> = Vec::new();
        let mut k: usize = 0;
        while k < lns.len()
            invariant
                lseq == spec_lines(input@),
                lns@.len() == lseq.len(),
                forall|t: int| 0 <= t < lns@.len() ==> (#[trigger] lns@[t])@ == lseq[t],
                k <= lns@.len(),
                spec_parse_pts(lseq.take(k as int)) == Some(out@),
            decreases lns@.len() - k,
        {
            let trimmed = trim_chars(&lns[k]);
            let fields = split_char(&trimmed, ',');
            proof {
                assert(lseq.take(k + 1).drop_last() =~= lseq.take(k as int));
                assert(lseq.take(k + 1).last() == lseq[k as int]);
            }
            if fields.len() < 2 {
                proof {
                    assert(spec_parse_pt(lseq[k as int]) is None);
                    lemma_parse_pts_fail(lseq, k as int);
                }
                return None;
            }
            let mut x: i64 = 0;
            let mut y: i64 = 0;
            let mut f: usize = 0;
            while f < fields.len()
                invariant
                    lseq == spec_lines(input@),
                    k < lseq.len(),
                    trimmed@ == spec_trim(lseq[k as int]),
                    fields@.len() >= 2,
                    f <= fields@.len(),
                    fields@.len() == spec_split(trimmed@, ',').len(),
                    forall|t: int|
                        0 <= t < fields@.len() ==> (#[trigger] fields@[t])@ == spec_split(
                            trimmed@,
                            ',',
                        )[t],
                    forall|t: int|
                        0 <= t < f ==> spec_parse_i64(
                            #[trigger] spec_split(trimmed@, ',')[t],
                        ) is Some,
                    f >= 1 ==> x == spec_parse_i64(spec_split(trimmed@, ',')[0])->Some_0,
                    f >= 2 ==> y == spec_parse_i64(spec_split(trimmed@, ',')[1])->Some_0,
                decreases fields@.len() - f,
            {
                match parse_i64(&fields[f]) {
                    Some(v) => {
                        if f == 0 {
                            x = v;
                        }
                        if f == 1 {
                            y = v;
                        }
                    },
                    None => {
                        proof {
                            assert(spec_parse_i64(
                                spec_split(spec_trim(lseq[k as int]), ',')[f as int],
                            ) is None);
                            assert(spec_parse_pt(lseq[k as int]) is None);
                            lemma_parse_pts_fail(lseq, k as int);
                        }
                        return None;
                    },
                }
                f = f + 1;
            }
            proof {
                assert(spec_parse_pt(lseq[k as int]) == Some(Point { x, y }));
            }
            out.push(Point { x, y });
            k = k + 1;
        }
        proof {
            assert(lseq.take(lseq.len() as int) =~= lseq);
        }
        Some(out)
    }

    /// First query: the largest rectangle area spanned by any pair of
    /// points. `None` exactly on malformed input.
    pub fn part1(&self, input: &str) -> (r: Option<String>)
        ensures
            match r {
                None => spec_parse_pts(spec_lines(input@)) is None || (spec_parse_pts(
                    spec_lines(input@),
                ) matches Some(ps) && spec_max_area(ps) is None),
                Some(out) => {
                    &&& spec_parse_pts(spec_lines(input@)) matches Some(ps)
                    &&& spec_max_area(ps) matches Some(v) && out@ == spec_uint_string(v)
                },
            },
    {
        let points = match Self::parse(input) {
            Some(ps) => ps,
            None => {
                return None;
            },
        };
        let ghost pts = points@;
        let n = points.len();
        let mut best: u128 = 0;
        let mut i: usize = 0;
        while i < n
            invariant
                pts == points@,
                spec_parse_pts(spec_lines(input@)) == Some(pts),
                n == pts.len(),
                i <= n,
                spec_max_area(pts) == spec_best_from(pts, i as int, i + 1, best as int),
            decreases n - i,
        {
            let mut j: usize = i + 1;
            while j < n
                invariant
                    pts == points@,
                    spec_parse_pts(spec_lines(input@)) == Some(pts),
                    n == pts.len(),
                    i < n,
                    i + 1 <= j && (j <= n || j == i + 1),
                    best <= 0xffffffffffffffffffffffffffffffffu128,
                    spec_max_area(pts) == spec_best_from(pts, i as int, j as int, best as int),
                decreases n - j,
            {
                let a = &points[i];
                let b = &points[j];
                let dx: u128 = if a.x >= b.x {
                    (a.x as i128 - b.x as i128) as u128
                } else {
                    (b.x as i128 - a.x as i128) as u128
                };
                let dy: u128 = if a.y >= b.y {
                    (a.y as i128 - b.y as i128) as u128
                } else {
                    (b.y as i128 - a.y as i128) as u128
                };
                proof {
                    lemma_area_fits(pts[i as int], pts[j as int]);
                    assert(dx as int + 1 <= 0x10000000000000000);
                    assert(dy as int + 1 <= 0x10000000000000000);
                }
                if dx >= 0xffffffffffffffffu128 && dy >= 0xffffffffffffffffu128 {
                    proof {
                        assert(spec_area(pts[i as int], pts[j as int])
                            > 0xffffffffffffffffffffffffffffffff) by (nonlinear_arith)
                            requires
                                spec_area(pts[i as int], pts[j as int]) == (dx as int + 1) * (
                                dy as int + 1) && dx as int >= 0xffffffffffffffff
                                    && dy as int >= 0xffffffffffffffff,
                        ;
                    }
                    return None;
                }
                proof {
                    assert((dx as int + 1) * (dy as int + 1)
                        <= 0xffffffffffffffffffffffffffffffff) by (nonlinear_arith)
                        requires
                            0 <= dx as int && 0 <= dy as int && (dx as int
                                <= 0xfffffffffffffffe && dy as int <= 0xffffffffffffffff || (
                            dx as int <= 0xffffffffffffffff && dy as int
                                <= 0xfffffffffffffffe)),
                    ;
                }
                let area = (dx + 1) * (dy + 1);
                proof {
                    assert(area as int == spec_area(pts[i as int], pts[j as int]));
                }
                if area > best {
                    best = area;
                }
                j = j + 1;
            }
            i = i + 1;
        }
        proof {
            assert(spec_best_from(pts, n as int, n as int + 1, best as int) == Some(
                best as int,
            ));
        }
        Some(u128_string(best))
    }
}

/// A pair area is non-negative.
proof fn lemma_area_fits(a: Point, b: Point)
    ensures
        0 <= spec_area(a, b),
{
    let dx = if a.x >= b.x {
        a.x - b.x
    } else {
        b.x - a.x
    };
    let dy = if a.y >= b.y {
        a.y - b.y
    } else {
        b.y - a.y
    };
    assert(0 <= (dx + 1) * (dy + 1)) by (nonlinear_arith)
        requires
            0 <= dx && 0 <= dy,
    ;
}

} // verus!
