//! Beam puzzle: a beam falls from the `S` marker; each `^` splitter
//! turns an incoming beam into two beams one column to each side. One
//! query counts the splitters that fire, the other the beams reaching
//! the bottom row.

use vstd::prelude::*;

use crate::strutil::{lines_of, spec_lines, spec_trim, to_chars, trim_chars, spec_int_string, i128_string};

verus! {

pub struct Day07;

/// The trimmed character rows of the input.
pub open spec fn spec_char_rows(s: Seq<char>) -> Seq<Seq<char>> {
    Seq::new(spec_lines(s).len(), |i: int| spec_trim(spec_lines(s)[i]))
}

/// All rows share the width of the first.
pub open spec fn rows_rect(map: Seq<Seq<char>>) -> bool {
    forall|i: int| 0 <= i < map.len() ==> (#[trigger] map[i]).len() == map[0].len()
}

/// Advancing every beam of one row into the next: a beam above a `^`
/// splits into two side beams (one split fired per occupied cell), any
/// other beam falls straight down. `None` mirrors a beam leaving the
/// grid on a row that still has rows below it, a split at the left
/// wall, or a count out of the supported range; `extra` counts beams
/// pushed just past the right edge on the final row.
pub open spec fn spec_step7(
    next_row: Seq<char>,
    beams: Seq<int>,
    x: int,
    acc: Seq<int>,
    splits: int,
    extra: int,
    last: bool,
) -> Option<(Seq<int>, int, int)>
    decreases beams.len() - x,
{
    if x < 0 {
        None
    } else if x >= beams.len() {
        Some((acc, splits, extra))
    } else if beams[x] == 0 {
        spec_step7(next_row, beams, x + 1, acc, splits, extra, last)
    } else {
        let c = beams[x];
        if x >= next_row.len() {
            None
        } else if next_row[x] == '^' {
            if x == 0 {
                None
            } else {
                let acc1 = acc.update(x - 1, acc[x - 1] + c);
                if acc1[x - 1] > 0x7fffffffffffffffffffffffffffffff || splits + 1
                    > 0x7fffffffffffffffffffffffffffffff {
                    None
                } else if x + 1 < beams.len() {
                    let acc2 = acc1.update(x + 1, acc1[x + 1] + c);
                    if acc2[x + 1] > 0x7fffffffffffffffffffffffffffffff {
                        None
                    } else {
                        spec_step7(next_row, beams, x + 1, acc2, splits + 1, extra, last)
                    }
                } else if last {
                    if extra + c > 0x7fffffffffffffffffffffffffffffff {
                        None
                    } else {
                        spec_step7(next_row, beams, x + 1, acc1, splits + 1, extra + c, last)
                    }
                } else {
                    None
                }
            }
        } else {
            let acc1 = acc.update(x, acc[x] + c);
            if acc1[x] > 0x7fffffffffffffffffffffffffffffff {
                None
            } else {
                spec_step7(next_row, beams, x + 1, acc1, splits, extra, last)
            }
        }
    }
}

/// The total beam count of a row.
pub open spec fn spec_beam_total(beams: Seq<int>, x: int) -> int
    decreases beams.len() - x,
{
    if x < 0 || x >= beams.len() {
        0
    } else {
        beams[x] + spec_beam_total(beams, x + 1)
    }
}

/// Running the cascade from row `y` with the given beams: the number
/// of splits fired and the number of beams that reach the final row.
pub open spec fn spec_run7(map: Seq<Seq<char>>, beams: Seq<int>, y: int, splits: int) -> Option<
    (int, int),
>
    decreases map.len() - y,
{
    if y < 0 || y + 1 >= map.len() {
        None
    } else {
        let last = y + 1 == map.len() - 1;
        match spec_step7(
            map[y + 1],
            beams,
            0,
            Seq::new(beams.len(), |t: int| 0),
            splits,
            0,
            last,
        ) {
            None => None,
            Some(r) => {
                if last {
                    if spec_beam_total(r.0, 0) + r.2 > 0x7fffffffffffffffffffffffffffffff {
                        None
                    } else {
                        Some((r.1, spec_beam_total(r.0, 0) + r.2))
                    }
                } else {
                    spec_run7(map, r.0, y + 1, r.1)
                }
            },
        }
    }
}

/// The starting column: the `S` in the first row.
pub open spec fn spec_start7(map: Seq<Seq<char>>) -> Option<int> {
    if map.len() == 0 {
        None
    } else {
        let i = crate::strutil::first_index_of(map[0], 'S', 0);
        if i < map[0].len() {
            Some(i)
        } else {
            None
        }
    }
}

/// The cascade's result for a whole input: splits fired and beams out
/// the bottom. `None` mirrors every input on which the walk fails:
/// no `S`, a ragged or too-short grid, a beam leaving the grid, or a
/// count out of range.
pub open spec fn spec_cascade(s: Seq<char>) -> Option<(int, int)> {
    let map = spec_char_rows(s);
    match spec_start7(map) {
        None => None,
        Some(sx) => {
            if !rows_rect(map) {
                None
            } else {
                spec_run7(map, Seq::new(map[0].len(), |t: int| if t == sx {
                    1int
                } else {
                    0int
                }), 0, 0)
            }
        },
    }
}

impl Day07 {
    /// Parses the grid: each line trimmed into its characters.
    pub fn parse(input: &str) -> (map: Vec<Vec<char>>)
        ensures
            map@.len() == spec_char_rows(input@).len(),
            forall|i: int|
                0 <= i < map@.len() ==> (#[trigger] map@[i])@ == spec_char_rows(input@)[i],
    {
        let cs = to_chars(input);
        let lns = lines_of(&cs);
        let ghost lseq = spec_lines(input@);
        let mut map: Vec<Vec<char>> = Vec::new();
        let mut k: usize = 0;
        while k < lns.len()
            invariant
                lseq == spec_lines(input@),
                lns@.len() == lseq.len(),
                forall|t: int| 0 <= t < lns@.len() ==> (#[trigger] lns@[t])@ == lseq[t],
                k <= lns@.len(),
                map@.len() == k,
                forall|t: int|
                    0 <= t < k ==> (#[trigger] map@[t])@ == spec_trim(lseq[t]),
            decreases lns@.len() - k,
        {
            map.push(trim_chars(&lns[k]));
            k = k + 1;
        }
        map
    }

    /// Runs the cascade over a text input; `None` exactly where the
    /// specification walk fails.
    pub fn cascade(input: &str) -> (r: Option<(i128, i128)>)
        ensures
            match r {
                None => spec_cascade(input@) is None,
                Some(p) => spec_cascade(input@) == Some((p.0 as int, p.1 as int)),
            },
    {
        let map = Self::parse(input);
        let ghost mspec = spec_char_rows(input@);
        if map.len() == 0 {
            return None;
        }
        // find the start marker
        let sx = crate::strutil::find_char(&map[0], 'S');
        if sx >= map[0].len() {
            proof {
                crate::strutil::lemma_first_index_props(mspec[0], 'S', 0);
            }
            return None;
        }
        let w = map[0].len();
        // the grid must be rectangular
        let mut i: usize = 0;
        while i < map.len()
            invariant
                mspec == spec_char_rows(input@),
                map@.len() == mspec.len(),
                forall|t: int| 0 <= t < map@.len() ==> (#[trigger] map@[t])@ == mspec[t],
                map@.len() >= 1,
                w == mspec[0].len(),
                i <= map@.len(),
                forall|t: int| 0 <= t < i ==> (#[trigger] mspec[t]).len() == w,
            decreases map@.len() - i,
        {
            if map[i].len() != w {
                proof {
                    assert(!rows_rect(mspec));
                }
                return None;
            }
            i = i + 1;
        }
        let mut beams: Vec<i128> = Vec::new();
        let mut t: usize = 0;
        while t < w
            invariant
                t <= w,
                beams@.len() == t,
                forall|q: int|
                    0 <= q < t ==> (#[trigger] beams@[q]) as int == (if q == sx as int {
                        1int
                    } else {
                        0int
                    }),
            decreases w - t,
        {
            if t == sx {
                beams.push(1);
            } else {
                beams.push(0);
            }
            t = t + 1;
        }
        let ghost beams0 = Seq::new(mspec[0].len(), |q: int| if q == sx as int {
            1int
        } else {
            0int
        });
        proof {
            assert(beams@.map_values(|v: i128| v as int) =~= beams0);
        }
        let mut splits: i128 = 0;
        let mut y: usize = 0;
        if map.len() == 1 {
            return None;
        }
        while y < map.len() - 1
            invariant
                mspec == spec_char_rows(input@),
                map@.len() == mspec.len(),
                forall|q: int| 0 <= q < map@.len() ==> (#[trigger] map@[q])@ == mspec[q],
                rows_rect(mspec),
                map@.len() >= 2,
                w == mspec[0].len(),
                y + 1 <= map@.len(),
                beams@.len() == w,
                splits >= 0,
                forall|q: int| 0 <= q < beams@.len() ==> (#[trigger] beams@[q]) >= 0,
                spec_cascade(input@) == spec_run7(
                    mspec,
                    beams@.map_values(|v: i128| v as int),
                    y as int,
                    splits as int,
                ),
            decreases map@.len() - y,
        {
            let last = y + 2 == map.len();
            let next = &map[y + 1];
            let mut acc: Vec<i128> = Vec::new();
            let mut z: usize = 0;
            while z < w
                invariant
                    z <= w,
                    acc@.len() == z,
                    forall|q: int| 0 <= q < z ==> (#[trigger] acc@[q]) == 0,
                decreases w - z,
            {
                acc.push(0);
                z = z + 1;
            }
            proof {
                assert(acc@.map_values(|v: i128| v as int) =~= Seq::new(
                    beams@.map_values(|v: i128| v as int).len(),
                    |q: int| 0,
                ));
            }
            let mut extra: i128 = 0;
            let mut x: usize = 0;
            let ghost bspec = beams@.map_values(|v: i128| v as int);
            let ghost splits0 = splits as int;
            while x < w
                invariant
                    mspec == spec_char_rows(input@),
                    map@.len() == mspec.len(),
                    forall|q: int| 0 <= q < map@.len() ==> (#[trigger] map@[q])@ == mspec[q],
                    rows_rect(mspec),
                    map@.len() >= 2,
                    w == mspec[0].len(),
                    y + 1 < map@.len(),
                    next@ == mspec[y + 1],
                    last == (y + 2 == map@.len()),
                    bspec == beams@.map_values(|v: i128| v as int),
                    bspec.len() == w,
                    forall|q: int| 0 <= q < beams@.len() ==> (#[trigger] beams@[q]) >= 0,
                    x <= w,
                    acc@.len() == w,
                    forall|q: int| 0 <= q < acc@.len() ==> (#[trigger] acc@[q]) >= 0,
                    0 <= splits0 <= splits,
                    extra >= 0,
                    spec_cascade(input@) == (match spec_step7(
                        mspec[y + 1],
                        bspec,
                        0,
                        Seq::new(bspec.len(), |q: int| 0),
                        splits0,
                        0,
                        last,
                    ) {
                        None => None,
                        Some(r) => {
                            if last {
                                if spec_beam_total(r.0, 0) + r.2
                                    > 0x7fffffffffffffffffffffffffffffff {
                                    None
                                } else {
                                    Some((r.1, spec_beam_total(r.0, 0) + r.2))
                                }
                            } else {
                                spec_run7(mspec, r.0, y + 1, r.1)
                            }
                        },
                    }),
                    spec_step7(
                        mspec[y + 1],
                        bspec,
                        0,
                        Seq::new(bspec.len(), |q: int| 0),
                        splits0,
                        0,
                        last,
                    ) == spec_step7(
                        mspec[y + 1],
                        bspec,
                        x as int,
                        acc@.map_values(|v: i128| v as int),
                        splits as int,
                        extra as int,
                        last,
                    ),
                decreases w - x,
            {
                let c = beams[x];
                let ghost accm0 = acc@.map_values(|v: i128| v as int);
                let ghost splits_b = splits as int;
                let ghost extra_b = extra as int;
                proof {
                    assert(bspec[x as int] == c as int);
                }
                if c != 0 {
                    if next[x] == '^' {
                        if x == 0 {
                            return None;
                        }
                        if splits == i128::MAX {
                            return None;
                        }
                        let prev = acc[x - 1];
                        if prev > i128::MAX - c {
                            return None;
                        }
                        acc[x - 1] = prev + c;
                        proof {
                            assert(acc@.map_values(|v: i128| v as int) =~= accm0.update(
                                x - 1,
                                accm0[x - 1] + c as int,
                            ));
                        }
                        if x + 1 < w {
                            let nxt = acc[x + 1];
                            if nxt > i128::MAX - c {
                                return None;
                            }
                            acc[x + 1] = nxt + c;
                            proof {
                                let acc1 = accm0.update(x - 1, accm0[x - 1] + c as int);
                                assert(acc@.map_values(|v: i128| v as int) =~= acc1.update(
                                    x + 1,
                                    acc1[x + 1] + c as int,
                                ));
                            }
                        } else if last {
                            if extra > i128::MAX - c {
                                return None;
                            }
                            extra = extra + c;
                        } else {
                            return None;
                        }
                        splits = splits + 1;
                    } else {
                        let cur = acc[x];
                        if cur > i128::MAX - c {
                            return None;
                        }
                        acc[x] = cur + c;
                        proof {
                            assert(acc@.map_values(|v: i128| v as int) =~= accm0.update(
                                x as int,
                                accm0[x as int] + c as int,
                            ));
                        }
                    }
                }
                proof {
                    assert(spec_step7(mspec[y + 1], bspec, x as int, accm0, splits_b, extra_b, last)
                        == spec_step7(
                        mspec[y + 1],
                        bspec,
                        x + 1,
                        acc@.map_values(|v: i128| v as int),
                        splits as int,
                        extra as int,
                        last,
                    ));
                }
                x = x + 1;
            }
            if last {
                let ghost accspec = acc@.map_values(|v: i128| v as int);
                let ghost r1 = splits as int;
                let mut total: i128 = extra;
                let mut q: usize = w;
                while q > 0
                    invariant
                        mspec == spec_char_rows(input@),
                        q <= w,
                        acc@.len() == w,
                        accspec == acc@.map_values(|v: i128| v as int),
                        forall|t2: int| 0 <= t2 < acc@.len() ==> (#[trigger] acc@[t2]) >= 0,
                        extra >= 0,
                        total >= 0,
                        total as int == extra as int + spec_beam_total(accspec, q as int),
                        spec_cascade(input@) == (if spec_beam_total(accspec, 0) + extra as int
                            > 0x7fffffffffffffffffffffffffffffff {
                            None
                        } else {
                            Some((r1, spec_beam_total(accspec, 0) + extra as int))
                        }),
                        r1 == splits as int,
                    decreases q,
                {
                    q = q - 1;
                    let v = acc[q];
                    proof {
                        assert(accspec[q as int] == v as int);
                        assert(v >= 0);
                    }
                    if total > i128::MAX - v {
                        proof {
                            lemma_beam_total_mono(accspec, 0, q as int);
                        }
                        return None;
                    }
                    total = total + v;
                }
                proof {
                    assert(spec_beam_total(accspec, 0) + extra as int == total as int);
                }
                return Some((splits, total));
            }
            beams = acc;
            y = y + 1;
        }
        None
    }

    /// First query: the number of splitters the cascade fires. `None`
    /// exactly where the cascade walk fails.
    pub fn part1(&self, input: &str) -> (r: Option<String>)
        ensures
            match r {
                None => spec_cascade(input@) is None,
                Some(out) => spec_cascade(input@) matches Some(p) && out@ == spec_int_string(
                    p.0,
                ),
            },
    {
        match Self::cascade(input) {
            Some(p) => Some(i128_string(p.0)),
            None => None,
        }
    }

    /// Second query: the number of beams reaching the bottom row.
    /// `None` exactly where the cascade walk fails.
    pub fn part2(&self, input: &str) -> (r: Option<String>)
        ensures
            match r {
                None => spec_cascade(input@) is None,
                Some(out) => spec_cascade(input@) matches Some(p) && out@ == spec_int_string(
                    p.1,
                ),
            },
    {
        match Self::cascade(input) {
            Some(p) => Some(i128_string(p.1)),
            None => None,
        }
    }
}

/// Suffix beam totals only grow as the suffix widens, when all
/// entries are non-negative.
proof fn lemma_beam_total_mono(beams: Seq<int>, a: int, b: int)
    requires
        0 <= a <= b,
        forall|q: int| 0 <= q < beams.len() ==> #[trigger] beams[q] >= 0,
    ensures
        spec_beam_total(beams, a) >= spec_beam_total(beams, b),
    decreases b - a,
{
    if a < b {
        lemma_beam_total_mono(beams, a + 1, b);
        if a < beams.len() {
        } else {
            lemma_beam_total_zero(beams, a, b);
        }
    }
}

proof fn lemma_beam_total_zero(beams: Seq<int>, a: int, b: int)
    requires
        beams.len() <= a <= b,
    ensures
        spec_beam_total(beams, a) == spec_beam_total(beams, b),
    decreases b - a,
{
    if a < b {
        lemma_beam_total_zero(beams, a + 1, b);
    }
}

} // verus!
