//! Id puzzle: comma-separated ranges `a-b`; the first query sums the
//! ids whose decimal form is two copies of the same half, the second
//! sums the ids whose decimal form is any repetition of a prefix.

use vstd::prelude::*;

use crate::strutil::{
    i64_string, parse_i64, spec_int_string, spec_parse_i64, spec_split, spec_trim, split_char,
    to_chars, trim_chars,
};

verus! {

pub struct Day02;

/// The input with every newline removed.
pub open spec fn no_newlines(s: Seq<char>) -> Seq<char> {
    s.filter(|c: char| c != '\n')
}

/// One `a-b` token: every `-`-separated field is trimmed and must
/// parse, and there must be at least two.
pub open spec fn spec_range02(tok: Seq<char>) -> Option<(i64, i64)> {
    let fields = spec_split(tok, '-');
    if fields.len() < 2 {
        None
    } else if exists|t: int|
        0 <= t < fields.len() && spec_parse_i64(spec_trim(#[trigger] fields[t])) is None {
        None
    } else {
        Some(
            (
                spec_parse_i64(spec_trim(fields[0]))->Some_0,
                spec_parse_i64(spec_trim(fields[1]))->Some_0,
            ),
        )
    }
}

pub open spec fn spec_ranges02(toks: Seq<Seq<char>>) -> Option<Seq<(i64, i64)>>
    decreases toks.len(),
{
    if toks.len() == 0 {
        Some(Seq::empty())
    } else {
        match (spec_ranges02(toks.drop_last()), spec_range02(toks.last())) {
            (Some(rs), Some(r)) => Some(rs.push(r)),
            _ => None,
        }
    }
}

/// The parsed ranges of the whole input.
pub open spec fn spec_parse02(s: Seq<char>) -> Option<Seq<(i64, i64)>> {
    spec_ranges02(spec_split(no_newlines(s), ','))
}

/// An id whose decimal form is its own second half repeated.
pub open spec fn spec_half_match(i: int) -> bool {
    let ds = spec_int_string(i);
    ds.len() % 2 == 0 && ds.take(ds.len() as int / 2) == ds.skip(ds.len() as int / 2)
}

/// An id whose decimal form is a whole number of copies of one of its
/// prefixes.
pub open spec fn spec_periodic(i: int) -> bool {
    let ds = spec_int_string(i);
    exists|y: int|
        1 <= y <= ds.len() as int / 2 && #[trigger] (ds.len() as int % y) == 0 && (forall|t: int|
            0 <= t < ds.len() ==> #[trigger] ds[t] == ds[t % y])
}

/// Summing one range under a predicate with a 64-bit per-range
/// accumulator; `None` on overflow.
pub open spec fn spec_range_sum(i: int, b: int, acc: int, which2: bool) -> Option<int>
    decreases b - i + 1,
{
    if i > b {
        Some(acc)
    } else {
        let hit = if which2 {
            spec_periodic(i)
        } else {
            spec_half_match(i)
        };
        let acc2 = if hit {
            acc + i
        } else {
            acc
        };
        if !(i64::MIN <= acc2 <= i64::MAX) {
            None
        } else {
            spec_range_sum(i + 1, b, acc2, which2)
        }
    }
}

/// Summing every range into a 64-bit total.
pub open spec fn spec_total_sum(rs: Seq<(i64, i64)>, k: int, total: int, which2: bool) -> Option<
    int,
>
    decreases rs.len() - k,
{
    if k < 0 || k >= rs.len() {
        Some(total)
    } else {
        match spec_range_sum(rs[k].0 as int, rs[k].1 as int, 0, which2) {
            None => None,
            Some(v) => {
                let t2 = total + v;
                if !(i64::MIN <= t2 <= i64::MAX) {
                    None
                } else {
                    spec_total_sum(rs, k + 1, t2, which2)
                }
            },
        }
    }
}

impl Day02 {
    /// Parses the comma-separated range list; `None` exactly on a
    /// malformed token.
    pub fn parse(input: &str) -> (r: Option<Vec<(i64, i64)>>)
        ensures
            match r {
                None => spec_parse02(input@) is None,
                Some(rs) => spec_parse02(input@) == Some(rs@),
            },
    {
        let cs = to_chars(input);
        let mut flat: Vec<char> = Vec::new();
        let mut k: usize = 0;
        while k < cs.len()
            invariant
                k <= cs@.len(),
                flat@ == cs@.take(k as int).filter(|c: char| c != '\n'),
            decreases cs@.len() - k,
        {
            let c = cs[k];
            proof {
                reveal(Seq::filter);
                assert(cs@.take(k + 1).drop_last() =~= cs@.take(k as int));
                assert(cs@.take(k + 1).last() == c);
            }
            if c != '\n' {
                flat.push(c);
            }
            k = k + 1;
        }
        proof {
            assert(cs@.take(cs@.len() as int) =~= cs@);
        }
        let toks = split_char(&flat, ',');
        let ghost tseq = spec_split(no_newlines(input@), ',');
        let mut out: Vec<(i64, i64)> = Vec::new();
        let mut t: usize = 0;
        while t < toks.len()
            invariant
                tseq == spec_split(no_newlines(input@), ','),
                toks@.len() == tseq.len(),
                forall|q: int| 0 <= q < toks@.len() ==> (#[trigger] toks@[q])@ == tseq[q],
                t <= toks@.len(),
                spec_ranges02(tseq.take(t as int)) == Some(out@),
            decreases toks@.len() - t,
        {
            let fields = split_char(&toks[t], '-');
            proof {
                assert(tseq.take(t + 1).drop_last() =~= tseq.take(t as int));
                assert(tseq.take(t + 1).last() == tseq[t as int]);
            }
            if fields.len() < 2 {
                proof {
                    assert(spec_range02(tseq[t as int]) is None);
                    lemma_ranges02_fail(tseq, t as int);
                }
                return None;
            }
            let mut a: i64 = 0;
            let mut b: i64 = 0;
            let mut f: usize = 0;
            while f < fields.len()
                invariant
                    tseq == spec_split(no_newlines(input@), ','),
                    t < tseq.len(),
                    (#[trigger] toks@[t as int])@ == tseq[t as int],
                    toks@.len() == tseq.len(),
                    fields@.len() >= 2,
                    f <= fields@.len(),
                    fields@.len() == spec_split(tseq[t as int], '-').len(),
                    forall|q: int|
                        0 <= q < fields@.len() ==> (#[trigger] fields@[q])@ == spec_split(
                            tseq[t as int],
                            '-',
                        )[q],
                    forall|q: int|
                        0 <= q < f ==> spec_parse_i64(
                            spec_trim(#[trigger] spec_split(tseq[t as int], '-')[q]),
                        ) is Some,
                    f >= 1 ==> a == spec_parse_i64(
                        spec_trim(spec_split(tseq[t as int], '-')[0]),
                    )->Some_0,
                    f >= 2 ==> b == spec_parse_i64(
                        spec_trim(spec_split(tseq[t as int], '-')[1]),
                    )->Some_0,
                decreases fields@.len() - f,
            {
                match parse_i64(&trim_chars(&fields[f])) {
                    Some(v) => {
                        if f == 0 {
                            a = v;
                        }
                        if f == 1 {
                            b = v;
                        }
                    },
                    None => {
                        proof {
                            assert(spec_parse_i64(
                                spec_trim(spec_split(tseq[t as int], '-')[f as int]),
                            ) is None);
                            assert(spec_range02(tseq[t as int]) is None);
                            lemma_ranges02_fail(tseq, t as int);
                        }
                        return None;
                    },
                }
                f = f + 1;
            }
            proof {
                assert(spec_range02(tseq[t as int]) == Some((a, b)));
            }
            out.push((a, b));
            t = t + 1;
        }
        proof {
            assert(tseq.take(tseq.len() as int) =~= tseq);
        }
        Some(out)
    }

    /// Whether the decimal form of `v` is its second half repeated.
    pub fn half_match(v: i64) -> (r: bool)
        ensures
            r == spec_half_match(v as int),
    {
        let s = i64_string(v);
        let ds = to_chars(s.as_str());
        let n = ds.len();
        if n % 2 != 0 {
            return false;
        }
        let half = n / 2;
        let mut q: usize = 0;
        while q < half
            invariant
                ds@ == spec_int_string(v as int),
                n == ds@.len(),
                n % 2 == 0,
                half == n / 2,
                q <= half,
                forall|u: int| 0 <= u < q ==> #[trigger] ds@[u] == ds@[u + half],
            decreases half - q,
        {
            if ds[q] != ds[q + half] {
                proof {
                    assert(ds@.take(half as int)[q as int] != ds@.skip(half as int)[q as int]);
                }
                return false;
            }
            q = q + 1;
        }
        proof {
            assert(ds@.take(half as int) =~= ds@.skip(half as int));
        }
        true
    }

    /// Whether the decimal form of `v` repeats one of its prefixes.
    #[verifier::rlimit(80)]
    pub fn periodic(v: i64) -> (r: bool)
        ensures
            r == spec_periodic(v as int),
    {
        let s = i64_string(v);
        let ds = to_chars(s.as_str());
        let n = ds.len();
        let mut y: usize = 1;
        while y <= n / 2
            invariant
                ds@ == spec_int_string(v as int),
                n == ds@.len(),
                1 <= y,
                forall|yy: int|
                    1 <= yy < y ==> !(#[trigger] (n as int % yy) == 0 && (forall|t: int|
                        0 <= t < n ==> #[trigger] ds@[t] == ds@[t % yy])),
            decreases n / 2 + 1 - y,
        {
            if n % y == 0 {
                let mut ok = true;
                let mut t: usize = 0;
                while t < n
                    invariant
                        ds@ == spec_int_string(v as int),
                        n == ds@.len(),
                        1 <= y <= n,
                        t <= n,
                        ok == (forall|u: int|
                            0 <= u < t ==> #[trigger] ds@[u] == ds@[u % y as int]),
                    decreases n - t,
                {
                    let m = t % y;
                    if ds[t] != ds[m] {
                        ok = false;
                    }
                    t = t + 1;
                }
                if ok {
                    proof {
                        assert(1 <= y as int <= n as int / 2 && n as int % y as int == 0 && (
                        forall|u: int| 0 <= u < n ==> #[trigger] ds@[u] == ds@[u % y as int]));
                    }
                    return true;
                }
            }
            y = y + 1;
        }
        false
    }

    /// Sums one range under the chosen predicate; exact counterpart of
    /// `spec_range_sum`.
    fn range_sum(a: i64, b: i64, which2: bool) -> (r: Option<i64>)
        ensures
            match r {
                None => spec_range_sum(a as int, b as int, 0, which2) is None,
                Some(v) => spec_range_sum(a as int, b as int, 0, which2) == Some(v as int),
            },
    {
        let mut acc: i64 = 0;
        if a > b {
            return Some(acc);
        }
        let mut cur: i64 = a;
        let mut done = false;
        while !done
            invariant
                a <= cur <= b,
                done ==> spec_range_sum(a as int, b as int, 0, which2) == Some(acc as int),
                !done ==> spec_range_sum(a as int, b as int, 0, which2) == spec_range_sum(
                    cur as int,
                    b as int,
                    acc as int,
                    which2,
                ),
            decreases b - cur + (if done {
                0int
            } else {
                1int
            }),
        {
            let ghost acc0 = acc as int;
            let hit = if which2 {
                Self::periodic(cur)
            } else {
                Self::half_match(cur)
            };
            if hit {
                let wide: i128 = acc as i128 + cur as i128;
                if wide > i64::MAX as i128 || wide < i64::MIN as i128 {
                    return None;
                }
                acc = wide as i64;
            }
            proof {
                assert(spec_range_sum(cur as int, b as int, acc0, which2) == spec_range_sum(
                    cur as int + 1,
                    b as int,
                    acc as int,
                    which2,
                ));
            }
            if cur == b {
                proof {
                    assert(spec_range_sum(cur as int + 1, b as int, acc as int, which2) == Some(
                        acc as int,
                    ));
                }
                done = true;
            } else {
                cur = cur + 1;
            }
        }
        Some(acc)
    }

    /// The ranges query: the sum over every range of the matching ids.
    /// `None` exactly on malformed input or 64-bit overflow.
    fn run(input: &str, which2: bool) -> (r: Option<String>)
        ensures
            match r {
                None => spec_parse02(input@) is None || (spec_parse02(input@) matches Some(rs)
                    && spec_total_sum(rs, 0, 0, which2) is None),
                Some(out) => {
                    &&& spec_parse02(input@) matches Some(rs)
                    &&& spec_total_sum(rs, 0, 0, which2) matches Some(v) && out@
                        == spec_int_string(v)
                },
            },
    {
        let ranges = match Self::parse(input) {
            Some(rs) => rs,
            None => {
                return None;
            },
        };
        let ghost rsq = ranges@;
        let n = ranges.len();
        let mut total: i64 = 0;
        let mut k: usize = 0;
        while k < n
            invariant
                rsq == ranges@,
                spec_parse02(input@) == Some(rsq),
                n == rsq.len(),
                k <= n,
                spec_total_sum(rsq, 0, 0, which2) == spec_total_sum(
                    rsq,
                    k as int,
                    total as int,
                    which2,
                ),
            decreases n - k,
        {
            let (a, b) = ranges[k];
            let v = match Self::range_sum(a, b, which2) {
                Some(v) => v,
                None => {
                    return None;
                },
            };
            let wide: i128 = total as i128 + v as i128;
            if wide > i64::MAX as i128 || wide < i64::MIN as i128 {
                return None;
            }
            total = wide as i64;
            k = k + 1;
        }
        Some(i64_string(total))
    }

    /// First query: ids that are a doubled half.
    pub fn part1(&self, input: &str) -> (r: Option<String>)
        ensures
            match r {
                None => spec_parse02(input@) is None || (spec_parse02(input@) matches Some(rs)
                    && spec_total_sum(rs, 0, 0, false) is None),
                Some(out) => {
                    &&& spec_parse02(input@) matches Some(rs)
                    &&& spec_total_sum(rs, 0, 0, false) matches Some(v) && out@
                        == spec_int_string(v)
                },
            },
    {
        Self::run(input, false)
    }

    /// Second query: ids that repeat one of their prefixes.
    pub fn part2(&self, input: &str) -> (r: Option<String>)
        ensures
            match r {
                None => spec_parse02(input@) is None || (spec_parse02(input@) matches Some(rs)
                    && spec_total_sum(rs, 0, 0, true) is None),
                Some(out) => {
                    &&& spec_parse02(input@) matches Some(rs)
                    &&& spec_total_sum(rs, 0, 0, true) matches Some(v) && out@
                        == spec_int_string(v)
                },
            },
    {
        Self::run(input, true)
    }
}

proof fn lemma_ranges02_fail(toks: Seq<Seq<char>>, k: int)
    requires
        0 <= k < toks.len(),
        spec_range02(toks[k]) is None,
    ensures
        spec_ranges02(toks) is None,
    decreases toks.len(),
{
    if k < toks.len() - 1 {
        assert(toks.drop_last()[k] == toks[k]);
        lemma_ranges02_fail(toks.drop_last(), k);
    }
}

} // verus!
