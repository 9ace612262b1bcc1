//! Dial puzzle: parse signed rotations (`L`/`R` plus an amount) and
//! fold them over a 100-tick dial, counting visits to and passes over
//! tick zero.

use vstd::prelude::*;

use crate::strutil::{
    i128_string, lines_of, parse_i64, spec_int_string, spec_lines, spec_parse_i64, spec_trim,
    string_from_chars, to_chars, trim_chars,
};

verus! {

pub struct Day01;

/// The error reported for a line whose amount does not parse (or whose
/// left rotation does not fit in an `i64`).
pub open spec fn spec_amount_err(line: Seq<char>) -> Seq<char> {
    "Failed to parse amount in line: "@ + line
}

/// The error reported for a line with an unknown direction letter.
pub open spec fn spec_direction_err(line: Seq<char>) -> Seq<char> {
    "Invalid direction '"@ + seq![line[0]] + "' in line: "@ + line
}

/// The rotations read from the lines starting at `k`: blank lines are
/// skipped, `L` negates the amount, `R` keeps it, anything else is an
/// error; the first error wins.
pub open spec fn spec_ticks_from(lns: Seq<Seq<char>>, k: int) -> Result<Seq<i64>, Seq<char>>
    decreases lns.len() - k,
{
    if k < 0 || k >= lns.len() {
        Ok(Seq::empty())
    } else {
        let line = lns[k];
        if spec_trim(line).len() == 0 {
            spec_ticks_from(lns, k + 1)
        } else {
            match spec_parse_i64(spec_trim(line.drop_first())) {
                None => Err(spec_amount_err(line)),
                Some(a) => {
                    if line[0] == 'L' {
                        if a == i64::MIN {
                            Err(spec_amount_err(line))
                        } else {
                            match spec_ticks_from(lns, k + 1) {
                                Ok(rest) => Ok(seq![(-a) as i64] + rest),
                                Err(e) => Err(e),
                            }
                        }
                    } else if line[0] == 'R' {
                        match spec_ticks_from(lns, k + 1) {
                            Ok(rest) => Ok(seq![a] + rest),
                            Err(e) => Err(e),
                        }
                    } else {
                        Err(spec_direction_err(line))
                    }
                },
            }
        }
    }
}

pub open spec fn spec_get_ticks(s: Seq<char>) -> Result<Seq<i64>, Seq<char>> {
    spec_ticks_from(spec_lines(s), 0)
}

/// Prefixing already-collected rotations onto a pending tail.
pub open spec fn with_prefix(pre: Seq<i64>, r: Result<Seq<i64>, Seq<char>>) -> Result<
    Seq<i64>,
    Seq<char>,
> {
    match r {
        Ok(v) => Ok(pre + v),
        Err(e) => Err(e),
    }
}

impl Day01 {
    /// Reads the rotation list; on a bad line, returns the same error
    /// message the puzzle reports. A left rotation whose amount is
    /// `i64::MIN` has no representable negation and is reported as an
    /// amount failure.
    pub fn get_ticks(input: &str) -> (r: Result<Vec<i64>, String>)
        ensures
            match r {
                Ok(v) => spec_get_ticks(input@) == Ok::<Seq<i64>, Seq<char>>(v@),
                Err(e) => spec_get_ticks(input@) == Err::<Seq<i64>, Seq<char>>(e@),
            },
    {
        let cs = to_chars(input);
        let lns = lines_of(&cs);
        let ghost lseq = spec_lines(input@);
        let mut out: Vec<i64> = Vec::new();
        let mut k: usize = 0;
        while k < lns.len()
            invariant
                lseq == spec_lines(input@),
                lns@.len() == lseq.len(),
                forall|t: int| 0 <= t < lns@.len() ==> (#[trigger] lns@[t])@ == lseq[t],
                k <= lns@.len(),
                spec_ticks_from(lseq, 0) == with_prefix(out@, spec_ticks_from(lseq, k as int)),
            decreases lns@.len() - k,
        {
            let line = &lns[k];
            let trimmed = trim_chars(line);
            let ghost out0 = out@;
            if trimmed.len() > 0 {
                let mut tail: Vec<char> = Vec::new();
                let mut q: usize = 1;
                while q < line.len()
                    invariant
                        1 <= q && (q <= line@.len() || q == 1),
                        line@.len() > 0 ==> tail@ == line@.drop_first().take(q - 1),
                    decreases line@.len() - q,
                {
                    tail.push(line[q]);
                    proof {
                        assert(tail@ =~= line@.drop_first().take(q as int));
                    }
                    q = q + 1;
                }
                proof {
                    assert(line@.len() > 0);
                    assert(line@.drop_first().take(line@.len() - 1) =~= line@.drop_first());
                }
                let tail_trimmed = trim_chars(&tail);
                let amount = match parse_i64(&tail_trimmed) {
                    Some(a) => a,
                    None => {
                        let line_s = string_from_chars(line);
                        let msg = "Failed to parse amount in line: ".to_owned().concat(
                            line_s.as_str(),
                        );
                        return Err(msg);
                    },
                };
                let dir = line[0];
                if dir == 'L' {
                    if amount == i64::MIN {
                        let line_s = string_from_chars(line);
                        let msg = "Failed to parse amount in line: ".to_owned().concat(
                            line_s.as_str(),
                        );
                        return Err(msg);
                    }
                    out.push(-amount);
                } else if dir == 'R' {
                    out.push(amount);
                } else {
                    let line_s = string_from_chars(line);
                    let mut dirv: Vec<char> = Vec::new();
                    dirv.push(dir);
                    let dir_s = string_from_chars(&dirv);
                    let msg = "Invalid direction '".to_owned().concat(dir_s.as_str()).concat(
                        "' in line: ",
                    ).concat(line_s.as_str());
                    proof {
                        assert(msg@ =~= spec_direction_err(lseq[k as int]));
                    }
                    return Err(msg);
                }
                proof {
                    assert(out@ =~= out0.push(out@[out@.len() - 1]));
                    assert(out0 + (seq![out@[out@.len() - 1]] + spec_ticks_from(
                        lseq,
                        k + 1,
                    )->Ok_0) =~= out@ + spec_ticks_from(lseq, k + 1)->Ok_0);
                }
            }
            k = k + 1;
        }
        proof {
            assert(out@ + Seq::<i64>::empty() =~= out@);
        }
        Ok(out)
    }

    /// The dial position after one rotation, on a dial of 100 ticks.
    pub open spec fn wrap100(v: int) -> int {
        v % 100
    }

    /// The first fold: starting at `pos`, apply the
    /// rotations from `k` on and count the times the dial rests at 0.
    pub open spec fn spec_count_zero(ticks: Seq<i64>, k: int, pos: int) -> int
        decreases ticks.len() - k,
    {
        if k < 0 || k >= ticks.len() {
            0
        } else {
            let np = Self::wrap100(pos + ticks[k]);
            (if np == 0 {
                1int
            } else {
                0int
            }) + Self::spec_count_zero(ticks, k + 1, np)
        }
    }

    /// The second fold: counts full revolutions plus the boundary
    /// corrections of the counting rule.
    pub open spec fn spec_count_passes(ticks: Seq<i64>, k: int, pos: int) -> int
        decreases ticks.len() - k,
    {
        if k < 0 || k >= ticks.len() {
            0
        } else {
            let raw = pos + ticks[k];
            let quota = (if raw >= 0 {
                raw / 100
            } else {
                (-raw) / 100
            }) + (if raw < 0 && pos != 0 {
                1int
            } else {
                0int
            }) + (if raw == 0 {
                1int
            } else {
                0int
            });
            quota + Self::spec_count_passes(ticks, k + 1, Self::wrap100(raw))
        }
    }
}


/// Wraps one rotation around the 100-tick dial, into `[0, 100)`.
pub fn wrap100_exec(pos: i64, t: i64) -> (np: i64)
    requires
        0 <= pos < 100,
    ensures
        np == Day01::wrap100(pos + t),
        0 <= np < 100,
{
    let raw: i128 = pos as i128 + t as i128;
    let shifted: u128 = (raw + 922337203685477580800i128) as u128;
    let m = shifted % 100;
    proof {
        vstd::arithmetic::div_mod::lemma_mod_multiples_vanish(
            9223372036854775808,
            raw as int,
            100,
        );
        assert(100 * 9223372036854775808 + raw as int == shifted as int);
    }
    m as i64
}

impl Day01 {
    /// First query: how many rotations leave the dial resting at tick
    /// zero, starting from tick 50; a parse error is reported verbatim.
    pub fn part1(&self, input: &str) -> (r: String)
        ensures
            match spec_get_ticks(input@) {
                Ok(ticks) => r@ == crate::strutil::spec_uint_string(
                    Self::spec_count_zero(ticks, 0, 50),
                ),
                Err(e) => r@ == e,
            },
    {
        let ticks = match Self::get_ticks(input) {
            Ok(t) => t,
            Err(e) => {
                return e;
            },
        };
        let ghost tseq = ticks@;
        let mut pos: i64 = 50;
        let mut count: usize = 0;
        let mut k: usize = 0;
        proof {
            lemma_count_zero_nonneg(tseq, 0, 50);
        }
        while k < ticks.len()
            invariant
                tseq == ticks@,
                k <= tseq.len(),
                0 <= pos < 100,
                count <= k,
                Self::spec_count_zero(tseq, 0, 50) == count + Self::spec_count_zero(
                    tseq,
                    k as int,
                    pos as int,
                ),
            decreases tseq.len() - k,
        {
            let np = wrap100_exec(pos, ticks[k]);
            if np == 0 {
                count = count + 1;
            }
            pos = np;
            k = k + 1;
        }
        proof {
            assert(Self::spec_count_zero(tseq, tseq.len() as int, pos as int) == 0);
        }
        crate::strutil::u64_string(count as u64)
    }

    /// Second query: how many times the dial passes or lands on tick
    /// zero in total, under the puzzle's counting rule; a parse error is
    /// reported verbatim.
    pub fn part2(&self, input: &str) -> (r: String)
        ensures
            match spec_get_ticks(input@) {
                Ok(ticks) => r@ == crate::strutil::spec_int_string(
                    Self::spec_count_passes(ticks, 0, 50),
                ),
                Err(e) => r@ == e,
            },
    {
        let ticks = match Self::get_ticks(input) {
            Ok(t) => t,
            Err(e) => {
                return e;
            },
        };
        let ghost tseq = ticks@;
        let mut pos: i64 = 50;
        let mut count: i128 = 0;
        let mut k: usize = 0;
        while k < ticks.len()
            invariant
                tseq == ticks@,
                k <= tseq.len(),
                0 <= pos < 100,
                0 <= count <= k * 0x200000000000000,
                Self::spec_count_passes(tseq, 0, 50) == count + Self::spec_count_passes(
                    tseq,
                    k as int,
                    pos as int,
                ),
            decreases tseq.len() - k,
        {
            let t = ticks[k];
            let raw: i128 = pos as i128 + t as i128;
            let rawabs: u128 = if raw >= 0 {
                raw as u128
            } else {
                (-raw) as u128
            };
            let q: u128 = rawabs / 100;
            proof {
                vstd::arithmetic::div_mod::lemma_fundamental_div_mod(rawabs as int, 100);
                assert(rawabs <= 0x80000000000000000u128);
                assert(q <= 0x200000000000000u128);
            }
            let mut quota: i128 = q as i128;
            if raw < 0 && pos != 0 {
                quota = quota + 1;
            }
            if raw == 0 {
                quota = quota + 1;
            }
            count = count + quota;
            proof {
                assert(quota <= 0x200000000000000);
            }
            let np = wrap100_exec(pos, t);
            pos = np;
            k = k + 1;
        }
        proof {
            assert(Self::spec_count_passes(tseq, tseq.len() as int, pos as int) == 0);
        }
        crate::strutil::i128_string(count)
    }
}

/// The zero-visit count is never negative.
proof fn lemma_count_zero_nonneg(ticks: Seq<i64>, k: int, pos: int)
    ensures
        Day01::spec_count_zero(ticks, k, pos) >= 0,
    decreases ticks.len() - k,
{
    if 0 <= k < ticks.len() {
        lemma_count_zero_nonneg(ticks, k + 1, Day01::wrap100(pos + ticks[k]));
    }
}

} // verus!
