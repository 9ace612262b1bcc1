//! Battery-bank puzzle: each line is a string of digits; pick digits to
//! form the largest two-digit and twelve-digit readings under the
//! puzzle's left-to-right selection rules.

use vstd::prelude::*;

use crate::strutil::{
    digit_val, is_digit, lines_of, spec_lines, spec_uint_string, to_chars, u128_string,
};


verus! {

pub struct Day03;

/// One line read as a row of digit values; `None` on any other
/// character.
pub open spec fn spec_digit_row(line: Seq<char>) -> Option<Seq<u8>> {
    if forall|t: int| 0 <= t < line.len() ==> is_digit(#[trigger] line[t]) {
        Some(Seq::new(line.len(), |t: int| digit_val(line[t]) as u8))
    } else {
        None
    }
}

pub open spec fn spec_digit_rows(lns: Seq<Seq<char>>) -> Option<Seq<Seq<u8>>>
    decreases lns.len(),
{
    if lns.len() == 0 {
        Some(Seq::empty())
    } else {
        match (spec_digit_rows(lns.drop_last()), spec_digit_row(lns.last())) {
            (Some(rows), Some(row)) => Some(rows.push(row)),
            _ => None,
        }
    }
}

/// The parsed banks of the whole input.
pub open spec fn spec_parse_banks(s: Seq<char>) -> Option<Seq<Seq<u8>>> {
    spec_digit_rows(spec_lines(s))
}

proof fn lemma_digit_rows_fail(lns: Seq<Seq<char>>, k: int)
    requires
        0 <= k < lns.len(),
        spec_digit_row(lns[k]) is None,
    ensures
        spec_digit_rows(lns) is None,
    decreases lns.len(),
{
    if k < lns.len() - 1 {
        assert(lns.drop_last()[k] == lns[k]);
        lemma_digit_rows_fail(lns.drop_last(), k);
    }
}

/// The scan state of the first reading: the running maximum and the
/// best later digit, updated by the left-to-right rule.
pub open spec fn spec_scan2(bank: Seq<u8>, k: int, mx: int, smx: int) -> (int, int)
    decreases bank.len() - 1 - k,
{
    if k < 0 || k >= bank.len() - 1 {
        (mx, smx)
    } else {
        let v = bank[k] as int;
        if v > mx {
            spec_scan2(bank, k + 1, v, 0)
        } else if v > smx {
            spec_scan2(bank, k + 1, mx, v)
        } else {
            spec_scan2(bank, k + 1, mx, smx)
        }
    }
}

/// The first reading of one bank: the scanned maximum paired with the
/// best second digit, the final element always eligible as second.
pub open spec fn spec_bank_reading(bank: Seq<u8>) -> int {
    let p = spec_scan2(bank, 0, 0, 0);
    let smx = if p.1 < bank.last() as int {
        bank.last() as int
    } else {
        p.1
    };
    p.0 * 10 + smx
}

/// The sum of first readings over all banks from `k` on; `None` if any
/// bank is empty (it has no final element).
pub open spec fn spec_part1_sum(banks: Seq<Seq<u8>>, k: int) -> Option<int>
    decreases banks.len() - k,
{
    if k < 0 || k >= banks.len() {
        Some(0)
    } else if banks[k].len() == 0 {
        None
    } else {
        match spec_part1_sum(banks, k + 1) {
            Some(rest) => Some(spec_bank_reading(banks[k]) + rest),
            None => None,
        }
    }
}


/// Placing one battery digit into the twelve display slots: the first
/// slot from `start` on that holds a smaller digit, or that lies at or
/// past the first never-filled slot, takes the digit; later slots then
/// count as refillable.
pub open spec fn spec_place(vals: Seq<u8>, empty_from: int, y: int, v: u8) -> (Seq<u8>, int)
    decreases 12 - y,
{
    if y < 0 || y >= 12 {
        (vals, empty_from)
    } else if v > vals[y] || empty_from <= y {
        (vals.update(y, v), y + 1)
    } else {
        spec_place(vals, empty_from, y + 1, v)
    }
}

/// Scanning a whole bank into the display, each digit starting at a
/// slot that leaves room for the remaining digits.
pub open spec fn spec_fill(bank: Seq<u8>, k: int, vals: Seq<u8>, empty_from: int) -> (
    Seq<u8>,
    int,
)
    decreases bank.len() - k,
{
    if k < 0 || k >= bank.len() {
        (vals, empty_from)
    } else {
        let left = bank.len() - k;
        let start: int = if left >= 12 {
            0
        } else {
            12 - left
        };
        let p = spec_place(vals, empty_from, start, bank[k]);
        spec_fill(bank, k + 1, p.0, p.1)
    }
}

/// The display read as a twelve-digit number.
pub open spec fn spec_display_value(vals: Seq<u8>, i: int, acc: int) -> int
    decreases 12 - i,
{
    if i < 0 || i >= 12 {
        acc
    } else {
        spec_display_value(vals, i + 1, acc * 10 + vals[i])
    }
}

/// The second reading of one bank.
pub open spec fn spec_bank_reading2(bank: Seq<u8>) -> int {
    spec_display_value(spec_fill(bank, 0, Seq::new(12, |t: int| 0u8), 0).0, 0, 0)
}

/// The sum of second readings over all banks from `k` on.
pub open spec fn spec_part2_sum(banks: Seq<Seq<u8>>, k: int) -> int
    decreases banks.len() - k,
{
    if k < 0 || k >= banks.len() {
        0
    } else {
        spec_bank_reading2(banks[k]) + spec_part2_sum(banks, k + 1)
    }
}

proof fn lemma_place_bounded(vals: Seq<u8>, empty_from: int, y: int, v: u8)
    requires
        vals.len() == 12,
        v <= 9,
        forall|t: int| 0 <= t < 12 ==> (#[trigger] vals[t]) <= 9,
    ensures
        spec_place(vals, empty_from, y, v).0.len() == 12,
        forall|t: int| 0 <= t < 12 ==> (#[trigger] spec_place(vals, empty_from, y, v).0[t]) <= 9,
    decreases 12 - y,
{
    if 0 <= y < 12 && !(v > vals[y] || empty_from <= y) {
        lemma_place_bounded(vals, empty_from, y + 1, v);
    }
}

proof fn lemma_fill_bounded(bank: Seq<u8>, k: int, vals: Seq<u8>, empty_from: int)
    requires
        vals.len() == 12,
        forall|t: int| 0 <= t < 12 ==> (#[trigger] vals[t]) <= 9,
        forall|t: int| 0 <= t < bank.len() ==> (#[trigger] bank[t]) <= 9,
    ensures
        spec_fill(bank, k, vals, empty_from).0.len() == 12,
        forall|t: int|
            0 <= t < 12 ==> (#[trigger] spec_fill(bank, k, vals, empty_from).0[t]) <= 9,
    decreases bank.len() - k,
{
    if 0 <= k < bank.len() {
        let left = bank.len() - k;
        let start: int = if left >= 12 {
            0
        } else {
            12 - left
        };
        lemma_place_bounded(vals, empty_from, start, bank[k]);
        let p = spec_place(vals, empty_from, start, bank[k]);
        lemma_fill_bounded(bank, k + 1, p.0, p.1);
    }
}

proof fn lemma_display_value_bounded(vals: Seq<u8>, i: int, acc: int)
    requires
        vals.len() == 12,
        forall|t: int| 0 <= t < 12 ==> (#[trigger] vals[t]) <= 9,
        0 <= i <= 12,
        0 <= acc,
        acc < pow10_spec(i),
    ensures
        0 <= spec_display_value(vals, i, acc) < 1000000000000,
    decreases 12 - i,
{
    if i < 12 {
        assert(acc * 10 + vals[i] < pow10_spec(i + 1)) by (nonlinear_arith)
            requires
                0 <= acc && acc < pow10_spec(i) && vals[i] <= 9 && pow10_spec(i + 1) == 10
                    * pow10_spec(i),
        ;
        lemma_display_value_bounded(vals, i + 1, acc * 10 + vals[i]);
    } else {
        lemma_pow10_12();
    }
}

proof fn lemma_pow10_pos(i: int)
    ensures
        pow10_spec(i) >= 1,
    decreases (if i > 0 {
        i
    } else {
        0
    }),
{
    if i > 0 {
        lemma_pow10_pos(i - 1);
    }
}

proof fn lemma_pow10_le(i: int, j: int)
    requires
        0 <= i <= j,
    ensures
        pow10_spec(i) <= pow10_spec(j),
        pow10_spec(i) >= 1,
    decreases j - i,
{
    lemma_pow10_pos(i);
    if i < j {
        lemma_pow10_le(i, j - 1);
        assert(pow10_spec(j) == 10 * pow10_spec(j - 1));
    }
}

proof fn lemma_pow10_12()
    ensures
        pow10_spec(12) == 1000000000000,
{
    assert(pow10_spec(0) == 1);
    assert(pow10_spec(1) == 10);
    assert(pow10_spec(2) == 100);
    assert(pow10_spec(3) == 1000);
    assert(pow10_spec(4) == 10000);
    assert(pow10_spec(5) == 100000);
    assert(pow10_spec(6) == 1000000);
    assert(pow10_spec(7) == 10000000);
    assert(pow10_spec(8) == 100000000);
    assert(pow10_spec(9) == 1000000000);
    assert(pow10_spec(10) == 10000000000);
    assert(pow10_spec(11) == 100000000000);
    assert(pow10_spec(12) == 1000000000000);
}

/// Ten to the power of the slots already read, capped at twelve.
pub open spec fn pow10_spec(i: int) -> int
    decreases i,
{
    if i <= 0 {
        1
    } else {
        10 * pow10_spec(i - 1)
    }
}

impl Day03 {
    /// Sum of the twelve-digit readings; `None` exactly on malformed
    /// input.
    pub fn part2(&self, input: &str) -> (r: Option<String>)
        ensures
            match r {
                None => spec_parse_banks(input@) is None,
                Some(out) => {
                    &&& spec_parse_banks(input@) is Some
                    &&& out@ == spec_uint_string(
                        spec_part2_sum(spec_parse_banks(input@)->Some_0, 0),
                    )
                },
            },
    {
        let banks = match Self::parse(input) {
            Some(b) => b,
            None => {
                return None;
            },
        };
        let ghost bs = spec_parse_banks(input@)->Some_0;
        proof {
            lemma_digit_rows_bounded(spec_lines(input@));
        }
        let n = banks.len();
        let mut sum: u128 = 0;
        let mut k: usize = n;
        while k > 0
            invariant
                n == banks@.len(),
                bs.len() == n,
                bs == spec_parse_banks(input@)->Some_0,
                spec_parse_banks(input@) is Some,
                forall|t: int| 0 <= t < n ==> (#[trigger] banks@[t])@ == bs[t],
                forall|t: int, q: int|
                    0 <= t < bs.len() && 0 <= q < bs[t].len() ==> (#[trigger] bs[t][q]) <= 9,
                k <= n,
                sum as int == spec_part2_sum(bs, k as int),
                sum <= (n - k) * 1000000000000,
            decreases k,
        {
            k = k - 1;
            let bank = &banks[k];
            let mut vals: Vec<u8> = Vec::new();
            let mut z: usize = 0;
            while z < 12
                invariant
                    z <= 12,
                    vals@.len() == z,
                    forall|t: int| 0 <= t < z ==> (#[trigger] vals@[t]) == 0,
                decreases 12 - z,
            {
                vals.push(0);
                z = z + 1;
            }
            proof {
                assert(vals@ =~= Seq::new(12, |t: int| 0u8));
            }
            let mut empty_from: usize = 0;
            let m = bank.len();
            let mut q: usize = 0;
            while q < m
                invariant
                    k < banks@.len(),
                    bank@ == bs[k as int],
                    forall|t: int, qq: int|
                        0 <= t < bs.len() && 0 <= qq < bs[t].len() ==> (#[trigger] bs[t][qq])
                            <= 9,
                    m == bank@.len(),
                    q <= m,
                    vals@.len() == 12,
                    spec_fill(bank@, 0, Seq::new(12, |t: int| 0u8), 0) == spec_fill(
                        bank@,
                        q as int,
                        vals@,
                        empty_from as int,
                    ),
                decreases m - q,
            {
                let left = m - q;
                let start: usize = if left >= 12 {
                    0
                } else {
                    12 - left
                };
                let v = bank[q];
                let ghost vals0 = vals@;
                let ghost ef0 = empty_from as int;
                let mut y: usize = start;
                let mut placed = false;
                while y < 12 && !placed
                    invariant
                        start <= y <= 12,
                        vals@.len() == 12,
                        !placed ==> spec_place(vals0, ef0, start as int, v) == spec_place(
                            vals@,
                            empty_from as int,
                            y as int,
                            v,
                        ) && vals@ == vals0 && empty_from as int == ef0,
                        placed ==> spec_place(vals0, ef0, start as int, v) == (
                        vals@,
                        empty_from as int,
                        ),
                    decreases 12 - y + (if placed {
                        0int
                    } else {
                        1int
                    }),
                {
                    if v > vals[y] || empty_from <= y {
                        vals[y] = v;
                        empty_from = y + 1;
                        placed = true;
                    } else {
                        y = y + 1;
                    }
                }
                q = q + 1;
            }
            // read the display
            let ghost filled = spec_fill(bank@, 0, Seq::new(12, |t: int| 0u8), 0);
            proof {
                lemma_fill_bounded(bank@, 0, Seq::new(12, |t: int| 0u8), 0);
                assert(filled.0 == vals@);
            }
            let mut value: u64 = 0;
            let mut i: usize = 0;
            while i < 12
                invariant
                    vals@.len() == 12,
                    forall|t: int| 0 <= t < 12 ==> (#[trigger] vals@[t]) <= 9,
                    i <= 12,
                    spec_display_value(vals@, 0, 0) == spec_display_value(
                        vals@,
                        i as int,
                        value as int,
                    ),
                    value < pow10_spec(i as int),
                decreases 12 - i,
            {
                proof {
                    assert(value * 10 + vals@[i as int] < pow10_spec(i + 1))
                        by (nonlinear_arith)
                        requires
                            0 <= value as int && (value as int) < pow10_spec(i as int)
                                && vals@[i as int] <= 9 && pow10_spec(i + 1) == 10
                                * pow10_spec(i as int),
                    ;
                    lemma_pow10_le(i + 1, 12);
                    lemma_pow10_12();
                }
                value = value * 10 + (vals[i] as u64);
                i = i + 1;
            }
            proof {
                assert(value as int == spec_bank_reading2(bs[k as int]));
                lemma_display_value_bounded(vals@, 0, 0);
            }
            sum = sum + (value as u128);
        }
        Some(u128_string(sum))
    }
}

/// A failing suffix keeps the whole sum failing.
proof fn lemma_part1_none_propagates(banks: Seq<Seq<u8>>, j: int, k: int)
    requires
        0 <= j <= k <= banks.len(),
        spec_part1_sum(banks, k) is None,
    ensures
        spec_part1_sum(banks, j) is None,
    decreases k - j,
{
    if j < k {
        lemma_part1_none_propagates(banks, j + 1, k);
    }
}

/// Parsed banks hold digit values only.
proof fn lemma_digit_rows_bounded(lns: Seq<Seq<char>>)
    requires
        spec_digit_rows(lns) is Some,
    ensures
        forall|t: int, q: int|
            0 <= t < spec_digit_rows(lns)->Some_0.len() && 0 <= q
                < spec_digit_rows(lns)->Some_0[t].len() ==> (
            #[trigger] spec_digit_rows(lns)->Some_0[t][q]) <= 9,
    decreases lns.len(),
{
    if lns.len() > 0 {
        lemma_digit_rows_bounded(lns.drop_last());
        let rows = spec_digit_rows(lns)->Some_0;
        let prev = spec_digit_rows(lns.drop_last())->Some_0;
        assert forall|t: int, q: int|
            0 <= t < rows.len() && 0 <= q < rows[t].len() implies (#[trigger] rows[t][q])
            <= 9 by {
            if t < prev.len() {
                assert(rows[t] == prev[t]);
            } else {
                assert(rows[t] == spec_digit_row(lns.last())->Some_0);
                assert(is_digit(lns.last()[q]));
            }
        }
    }
}

impl Day03 {
    /// Parses the digit banks; `None` exactly on a non-digit character.
    pub fn parse(input: &str) -> (r: Option<Vec<Vec<u8>>>)
        ensures
            match r {
                None => spec_parse_banks(input@) is None,
                Some(banks) => {
                    &&& spec_parse_banks(input@) matches Some(bs)
                    &&& bs.len() == banks@.len()
                    &&& forall|t: int|
                        0 <= t < banks@.len() ==> (#[trigger] banks@[t])@ == bs[t]
                },
            },
    {
        let cs = to_chars(input);
        let lns = lines_of(&cs);
        let ghost lseq = spec_lines(input@);
        let mut out: Vec<Vec<u8>> = Vec::new();
        let mut k: usize = 0;
        while k < lns.len()
            invariant
                lseq == spec_lines(input@),
                lns@.len() == lseq.len(),
                forall|t: int| 0 <= t < lns@.len() ==> (#[trigger] lns@[t])@ == lseq[t],
                k <= lns@.len(),
                out@.len() == k,
                spec_digit_rows(lseq.take(k as int)) matches Some(rows) && rows.len() == k,
                forall|t: int|
                    0 <= t < k ==> (#[trigger] out@[t])@ == spec_digit_rows(
                        lseq.take(k as int),
                    )->Some_0[t],
            decreases lns@.len() - k,
        {
            let line = &lns[k];
            let ghost rows0 = spec_digit_rows(lseq.take(k as int))->Some_0;
            let mut row: Vec<u8> = Vec::new();
            let mut q: usize = 0;
            while q < line.len()
                invariant
                    lseq == spec_lines(input@),
                    k < lseq.len(),
                    line@ == lseq[k as int],
                    q <= line@.len(),
                    row@.len() == q,
                    forall|t: int| 0 <= t < q ==> is_digit(#[trigger] line@[t]),
                    forall|t: int|
                        0 <= t < q ==> (#[trigger] row@[t]) as int == digit_val(line@[t]),
                decreases line@.len() - q,
            {
                let c = line[q];
                if !(c >= '0' && c <= '9') {
                    proof {
                        assert(!is_digit(line@[q as int]));
                        assert(spec_digit_row(lseq[k as int]) is None);
                        lemma_digit_rows_fail(lseq, k as int);
                    }
                    return None;
                }
                row.push((c as u32 - 48) as u8);
                q = q + 1;
            }
            proof {
                assert(spec_digit_row(lseq[k as int]) matches Some(rw) && rw =~= row@);
                assert(lseq.take(k + 1).drop_last() =~= lseq.take(k as int));
                assert(lseq.take(k + 1).last() == lseq[k as int]);
                assert(spec_digit_rows(lseq.take(k + 1)) matches Some(rs) && rs =~= rows0.push(
                    row@,
                ));
            }
            out.push(row);
            k = k + 1;
        }
        proof {
            assert(lseq.take(lseq.len() as int) =~= lseq);
        }
        Some(out)
    }

    /// Sum of the best two-digit readings; `None` exactly on malformed
    /// input or an empty bank line.
    pub fn part1(&self, input: &str) -> (r: Option<String>)
        ensures
            match r {
                None => spec_parse_banks(input@) is None || spec_part1_sum(
                    spec_parse_banks(input@)->Some_0,
                    0,
                ) is None,
                Some(out) => {
                    &&& spec_parse_banks(input@) is Some
                    &&& spec_part1_sum(spec_parse_banks(input@)->Some_0, 0) matches Some(v)
                        && out@ == spec_uint_string(v)
                },
            },
    {
        let banks = match Self::parse(input) {
            Some(b) => b,
            None => {
                return None;
            },
        };
        let ghost bs = spec_parse_banks(input@)->Some_0;
        let n = banks.len();
        let mut sum: u128 = 0;
        let mut k: usize = n;
        proof {
            assert(spec_part1_sum(bs, n as int) == Some(0int));
            lemma_digit_rows_bounded(spec_lines(input@));
        }
        while k > 0
            invariant
                n == banks@.len(),
                bs.len() == n,
                bs == spec_parse_banks(input@)->Some_0,
                spec_parse_banks(input@) is Some,
                forall|t: int| 0 <= t < n ==> (#[trigger] banks@[t])@ == bs[t],
                forall|t: int, q: int|
                    0 <= t < bs.len() && 0 <= q < bs[t].len() ==> (#[trigger] bs[t][q]) <= 9,
                k <= n,
                spec_part1_sum(bs, k as int) matches Some(v) && sum as int == v,
                sum <= 99 * (n - k),
            decreases k,
        {
            k = k - 1;
            let bank = &banks[k];
            if bank.len() == 0 {
                proof {
                    lemma_part1_none_propagates(bs, 0, k as int);
                }
                return None;
            }
            let m = bank.len();
            let mut mx: u8 = 0;
            let mut smx: u8 = 0;
            let mut q: usize = 0;
            while q < m - 1
                invariant
                    k < bs.len(),
                    bank@ == bs[k as int],
                    forall|t: int, qq: int|
                        0 <= t < bs.len() && 0 <= qq < bs[t].len() ==> (#[trigger] bs[t][qq])
                            <= 9,
                    mx <= 9,
                    smx <= 9,
                    m == bank@.len(),
                    m >= 1,
                    q <= m - 1,
                    spec_scan2(bank@, 0, 0, 0) == spec_scan2(
                        bank@,
                        q as int,
                        mx as int,
                        smx as int,
                    ),
                decreases m - q,
            {
                let v = bank[q];
                if v > mx {
                    mx = v;
                    smx = 0;
                } else if v > smx {
                    smx = v;
                }
                q = q + 1;
            }
            let ghost smx_scan = smx as int;
            let last = bank[m - 1];
            if smx < last {
                smx = last;
            }
            let reading = (mx as u128) * 10 + (smx as u128);
            proof {
                assert(spec_scan2(bank@, m - 1, mx as int, smx_scan) == (mx as int, smx_scan));
                assert(reading as int == spec_bank_reading(bank@));
                assert(reading <= 99);
            }
            sum = sum + reading;
        }
        Some(u128_string(sum))
    }
}

} // verus!
