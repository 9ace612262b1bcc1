//! Fresh-id puzzle: ranges of ids, one `a-b` pair per line, then a
//! blank line, then single ids. Overlapping or adjacent ranges are
//! combined; the queries count covered ids and total coverage.

use vstd::prelude::*;
use vstd::relations::{sorted_by, total_ordering};

use crate::strutil::{
    lines_of, parse_i64, spec_lines, spec_parse_i64, spec_split, split_char, to_chars,
    u128_string, spec_uint_string, spec_int_string, i128_string,
};

verus! {

broadcast use {vstd::seq_lib::group_seq_properties, vstd::multiset::group_multiset_axioms};

pub struct Day05;

/// Lexicographic order on id ranges; ranges are sorted by start before
/// merging, ties broken by end so the order is total.
pub open spec fn spec_range_le(a: (i64, i64), b: (i64, i64)) -> bool {
    a.0 < b.0 || (a.0 == b.0 && a.1 <= b.1)
}

pub open spec fn range_order() -> spec_fn((i64, i64), (i64, i64)) -> bool {
    |a: (i64, i64), b: (i64, i64)| spec_range_le(a, b)
}

pub proof fn lemma_range_order_total()
    ensures
        total_ordering(range_order()),
{
}

/// One `a-b` line parsed into a range: every `-`-separated field must
/// be an integer and there must be at least two.
pub open spec fn spec_parse_range_line(line: Seq<char>) -> Option<(i64, i64)> {
    let fields = spec_split(line, '-');
    if fields.len() < 2 {
        None
    } else if exists|t: int| 0 <= t < fields.len() && spec_parse_i64(#[trigger] fields[t]) is None {
        None
    } else {
        Some((spec_parse_i64(fields[0])->Some_0, spec_parse_i64(fields[1])->Some_0))
    }
}

pub open spec fn spec_parse_range_lines(lns: Seq<Seq<char>>) -> Option<Seq<(i64, i64)>>
    decreases lns.len(),
{
    if lns.len() == 0 {
        Some(Seq::empty())
    } else {
        match (spec_parse_range_lines(lns.drop_last()), spec_parse_range_line(lns.last())) {
            (Some(rs), Some(r)) => Some(rs.push(r)),
            _ => None,
        }
    }
}

pub open spec fn spec_parse_id_lines(lns: Seq<Seq<char>>) -> Option<Seq<i64>>
    decreases lns.len(),
{
    if lns.len() == 0 {
        Some(Seq::empty())
    } else {
        match (spec_parse_id_lines(lns.drop_last()), spec_parse_i64(lns.last())) {
            (Some(vs), Some(v)) => Some(vs.push(v)),
            _ => None,
        }
    }
}

/// Positions reached while searching for a blank line stay in range.
proof fn lemma_first_blank_props(lns: Seq<Seq<char>>, k: int)
    requires
        0 <= k,
    ensures
        spec_first_blank(lns, k) <= lns.len(),
        k <= lns.len() ==> k <= spec_first_blank(lns, k),
    decreases lns.len() - k,
{
    if 0 <= k < lns.len() && lns[k].len() != 0 {
        lemma_first_blank_props(lns, k + 1);
    }
}

/// The first blank line of the input, or the line count if none.
pub open spec fn spec_first_blank(lns: Seq<Seq<char>>, k: int) -> int
    decreases lns.len() - k,
{
    if k < 0 || k >= lns.len() {
        lns.len() as int
    } else if lns[k].len() == 0 {
        k
    } else {
        spec_first_blank(lns, k + 1)
    }
}

/// The raw range block and id block of the input: ranges up to the
/// first blank line, ids from there to the next blank line or the end.
pub open spec fn spec_blocks(s: Seq<char>) -> (Seq<Seq<char>>, Seq<Seq<char>>) {
    let lns = spec_lines(s);
    let b1 = spec_first_blank(lns, 0);
    let b2 = spec_first_blank(lns, b1 + 1);
    (lns.take(b1), lns.subrange(if b1 + 1 <= lns.len() {
        b1 + 1
    } else {
        lns.len() as int
    }, b2))
}

/// Folding the sorted ranges into merged ones: a range is combined
/// with the last merged range when it starts at or before one past
/// that range's end, extending the end as needed.
pub open spec fn spec_merge_fold(sorted: Seq<(i64, i64)>, k: int, acc: Seq<(i64, i64)>) -> Seq<
    (i64, i64),
>
    decreases sorted.len() - k,
{
    if k < 0 || k >= sorted.len() {
        acc
    } else {
        let r = sorted[k];
        let acc2 = if acc.len() == 0 {
            acc.push(r)
        } else {
            let last = acc.last();
            if r.0 <= last.1 + 1 {
                if r.1 > last.1 {
                    acc.update(acc.len() - 1, (last.0, r.1))
                } else {
                    acc
                }
            } else {
                acc.push(r)
            }
        };
        spec_merge_fold(sorted, k + 1, acc2)
    }
}

/// The merged ranges of an input, as a function of any sorted
/// arrangement of its raw ranges (all such arrangements agree).
pub open spec fn is_sorted_arrangement(raw: Seq<(i64, i64)>, sorted: Seq<(i64, i64)>) -> bool {
    &&& sorted.to_multiset() == raw.to_multiset()
    &&& sorted_by(sorted, range_order())
}

/// Selection sort for ranges, by start and then end.
pub fn sort_ranges(input: Vec<(i64, i64)>) -> (out: Vec<(i64, i64)>)
    ensures
        is_sorted_arrangement(input@, out@),
{
    let ghost all = input@;
    let mut rest = input;
    let mut out: Vec<(i64, i64)> = Vec::new();
    while rest.len() > 0
        invariant
            out@.to_multiset().add(rest@.to_multiset()) == all.to_multiset(),
            sorted_by(out@, range_order()),
            forall|a: int, b: int|
                0 <= a < out@.len() && 0 <= b < rest@.len() ==> spec_range_le(
                    #[trigger] out@[a],
                    #[trigger] rest@[b],
                ),
        decreases rest.len(),
    {
        let mut m: usize = 0;
        let mut k: usize = 1;
        while k < rest.len()
            invariant
                rest@.len() > 0,
                m < k <= rest@.len(),
                forall|t: int| 0 <= t < k ==> spec_range_le(rest@[m as int], #[trigger] rest@[t]),
            decreases rest.len() - k,
        {
            let cand = rest[k];
            let cur = rest[m];
            if cand.0 < cur.0 || (cand.0 == cur.0 && cand.1 <= cur.1) {
                m = k;
            }
            k = k + 1;
        }
        let e = rest.remove(m);
        out.push(e);
        proof {
            assert(out@.to_multiset().add(rest@.to_multiset()) =~= all.to_multiset());
            assert(sorted_by(out@, range_order()));
        }
    }
    proof {
        assert(rest@ =~= Seq::<(i64, i64)>::empty());
        assert(out@.to_multiset() =~= all.to_multiset());
    }
    out
}

impl Day05 {
    /// Parses the two blocks and merges the ranges. `None` exactly on
    /// malformed range or id lines; the merged ranges equal the merge
    /// fold of the raw ranges in sorted order.
    pub fn parse(input: &str) -> (r: Option<(Vec<(i64, i64)>, Vec<i64>)>)
        ensures
            ({
                let (rlines, ilines) = spec_blocks(input@);
                match r {
                    None => spec_parse_range_lines(rlines) is None || spec_parse_id_lines(
                        ilines,
                    ) is None,
                    Some(pair) => {
                        &&& spec_parse_range_lines(rlines) is Some
                        &&& spec_parse_id_lines(ilines) == Some(pair.1@)
                        &&& forall|sorted: Seq<(i64, i64)>|
                            is_sorted_arrangement(
                                spec_parse_range_lines(rlines)->Some_0,
                                sorted,
                            ) ==> pair.0@ == spec_merge_fold(sorted, 0, Seq::empty())
                    },
                }
            }),
    {
        let cs = to_chars(input);
        let lns = lines_of(&cs);
        let ghost lseq = spec_lines(input@);
        let n = lns.len();
        let ghost b1g = spec_first_blank(lseq, 0);
        let mut b1: usize = n;
        let mut k: usize = 0;
        let mut found = false;
        while k < n && !found
            invariant
                lseq == spec_lines(input@),
                lns@.len() == lseq.len(),
                n == lseq.len(),
                forall|t: int| 0 <= t < lns@.len() ==> (#[trigger] lns@[t])@ == lseq[t],
                k <= n,
                b1g == spec_first_blank(lseq, 0),
                !found ==> (spec_first_blank(lseq, k as int) == b1g && b1 == n),
                found ==> (b1 < n && b1g == b1 && lseq[b1 as int].len() == 0),
                forall|t: int| 0 <= t < k && !found ==> (#[trigger] lseq[t]).len() != 0,
            decreases n - k + (if found {
                0int
            } else {
                1int
            }),
        {
            if lns[k].len() == 0 {
                b1 = k;
                found = true;
            } else {
                k = k + 1;
            }
        }
        proof {
            if !found {
                assert(spec_first_blank(lseq, n as int) == n);
            }
            assert(b1 as int == b1g);
        }
        // parse the range block
        let mut raw: Vec<(i64, i64)> = Vec::new();
        let mut t: usize = 0;
        while t < b1
            invariant
                lseq == spec_lines(input@),
                lns@.len() == lseq.len(),
                forall|q: int| 0 <= q < lns@.len() ==> (#[trigger] lns@[q])@ == lseq[q],
                b1 <= lns@.len(),
                b1 as int == b1g,
                b1g == spec_first_blank(lseq, 0),
                t <= b1,
                spec_parse_range_lines(lseq.take(b1 as int).take(t as int)) == Some(raw@),
            decreases b1 - t,
        {
            let fields = split_char(&lns[t], '-');
            proof {
                assert(lseq.take(b1 as int).take(t + 1).drop_last() =~= lseq.take(
                    b1 as int,
                ).take(t as int));
                assert(lseq.take(b1 as int).take(t + 1).last() == lseq[t as int]);
            }
            if fields.len() < 2 {
                proof {
                    assert(spec_parse_range_line(lseq[t as int]) is None);
                    assert(lseq.take(b1 as int)[t as int] == lseq[t as int]);
                    lemma_range_lines_fail(lseq.take(b1 as int), t as int);
                }
                return None;
            }
            let mut all_ok = true;
            let mut a0: i64 = 0;
            let mut a1: i64 = 0;
            let mut f: usize = 0;
            while f < fields.len()
                invariant
                    fields@.len() >= 2,
                    f <= fields@.len(),
                    lseq == spec_lines(input@),
                    t < b1,
                    b1 <= lns@.len(),
                    b1 as int == b1g,
                    b1g == spec_first_blank(lseq, 0),
                    t < lns@.len(),
                    lns@.len() == lseq.len(),
                    (#[trigger] lns@[t as int])@ == lseq[t as int],
                    forall|q: int|
                        0 <= q < fields@.len() ==> (#[trigger] fields@[q])@ == spec_split(
                            lseq[t as int],
                            '-',
                        )[q],
                    fields@.len() == spec_split(lseq[t as int], '-').len(),
                    forall|q: int|
                        0 <= q < f ==> spec_parse_i64(
                            #[trigger] spec_split(lseq[t as int], '-')[q],
                        ) is Some,
                    f >= 1 ==> a0 == spec_parse_i64(spec_split(lseq[t as int], '-')[0])->Some_0,
                    f >= 2 ==> a1 == spec_parse_i64(spec_split(lseq[t as int], '-')[1])->Some_0,
                decreases fields@.len() - f,
            {
                match parse_i64(&fields[f]) {
                    Some(v) => {
                        if f == 0 {
                            a0 = v;
                        }
                        if f == 1 {
                            a1 = v;
                        }
                    },
                    None => {
                        proof {
                            assert(spec_parse_i64(spec_split(lseq[t as int], '-')[f as int])
                                is None);
                            assert(spec_parse_range_line(lseq[t as int]) is None);
                            assert(lseq.take(b1 as int)[t as int] == lseq[t as int]);
                            lemma_range_lines_fail(lseq.take(b1 as int), t as int);
                        }
                        return None;
                    },
                }
                f = f + 1;
            }
            proof {
                assert(spec_parse_range_line(lseq[t as int]) == Some((a0, a1)));
            }
            raw.push((a0, a1));
            t = t + 1;
        }
        proof {
            assert(lseq.take(b1 as int).take(b1 as int) =~= lseq.take(b1 as int));
        }
        // parse the id block
        let ghost b2g = spec_first_blank(lseq, b1g + 1);
        let mut ids: Vec<i64> = Vec::new();
        let mut u: usize = if b1 < n {
            b1 + 1
        } else {
            n
        };
        let ghost istart = u as int;
        proof {
            lemma_first_blank_props(lseq, b1g + 1);
        }
        let mut stop = false;
        while u < n && !stop
            invariant
                lseq == spec_lines(input@),
                lns@.len() == lseq.len(),
                n == lseq.len(),
                forall|q: int| 0 <= q < lns@.len() ==> (#[trigger] lns@[q])@ == lseq[q],
                b1 as int == b1g,
                b1g == spec_first_blank(lseq, 0),
                istart == (if b1g + 1 <= lseq.len() {
                    b1g + 1
                } else {
                    lseq.len() as int
                }),
                istart <= u <= n,
                b2g == spec_first_blank(lseq, b1g + 1),
                !stop ==> spec_first_blank(lseq, u as int) == b2g && istart <= u <= b2g,
                stop ==> u as int == b2g,
                forall|q: int| istart <= q < u ==> (#[trigger] lseq[q]).len() != 0,
                spec_parse_id_lines(lseq.subrange(istart, u as int)) == Some(ids@),
            decreases n - u + (if stop {
                0int
            } else {
                1int
            }),
        {
            if lns[u].len() == 0 {
                stop = true;
            } else {
                proof {
                    assert(lseq.subrange(istart, u + 1).drop_last() =~= lseq.subrange(
                        istart,
                        u as int,
                    ));
                    assert(lseq.subrange(istart, u + 1).last() == lseq[u as int]);
                }
                match parse_i64(&lns[u]) {
                    Some(v) => {
                        ids.push(v);
                        proof {
                            lemma_first_blank_props(lseq, u + 1);
                        }
                    },
                    None => {
                        proof {
                            lemma_first_blank_props(lseq, u + 1);
                            assert(b2g == spec_first_blank(lseq, u + 1));
                            assert(u < b2g);
                            assert(lseq.subrange(istart, b2g)[u as int - istart] == lseq[
                                u as int]);
                            lemma_id_lines_fail(lseq.subrange(istart, b2g), u as int - istart);
                        }
                        return None;
                    },
                }
                u = u + 1;
            }
        }
        proof {
            if !stop {
                assert(spec_first_blank(lseq, n as int) == n);
                assert(u as int == b2g);
            }
            assert(lseq.subrange(istart, u as int) == lseq.subrange(istart, b2g));
        }
        // sort and merge
        let sorted = sort_ranges(raw);
        let ghost sorted_seq = sorted@;
        let mut merged: Vec<(i64, i64)> = Vec::new();
        let mut w: usize = 0;
        while w < sorted.len()
            invariant
                sorted@ == sorted_seq,
                w <= sorted@.len(),
                spec_merge_fold(sorted_seq, 0, Seq::empty()) == spec_merge_fold(
                    sorted_seq,
                    w as int,
                    merged@,
                ),
            decreases sorted@.len() - w,
        {
            let r = sorted[w];
            if merged.len() == 0 {
                merged.push(r);
            } else {
                let last = merged[merged.len() - 1];
                if last.1 == i64::MAX || r.0 <= last.1 + 1 {
                    if r.1 > last.1 {
                        let li = merged.len() - 1;
                        merged[li] = (last.0, r.1);
                    }
                } else {
                    merged.push(r);
                }
            }
            w = w + 1;
        }
        proof {
            lemma_range_order_total();
            assert(is_sorted_arrangement(raw@, sorted_seq));
        }
        let result = (merged, ids);
        proof {
            assert forall|sorted2: Seq<(i64, i64)>|
                is_sorted_arrangement(raw@, sorted2) implies result.0@ == spec_merge_fold(
                sorted2,
                0,
                Seq::empty(),
            ) by {
                vstd::seq_lib::lemma_sorted_unique(sorted2, sorted_seq, range_order());
            }
        }
        Some(result)
    }
}


/// Whether some range of `rs` covers `v`.
pub open spec fn spec_covered(rs: Seq<(i64, i64)>, v: i64) -> bool {
    exists|t: int| 0 <= t < rs.len() && (#[trigger] rs[t]).0 <= v <= rs[t].1
}

/// How many of the ids are covered by the ranges.
pub open spec fn spec_covered_count(rs: Seq<(i64, i64)>, ids: Seq<i64>, k: int) -> int
    decreases ids.len() - k,
{
    if k < 0 || k >= ids.len() {
        0
    } else {
        (if spec_covered(rs, ids[k]) {
            1int
        } else {
            0int
        }) + spec_covered_count(rs, ids, k + 1)
    }
}

/// The total width of the ranges, back to front; `None` when a partial
/// sum leaves the `i128` range.
pub open spec fn spec_sizes_sum(rs: Seq<(i64, i64)>, k: int) -> Option<int>
    decreases rs.len() - k,
{
    if k < 0 || k >= rs.len() {
        Some(0)
    } else {
        match spec_sizes_sum(rs, k + 1) {
            None => None,
            Some(rest) => {
                let total = rest + rs[k].1 - rs[k].0 + 1;
                if -0x80000000000000000000000000000000 <= total
                    <= 0x7fffffffffffffffffffffffffffffff {
                    Some(total)
                } else {
                    None
                }
            },
        }
    }
}

impl Day05 {
    /// First query: how many listed ids fall inside the merged ranges.
    /// `None` exactly on malformed input.
    pub fn part1(&self, input: &str) -> (r: Option<String>)
        ensures
            ({
                let (rlines, ilines) = spec_blocks(input@);
                match r {
                    None => spec_parse_range_lines(rlines) is None || spec_parse_id_lines(
                        ilines,
                    ) is None,
                    Some(out) => {
                        &&& spec_parse_range_lines(rlines) is Some
                        &&& spec_parse_id_lines(ilines) is Some
                        &&& forall|sorted: Seq<(i64, i64)>|
                            is_sorted_arrangement(
                                spec_parse_range_lines(rlines)->Some_0,
                                sorted,
                            ) ==> out@ == spec_uint_string(
                                spec_covered_count(
                                    spec_merge_fold(sorted, 0, Seq::empty()),
                                    spec_parse_id_lines(ilines)->Some_0,
                                    0,
                                ),
                            )
                    },
                }
            }),
    {
        let (merged, ids) = match Self::parse(input) {
            Some(p) => p,
            None => {
                return None;
            },
        };
        let ghost ms = merged@;
        let ghost is_ = ids@;
        let n = ids.len();
        let mut count: usize = 0;
        let mut k: usize = n;
        while k > 0
            invariant
                ms == merged@,
                is_ == ids@,
                n == ids@.len(),
                k <= n,
                count <= n - k,
                spec_covered_count(ms, is_, k as int) == count,
            decreases k,
        {
            k = k - 1;
            let id = ids[k];
            let mut hit = false;
            let mut t: usize = 0;
            while t < merged.len()
                invariant
                    ms == merged@,
                    t <= ms.len(),
                    hit ==> spec_covered(ms, is_[k as int]),
                    !hit ==> (forall|q: int|
                        0 <= q < t ==> !((#[trigger] ms[q]).0 <= is_[k as int] <= ms[q].1)),
                    k < is_.len(),
                    id == is_[k as int],
                decreases ms.len() - t,
            {
                let rg = merged[t];
                if rg.0 <= id && id <= rg.1 {
                    hit = true;
                }
                t = t + 1;
            }
            if hit {
                count = count + 1;
            }
        }
        Some(u128_string(count as u128))
    }

    /// Second query: the total number of ids the merged ranges cover,
    /// as the sum of their widths. `None` exactly on malformed input
    /// or a sum out of the supported range.
    pub fn part2(&self, input: &str) -> (r: Option<String>)
        ensures
            ({
                let (rlines, ilines) = spec_blocks(input@);
                match r {
                    None => spec_parse_range_lines(rlines) is None || spec_parse_id_lines(
                        ilines,
                    ) is None || (forall|sorted: Seq<(i64, i64)>|
                        is_sorted_arrangement(spec_parse_range_lines(rlines)->Some_0, sorted)
                            ==> spec_sizes_sum(spec_merge_fold(sorted, 0, Seq::empty()), 0)
                            is None),
                    Some(out) => {
                        &&& spec_parse_range_lines(rlines) is Some
                        &&& spec_parse_id_lines(ilines) is Some
                        &&& forall|sorted: Seq<(i64, i64)>|
                            is_sorted_arrangement(
                                spec_parse_range_lines(rlines)->Some_0,
                                sorted,
                            ) ==> (spec_sizes_sum(spec_merge_fold(sorted, 0, Seq::empty()), 0)
                                matches Some(v) && out@ == spec_int_string(v))
                    },
                }
            }),
    {
        let (merged, _ids) = match Self::parse(input) {
            Some(p) => p,
            None => {
                return None;
            },
        };
        let ghost ms = merged@;
        let mut sum: i128 = 0;
        let mut k: usize = merged.len();
        while k > 0
            invariant
                ms == merged@,
                k <= ms.len(),
                spec_sizes_sum(ms, k as int) == Some(sum as int),
                ({
                    let (rlines, ilines) = spec_blocks(input@);
                    &&& spec_parse_range_lines(rlines) is Some
                    &&& spec_parse_id_lines(ilines) is Some
                    &&& forall|sorted: Seq<(i64, i64)>|
                        is_sorted_arrangement(spec_parse_range_lines(rlines)->Some_0, sorted)
                            ==> ms == spec_merge_fold(sorted, 0, Seq::empty())
                }),
            decreases k,
        {
            k = k - 1;
            let rg = merged[k];
            let term: i128 = rg.1 as i128 - rg.0 as i128 + 1;
            let overflow: bool = if term >= 0 {
                sum > i128::MAX - term
            } else {
                sum < i128::MIN - term
            };
            if overflow {
                proof {
                    assert(spec_sizes_sum(ms, k as int) is None);
                    lemma_sizes_none_propagates(ms, 0, k as int);
                    let (rlines, ilines) = spec_blocks(input@);
                    assert forall|sorted: Seq<(i64, i64)>|
                        is_sorted_arrangement(
                            spec_parse_range_lines(rlines)->Some_0,
                            sorted,
                        ) implies spec_sizes_sum(spec_merge_fold(sorted, 0, Seq::empty()), 0)
                        is None by {
                        assert(spec_merge_fold(sorted, 0, Seq::empty()) == ms);
                    }
                }
                return None;
            }
            sum = sum + term;
        }
        Some(i128_string(sum))
    }
}

proof fn lemma_sizes_none_propagates(rs: Seq<(i64, i64)>, j: int, k: int)
    requires
        0 <= j <= k <= rs.len(),
        spec_sizes_sum(rs, k) is None,
    ensures
        spec_sizes_sum(rs, j) is None,
    decreases k - j,
{
    if j < k {
        lemma_sizes_none_propagates(rs, j + 1, k);
    }
}

proof fn lemma_range_lines_fail(lns: Seq<Seq<char>>, k: int)
    requires
        0 <= k < lns.len(),
        spec_parse_range_line(lns[k]) is None,
    ensures
        spec_parse_range_lines(lns) is None,
    decreases lns.len(),
{
    if k < lns.len() - 1 {
        assert(lns.drop_last()[k] == lns[k]);
        lemma_range_lines_fail(lns.drop_last(), k);
    }
}

proof fn lemma_id_lines_fail(lns: Seq<Seq<char>>, k: int)
    requires
        0 <= k < lns.len(),
        spec_parse_i64(lns[k]) is None,
    ensures
        spec_parse_id_lines(lns) is None,
    decreases lns.len(),
{
    if k < lns.len() - 1 {
        assert(lns.drop_last()[k] == lns[k]);
        lemma_id_lines_fail(lns.drop_last(), k);
    }
}

} // verus!
