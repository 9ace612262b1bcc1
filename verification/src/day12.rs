//! Gift-packing puzzle: the input interleaves gift shapes (an index
//! line, then art lines until a blank) with tree regions
//! (`WxH: counts...`); the query counts regions whose gifts could fit
//! by area alone.

use vstd::prelude::*;

use crate::strutil::{
    all_digits, find_char, first_index_of, lemma_first_index_props, lines_of, parse_usize,
    spec_lines, spec_parse_usize, spec_split, spec_trim, spec_uint_string, spec_words,
    split_char, string_from_chars, to_chars, trim_chars, u128_string, words_of,
};

verus! {

pub struct Day12;

/// The first line at or after `j` that is blank once trimmed, or the
/// line count if none.
pub open spec fn spec_shape_end(lns: Seq<Seq<char>>, j: int) -> int
    decreases lns.len() - j,
{
    if j < 0 || j >= lns.len() {
        lns.len() as int
    } else if spec_trim(lns[j]).len() == 0 {
        j
    } else {
        spec_shape_end(lns, j + 1)
    }
}

pub proof fn lemma_shape_end_props(lns: Seq<Seq<char>>, j: int)
    requires
        0 <= j,
    ensures
        spec_shape_end(lns, j) <= lns.len(),
        j <= lns.len() ==> j <= spec_shape_end(lns, j),
    decreases lns.len() - j,
{
    if 0 <= j < lns.len() && spec_trim(lns[j]).len() != 0 {
        lemma_shape_end_props(lns, j + 1);
    }
}

/// The number of `#` characters in a line.
pub open spec fn count_hash(s: Seq<char>) -> int
    decreases s.len(),
{
    if s.len() == 0 {
        0
    } else {
        count_hash(s.drop_last()) + (if s.last() == '#' {
            1int
        } else {
            0int
        })
    }
}

/// The number of `#` characters in the lines `[a, b)`.
pub open spec fn count_hash_lines(lns: Seq<Seq<char>>, a: int, b: int) -> int
    decreases b - a,
{
    if a < 0 || a >= b {
        0
    } else {
        count_hash(lns[a]) + count_hash_lines(lns, a + 1, b)
    }
}

/// All fields of an `x`-separated dimension list parse as sizes.
pub open spec fn spec_dims_of(first: Seq<char>) -> Option<Seq<usize>> {
    let fields = spec_split(first, 'x');
    if exists|t: int|
        0 <= t < fields.len() && spec_parse_usize(spec_trim(#[trigger] fields[t])) is None {
        None
    } else {
        Some(Seq::new(fields.len(), |t: int| spec_parse_usize(spec_trim(fields[t]))->Some_0))
    }
}

/// All whitespace-separated count fields parse as sizes.
pub open spec fn spec_counts_of(second: Seq<char>) -> Option<Seq<usize>> {
    let ws = spec_words(second);
    if exists|t: int| 0 <= t < ws.len() && spec_parse_usize(#[trigger] ws[t]) is None {
        None
    } else {
        Some(Seq::new(ws.len(), |t: int| spec_parse_usize(ws[t])->Some_0))
    }
}

/// The parsed gifts and tree regions from line `k` on. A line whose
/// part before the first colon is all digits starts a gift: its shape
/// is every following line up to a blank one, and its area counts the
/// `#` marks. A line whose first part contains `x` is a region. Other
/// lines are skipped. `None` marks every input this walk cannot
/// handle.
pub open spec fn spec_parse12(lns: Seq<Seq<char>>, k: int) -> Option<
    (Seq<(usize, Seq<Seq<char>>, usize)>, Seq<(usize, usize, Seq<usize>)>),
>
    decreases lns.len() - k,
    via spec_parse12_dec
{
    if k < 0 || k >= lns.len() {
        Some((Seq::empty(), Seq::empty()))
    } else {
        let line = spec_trim(lns[k]);
        let ci = first_index_of(line, ':', 0);
        if line.len() == 0 || ci >= line.len() {
            spec_parse12(lns, k + 1)
        } else {
            let first = line.take(ci);
            if all_digits(first) {
                match spec_parse_usize(spec_trim(first)) {
                    None => None,
                    Some(idx) => {
                        let e = spec_shape_end(lns, k + 1);
                        let shape = lns.subrange(if k + 1 <= lns.len() {
                            k + 1
                        } else {
                            lns.len() as int
                        }, e);
                        let area = count_hash_lines(lns, k + 1, e);
                        if area > usize::MAX {
                            None
                        } else {
                            match spec_parse12(lns, e) {
                                None => None,
                                Some(r) => Some(
                                    (seq![(idx, shape, area as usize)] + r.0, r.1),
                                ),
                            }
                        }
                    },
                }
            } else if first_index_of(first, 'x', 0) < first.len() {
                match (spec_dims_of(first), spec_counts_of(line.skip(ci + 1))) {
                    (Some(dims), Some(counts)) => {
                        if dims.len() < 2 {
                            None
                        } else {
                            match spec_parse12(lns, k + 1) {
                                None => None,
                                Some(r) => Some(
                                    (r.0, seq![(dims[0], dims[1], counts)] + r.1),
                                ),
                            }
                        }
                    },
                    _ => None,
                }
            } else {
                spec_parse12(lns, k + 1)
            }
        }
    }
}

#[via_fn]
proof fn spec_parse12_dec(lns: Seq<Seq<char>>, k: int) {
    if 0 <= k < lns.len() {
        lemma_shape_end_props(lns, k + 1);
    }
}

/// Glues already-parsed items onto a pending tail.
pub open spec fn with_items(
    gs: Seq<(usize, Seq<Seq<char>>, usize)>,
    ts: Seq<(usize, usize, Seq<usize>)>,
    r: Option<(Seq<(usize, Seq<Seq<char>>, usize)>, Seq<(usize, usize, Seq<usize>)>)>,
) -> Option<(Seq<(usize, Seq<Seq<char>>, usize)>, Seq<(usize, usize, Seq<usize>)>)> {
    match r {
        None => None,
        Some(p) => Some((gs + p.0, ts + p.1)),
    }
}

/// The gifts of the exec result match the spec gifts.
pub open spec fn gifts_match(
    gv: Seq<(usize, Vec<String>, usize)>,
    gs: Seq<(usize, Seq<Seq<char>>, usize)>,
) -> bool {
    &&& gv.len() == gs.len()
    &&& forall|t: int|
        0 <= t < gv.len() ==> {
            let (iv, sv, av) = #[trigger] gv[t];
            let (is_, ss, as_) = gs[t];
            iv == is_ && av == as_ && sv@.len() == ss.len() && forall|q: int|
                0 <= q < ss.len() ==> (#[trigger] sv@[q])@ == ss[q]
        }
}

/// The regions of the exec result match the spec regions.
pub open spec fn trees_match(
    tv: Seq<(usize, usize, Vec<usize>)>,
    ts: Seq<(usize, usize, Seq<usize>)>,
) -> bool {
    &&& tv.len() == ts.len()
    &&& forall|t: int|
        0 <= t < tv.len() ==> {
            let (w, h, cv) = #[trigger] tv[t];
            let (w2, h2, cs) = ts[t];
            w == w2 && h == h2 && cv@ == cs
        }
}

impl Day12 {
    /// Parses the interleaved gift shapes and tree regions; `None`
    /// exactly where the specification's walk of the input fails.
    pub fn parse(input: &str) -> (r: Option<
        (Vec<(usize, Vec<String>, usize)>, Vec<(usize, usize, Vec<usize>)>),
    >)
        ensures
            match r {
                None => spec_parse12(spec_lines(input@), 0) is None,
                Some(p) => {
                    &&& spec_parse12(spec_lines(input@), 0) matches Some(sp)
                    &&& gifts_match(p.0@, sp.0)
                    &&& trees_match(p.1@, sp.1)
                },
            },
    {
        let cs = to_chars(input);
        let lns = lines_of(&cs);
        let ghost lseq = spec_lines(input@);
        let n = lns.len();
        let mut gifts: Vec<(usize, Vec<String>, usize)> = Vec::new();
        let mut trees: Vec<(usize, usize, Vec<usize>)> = Vec::new();
        let ghost gdone: Seq<(usize, Seq<Seq<char>>, usize)> = Seq::empty();
        let mut k: usize = 0;
        while k < n
            invariant
                lseq == spec_lines(input@),
                lns@.len() == lseq.len(),
                n == lseq.len(),
                forall|t: int| 0 <= t < lns@.len() ==> (#[trigger] lns@[t])@ == lseq[t],
                k <= n,
                ({
                    let gs = Seq::new(gifts@.len(), |t: int| {
                        let (iv, sv, av) = gifts@[t];
                        (iv, Seq::new(sv@.len(), |q: int| sv@[q]@), av)
                    });
                    let ts = Seq::new(trees@.len(), |t: int| {
                        let (w, h, cv) = trees@[t];
                        (w, h, cv@)
                    });
                    spec_parse12(lseq, 0) == with_items(gs, ts, spec_parse12(lseq, k as int))
                }),
            decreases n - k,
        {
            let ghost gs0 = Seq::new(gifts@.len(), |t: int| {
                let (iv, sv, av) = gifts@[t];
                (iv, Seq::new(sv@.len(), |q: int| sv@[q]@), av)
            });
            let ghost ts0 = Seq::new(trees@.len(), |t: int| {
                let (w, h, cv) = trees@[t];
                (w, h, cv@)
            });
            let line = trim_chars(&lns[k]);
            let ci = find_char(&line, ':');
            if line.len() == 0 || ci >= line.len() {
                k = k + 1;
                continue;
            }
            let mut first: Vec<char> = Vec::new();
            let mut q: usize = 0;
            while q < ci
                invariant
                    q <= ci,
                    ci <= line@.len(),
                    first@ == line@.take(ci as int).take(q as int),
                decreases ci - q,
            {
                first.push(line[q]);
                proof {
                    assert(first@ =~= line@.take(ci as int).take(q + 1));
                }
                q = q + 1;
            }
            proof {
                assert(first@ =~= line@.take(ci as int));
            }
            // is the first part all digits?
            let mut digits_only = true;
            let mut t: usize = 0;
            while t < first.len()
                invariant
                    t <= first@.len(),
                    digits_only == (forall|u: int|
                        0 <= u < t ==> crate::strutil::is_digit(#[trigger] first@[u])),
                decreases first@.len() - t,
            {
                let c = first[t];
                if !(c >= '0' && c <= '9') {
                    digits_only = false;
                }
                t = t + 1;
            }
            if digits_only {
                // a gift: index, then shape lines up to a blank line
                let idx = match parse_usize(&trim_chars(&first)) {
                    Some(v) => v,
                    None => {
                        return None;
                    },
                };
                let mut shape: Vec<String> = Vec::new();
                let ghost e = spec_shape_end(lseq, k + 1);
                let mut area: u128 = 0;
                let mut j: usize = k + 1;
                proof {
                    lemma_shape_end_props(lseq, k + 1);
                }
                while j < n && trim_chars(&lns[j]).len() > 0
                    invariant
                        lseq == spec_lines(input@),
                        k < lseq.len(),
                        n == lseq.len(),
                        line@ == spec_trim(lseq[k as int]),
                        line@.len() > 0,
                        ci as int == first_index_of(line@, ':', 0),
                        ci < line@.len(),
                        first@ == line@.take(ci as int),
                        gs0 == Seq::new(gifts@.len(), |t9: int| {
                            let (iv, sv, av) = gifts@[t9];
                            (iv, Seq::new(sv@.len(), |q9: int| sv@[q9]@), av)
                        }),
                        ts0 == Seq::new(trees@.len(), |t9: int| {
                            let (w9, h9, cv) = trees@[t9];
                            (w9, h9, cv@)
                        }),
                        spec_parse12(lseq, 0) == with_items(gs0, ts0, spec_parse12(
                            lseq,
                            k as int,
                        )),
                        lns@.len() == lseq.len(),
                        forall|t2: int| 0 <= t2 < lns@.len() ==> (#[trigger] lns@[t2])@ == lseq[
                            t2],
                        all_digits(first@),
                        spec_parse_usize(spec_trim(first@)) == Some(idx),
                        k + 1 <= j <= n,
                        k < n,
                        e == spec_shape_end(lseq, k + 1),
                        spec_shape_end(lseq, j as int) == e,
                        j <= e,
                        shape@.len() == j - (k + 1),
                        forall|t2: int|
                            0 <= t2 < shape@.len() ==> (#[trigger] shape@[t2])@ == lseq[k + 1
                                + t2],
                        area == count_hash_lines(lseq, k + 1, j as int),
                        area <= usize::MAX as u128,
                    decreases n - j,
                {
                    let raw = &lns[j];
                    let mut rowhash: u128 = 0;
                    let mut h: usize = raw.len();
                    proof {
                        assert(raw@.take(raw@.len() as int) =~= raw@);
                    }
                    while h > 0
                        invariant
                            h <= raw@.len(),
                            raw@.len() <= usize::MAX,
                            rowhash as int == count_hash(raw@) - count_hash(raw@.take(h as int)),
                            rowhash <= raw@.len() - h,
                        decreases h,
                    {
                        proof {
                            assert(raw@.take(h as int).drop_last() =~= raw@.take(h - 1));
                            assert(raw@.take(h as int).last() == raw@[h - 1]);
                            lemma_count_hash_nonneg(raw@.take(h - 1));
                            lemma_count_hash_le(raw@.take(h - 1));
                        }
                        h = h - 1;
                        if raw[h] == '#' {
                            rowhash = rowhash + 1;
                        }
                    }
                    proof {
                        assert(raw@.take(0) =~= Seq::<char>::empty());
                        lemma_count_hash_nonneg(raw@);
                        lemma_count_hash_le(raw@);
                        lemma_count_hash_lines_step(lseq, k + 1, j as int);
                    }
                    shape.push(string_from_chars(raw));
                    area = area + rowhash;
                    proof {
                        lemma_shape_end_props(lseq, j + 1);
                    }
                    j = j + 1;
                    if area > usize::MAX as u128 {
                        proof {
                            lemma_shape_end_props(lseq, j as int);
                            lemma_count_hash_lines_mono(lseq, k + 1, j as int, e);
                            assert(spec_parse12(lseq, k as int) is None);
                        }
                        return None;
                    }
                }
                proof {
                    if j < n {
                        assert(spec_trim(lseq[j as int]).len() == 0);
                    }
                    assert(j as int == e);
                }
                let ghost g = (idx, lseq.subrange(k + 1 as int, e), area as usize);
                gifts.push((idx, shape, area as usize));
                proof {
                    let gs1 = Seq::new(gifts@.len(), |t2: int| {
                        let (iv, sv, av) = gifts@[t2];
                        (iv, Seq::new(sv@.len(), |q2: int| sv@[q2]@), av)
                    });
                    assert(gs1 =~~= gs0.push(g));
                    assert(gs0 + (seq![g] + spec_parse12(lseq, e)->Some_0.0) =~= gs1
                        + spec_parse12(lseq, e)->Some_0.0);
                }
                k = j;
            } else {
                // maybe a region: the first part must contain an x
                let xat = find_char(&first, 'x');
                if xat >= first.len() {
                    proof {
                        lemma_first_index_props(first@, 'x', 0);
                    }
                    k = k + 1;
                    continue;
                }
                let dim_fields = split_char(&first, 'x');
                let mut dims: Vec<usize> = Vec::new();
                let mut f: usize = 0;
                while f < dim_fields.len()
                    invariant
                        lseq == spec_lines(input@),
                        k < lseq.len(),
                        n == lseq.len(),
                        line@ == spec_trim(lseq[k as int]),
                        line@.len() > 0,
                        ci as int == first_index_of(line@, ':', 0),
                        ci < line@.len(),
                        first@ == line@.take(ci as int),
                        gs0 == Seq::new(gifts@.len(), |t9: int| {
                            let (iv, sv, av) = gifts@[t9];
                            (iv, Seq::new(sv@.len(), |q9: int| sv@[q9]@), av)
                        }),
                        ts0 == Seq::new(trees@.len(), |t9: int| {
                            let (w9, h9, cv) = trees@[t9];
                            (w9, h9, cv@)
                        }),
                        spec_parse12(lseq, 0) == with_items(gs0, ts0, spec_parse12(
                            lseq,
                            k as int,
                        )),
                        !all_digits(first@),
                        first_index_of(first@, 'x', 0) < first@.len(),
                        f <= dim_fields@.len(),
                        dim_fields@.len() == spec_split(first@, 'x').len(),
                        forall|t2: int|
                            0 <= t2 < dim_fields@.len() ==> (#[trigger] dim_fields@[t2])@
                                == spec_split(first@, 'x')[t2],
                        dims@.len() == f,
                        forall|t2: int|
                            0 <= t2 < f ==> spec_parse_usize(
                                spec_trim(#[trigger] spec_split(first@, 'x')[t2]),
                            ) == Some(dims@[t2]),
                    decreases dim_fields@.len() - f,
                {
                    match parse_usize(&trim_chars(&dim_fields[f])) {
                        Some(v) => {
                            dims.push(v);
                        },
                        None => {
                            proof {
                                assert(spec_parse_usize(
                                    spec_trim(spec_split(first@, 'x')[f as int]),
                                ) is None);
                                assert(spec_dims_of(first@) is None);
                                assert(spec_parse12(lseq, k as int) is None);
                            }
                            return None;
                        },
                    }
                    f = f + 1;
                }
                proof {
                    assert(spec_dims_of(first@) matches Some(ds) && ds =~= dims@);
                }
                if dims.len() < 2 {
                    return None;
                }
                let mut second: Vec<char> = Vec::new();
                let mut w: usize = ci + 1;
                while w < line.len()
                    invariant
                        ci < line@.len(),
                        ci + 1 <= w <= line@.len(),
                        second@ == line@.skip(ci + 1).take(w - ci - 1),
                    decreases line@.len() - w,
                {
                    second.push(line[w]);
                    proof {
                        assert(second@ =~= line@.skip(ci + 1).take(w - ci as int));
                    }
                    w = w + 1;
                }
                proof {
                    assert(second@ =~= line@.skip(ci + 1));
                }
                let wordsv = words_of(&second);
                let mut counts: Vec<usize> = Vec::new();
                let mut f2: usize = 0;
                while f2 < wordsv.len()
                    invariant
                        lseq == spec_lines(input@),
                        k < lseq.len(),
                        n == lseq.len(),
                        line@ == spec_trim(lseq[k as int]),
                        line@.len() > 0,
                        ci as int == first_index_of(line@, ':', 0),
                        ci < line@.len(),
                        first@ == line@.take(ci as int),
                        gs0 == Seq::new(gifts@.len(), |t9: int| {
                            let (iv, sv, av) = gifts@[t9];
                            (iv, Seq::new(sv@.len(), |q9: int| sv@[q9]@), av)
                        }),
                        ts0 == Seq::new(trees@.len(), |t9: int| {
                            let (w9, h9, cv) = trees@[t9];
                            (w9, h9, cv@)
                        }),
                        spec_parse12(lseq, 0) == with_items(gs0, ts0, spec_parse12(
                            lseq,
                            k as int,
                        )),
                        !all_digits(first@),
                        first_index_of(first@, 'x', 0) < first@.len(),
                        spec_dims_of(first@) is Some,
                        second@ == line@.skip(ci + 1),
                        f2 <= wordsv@.len(),
                        wordsv@.len() == spec_words(second@).len(),
                        forall|t2: int|
                            0 <= t2 < wordsv@.len() ==> (#[trigger] wordsv@[t2])@ == spec_words(
                                second@,
                            )[t2],
                        counts@.len() == f2,
                        forall|t2: int|
                            0 <= t2 < f2 ==> spec_parse_usize(
                                #[trigger] spec_words(second@)[t2],
                            ) == Some(counts@[t2]),
                    decreases wordsv@.len() - f2,
                {
                    match parse_usize(&wordsv[f2]) {
                        Some(v) => {
                            counts.push(v);
                        },
                        None => {
                            proof {
                                assert(spec_parse_usize(
                                    spec_words(second@)[f2 as int],
                                ) is None);
                                assert(spec_counts_of(line@.skip(ci + 1)) is None);
                                assert(spec_parse12(lseq, k as int) is None);
                            }
                            return None;
                        },
                    }
                    f2 = f2 + 1;
                }
                let d0 = dims[0];
                let d1 = dims[1];
                let ghost tr = (d0, d1, counts@);
                trees.push((d0, d1, counts));
                proof {
                    assert(spec_counts_of(line@.skip(ci + 1)) matches Some(cs) && cs =~= tr.2);
                    let ts1 = Seq::new(trees@.len(), |t2: int| {
                        let (w2, h2, cv) = trees@[t2];
                        (w2, h2, cv@)
                    });
                    assert(ts1 =~~= ts0.push(tr));
                    assert(ts0 + (seq![tr] + spec_parse12(lseq, k + 1)->Some_0.1) =~= ts1
                        + spec_parse12(lseq, k + 1)->Some_0.1);
                }
                k = k + 1;
            }
        }
        proof {
            let gs = Seq::new(gifts@.len(), |t: int| {
                let (iv, sv, av) = gifts@[t];
                (iv, Seq::new(sv@.len(), |q: int| sv@[q]@), av)
            });
            let ts = Seq::new(trees@.len(), |t: int| {
                let (w, h, cv) = trees@[t];
                (w, h, cv@)
            });
            assert(gs + Seq::<(usize, Seq<Seq<char>>, usize)>::empty() =~= gs);
            assert(ts + Seq::<(usize, usize, Seq<usize>)>::empty() =~= ts);
        }
        Some((gifts, trees))
    }
}


/// The tile count a region needs: each listed count times the area of
/// the gift with that position; `None` when a count has no gift or a
/// partial sum leaves the machine-size range.
pub open spec fn spec_need(
    gifts: Seq<(usize, Seq<Seq<char>>, usize)>,
    counts: Seq<usize>,
    i: int,
) -> Option<int>
    decreases counts.len() - i,
{
    if i < 0 || i >= counts.len() {
        Some(0)
    } else if i >= gifts.len() {
        None
    } else {
        match spec_need(gifts, counts, i + 1) {
            None => None,
            Some(rest) => {
                let total = rest + counts[i] * gifts[i].2;
                if total > usize::MAX {
                    None
                } else {
                    Some(total)
                }
            },
        }
    }
}

/// How many regions could fit their gifts by area alone.
pub open spec fn spec_fit_count(
    gifts: Seq<(usize, Seq<Seq<char>>, usize)>,
    trees: Seq<(usize, usize, Seq<usize>)>,
    k: int,
) -> Option<int>
    decreases trees.len() - k,
{
    if k < 0 || k >= trees.len() {
        Some(0)
    } else {
        let (w, h, counts) = trees[k];
        match (spec_need(gifts, counts, 0), spec_fit_count(gifts, trees, k + 1)) {
            (Some(need), Some(rest)) => {
                if w * h > usize::MAX {
                    None
                } else {
                    Some((if need <= w * h {
                        1int
                    } else {
                        0int
                    }) + rest)
                }
            },
            _ => None,
        }
    }
}

proof fn lemma_fit_nonneg(
    gifts: Seq<(usize, Seq<Seq<char>>, usize)>,
    trees: Seq<(usize, usize, Seq<usize>)>,
    k: int,
)
    ensures
        spec_fit_count(gifts, trees, k) matches Some(v) ==> 0 <= v,
    decreases trees.len() - k,
{
    if 0 <= k < trees.len() {
        lemma_fit_nonneg(gifts, trees, k + 1);
    }
}

impl Day12 {
    /// First query: how many regions pass the area feasibility test.
    /// `None` exactly on malformed input or arithmetic out of range.
    pub fn part1(&self, input: &str) -> (r: Option<String>)
        ensures
            match r {
                None => spec_parse12(spec_lines(input@), 0) is None || (spec_parse12(
                    spec_lines(input@),
                    0,
                ) matches Some(sp) && spec_fit_count(sp.0, sp.1, 0) is None),
                Some(out) => {
                    &&& spec_parse12(spec_lines(input@), 0) matches Some(sp)
                    &&& spec_fit_count(sp.0, sp.1, 0) matches Some(v) && out@
                        == spec_uint_string(v)
                },
            },
    {
        let (gifts, trees) = match Self::parse(input) {
            Some(p) => p,
            None => {
                return None;
            },
        };
        let ghost sp = spec_parse12(spec_lines(input@), 0)->Some_0;
        let nt = trees.len();
        let mut fit: usize = 0;
        let mut k: usize = nt;
        while k > 0
            invariant
                spec_parse12(spec_lines(input@), 0) == Some(sp),
                gifts_match(gifts@, sp.0),
                trees_match(trees@, sp.1),
                nt == trees@.len(),
                k <= nt,
                fit <= nt - k,
                spec_fit_count(sp.0, sp.1, k as int) == Some(fit as int),
            decreases k,
        {
            k = k - 1;
            let (w, h, counts) = &trees[k];
            proof {
                assert(trees@[k as int].2@ == sp.1[k as int].2);
            }
            let mut need: u128 = 0;
            let nc = counts.len();
            let mut i: usize = nc;
            while i > 0
                invariant
                    spec_parse12(spec_lines(input@), 0) == Some(sp),
                    gifts_match(gifts@, sp.0),
                    trees_match(trees@, sp.1),
                    k < trees@.len(),
                    counts@ == sp.1[k as int].2,
                    nc == counts@.len(),
                    i <= nc,
                    spec_need(sp.0, sp.1[k as int].2, i as int) == Some(need as int),
                    need <= usize::MAX as u128,
                decreases i,
            {
                i = i - 1;
                if i >= gifts.len() {
                    proof {
                        assert(spec_need(sp.0, sp.1[k as int].2, i as int) is None);
                        lemma_need_none(sp.0, sp.1[k as int].2, 0, i as int);
                        lemma_fit_none(sp.0, sp.1, 0, k as int);
                    }
                    return None;
                }
                let c = counts[i];
                let area = gifts[i].2;
                proof {
                    assert(gifts@[i as int].2 == sp.0[i as int].2);
                }
                proof {
                    lemma_mul_usize_bound(c as int, area as int);
                }
                let add: u128 = (c as u128) * (area as u128);
                need = need + add;
                if need > usize::MAX as u128 {
                    proof {
                        assert(spec_need(sp.0, sp.1[k as int].2, i as int) is None);
                        lemma_need_none(sp.0, sp.1[k as int].2, 0, i as int);
                        lemma_fit_none(sp.0, sp.1, 0, k as int);
                    }
                    return None;
                }
            }
            proof {
                lemma_mul_usize_bound(*w as int, *h as int);
                assert(trees@[k as int].0 == sp.1[k as int].0);
                assert(trees@[k as int].1 == sp.1[k as int].1);
            }
            let room: u128 = (*w as u128) * (*h as u128);
            if room > usize::MAX as u128 {
                proof {
                    lemma_fit_none(sp.0, sp.1, 0, k as int);
                }
                return None;
            }
            if need <= room {
                fit = fit + 1;
            }
        }
        proof {
            lemma_fit_nonneg(sp.0, sp.1, 0);
        }
        Some(u128_string(fit as u128))
    }
}

/// A product of two machine sizes fits in twice the width.
proof fn lemma_mul_usize_bound(a: int, b: int)
    requires
        0 <= a <= 0xffffffffffffffff,
        0 <= b <= 0xffffffffffffffff,
    ensures
        0 <= a * b <= 0xfffffffffffffffe0000000000000001,
{
    assert(0 <= a * b <= 0xfffffffffffffffe0000000000000001) by (nonlinear_arith)
        requires
            0 <= a <= 0xffffffffffffffff && 0 <= b <= 0xffffffffffffffff,
    ;
}

proof fn lemma_need_none(
    gifts: Seq<(usize, Seq<Seq<char>>, usize)>,
    counts: Seq<usize>,
    j: int,
    i: int,
)
    requires
        0 <= j <= i <= counts.len(),
        spec_need(gifts, counts, i) is None,
    ensures
        spec_need(gifts, counts, j) is None,
    decreases i - j,
{
    if j < i {
        lemma_need_none(gifts, counts, j + 1, i);
    }
}

proof fn lemma_fit_none(
    gifts: Seq<(usize, Seq<Seq<char>>, usize)>,
    trees: Seq<(usize, usize, Seq<usize>)>,
    j: int,
    k: int,
)
    requires
        0 <= j <= k < trees.len(),
        ({
            let (w, h, counts) = trees[k];
            spec_need(gifts, counts, 0) is None || w * h > usize::MAX
        }),
    ensures
        spec_fit_count(gifts, trees, j) is None,
    decreases k - j,
{
    if j < k {
        lemma_fit_none(gifts, trees, j + 1, k);
    }
}

proof fn lemma_count_hash_nonneg(s: Seq<char>)
    ensures
        count_hash(s) >= 0,
    decreases s.len(),
{
    if s.len() > 0 {
        lemma_count_hash_nonneg(s.drop_last());
    }
}

proof fn lemma_count_hash_le(s: Seq<char>)
    ensures
        count_hash(s) <= s.len(),
    decreases s.len(),
{
    if s.len() > 0 {
        lemma_count_hash_le(s.drop_last());
    }
}

proof fn lemma_count_hash_lines_step(lns: Seq<Seq<char>>, a: int, j: int)
    requires
        0 <= a <= j,
    ensures
        count_hash_lines(lns, a, j + 1) == count_hash_lines(lns, a, j) + count_hash(lns[j]),
    decreases j - a,
{
    if a < j {
        lemma_count_hash_lines_step(lns, a + 1, j);
        assert(count_hash_lines(lns, a, j + 1) == count_hash(lns[a]) + count_hash_lines(
            lns,
            a + 1,
            j + 1,
        ));
        assert(count_hash_lines(lns, a, j) == count_hash(lns[a]) + count_hash_lines(
            lns,
            a + 1,
            j,
        ));
    } else {
        assert(count_hash_lines(lns, a + 1, j + 1) == 0);
        assert(count_hash_lines(lns, a, j) == 0);
        assert(count_hash_lines(lns, a, j + 1) == count_hash(lns[a]) + count_hash_lines(
            lns,
            a + 1,
            j + 1,
        ));
    }
}

/// More shape lines only add to the hash count.
proof fn lemma_count_hash_lines_mono(lns: Seq<Seq<char>>, a: int, b1: int, b2: int)
    requires
        0 <= a,
        b1 <= b2,
    ensures
        count_hash_lines(lns, a, b1) <= count_hash_lines(lns, a, b2),
    decreases b2 - a,
{
    if a < b2 {
        if a < b1 {
            lemma_count_hash_lines_mono(lns, a + 1, b1, b2);
        } else {
            lemma_count_hash_nonneg(lns[a]);
            lemma_count_hash_lines_nonneg(lns, a + 1, b2);
        }
    }
}

proof fn lemma_count_hash_lines_nonneg(lns: Seq<Seq<char>>, a: int, b: int)
    ensures
        count_hash_lines(lns, a, b) >= 0,
    decreases b - a,
{
    if 0 <= a < b {
        lemma_count_hash_nonneg(lns[a]);
        lemma_count_hash_lines_nonneg(lns, a + 1, b);
    }
}

} // verus!
