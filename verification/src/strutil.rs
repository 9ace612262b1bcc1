//! Verified text utilities shared by the puzzle parsers: splitting,
//! line iteration, trimming, integer parsing and integer formatting,
//! all specified over character sequences.

use vstd::prelude::*;
use vstd::string::StrSliceExecFns;

verus! {

broadcast use vstd::seq_lib::group_seq_properties;

/// ASCII whitespace, the only whitespace the puzzle inputs use.
pub open spec fn is_space(c: char) -> bool {
    c == ' ' || c == '\t' || c == '\r' || c == '\n'
}

pub fn is_space_exec(c: char) -> (r: bool)
    ensures
        r == is_space(c),
{
    c == ' ' || c == '\t' || c == '\r' || c == '\n'
}

/// Reads the characters of a string into a vector.
pub fn to_chars(s: &str) -> (out: Vec<char>)
    ensures
        out@ == s@,
{
    let n = s.unicode_len();
    let mut out: Vec<char> = Vec::new();
    let mut i: usize = 0;
    while i < n
        invariant
            n == s@.len(),
            i <= n,
            out@ == s@.take(i as int),
        decreases n - i,
    {
        let c = s.get_char(i);
        out.push(c);
        proof {
            assert(out@ =~= s@.take(i + 1));
        }
        i = i + 1;
    }
    proof {
        assert(s@.take(n as int) =~= s@);
    }
    out
}

/// Relies on `String::from_iter`: builds the string holding exactly
/// the given characters, in order.
#[verifier::external_body]
pub fn string_from_chars(cs: &Vec<char>) -> (r: String)
    ensures
        r@ == cs@,
{
    String::from_iter(cs.iter().copied())
}

/// Splitting at a separator: the token before the first separator,
/// then the split of what follows. An empty input yields one empty
/// token, so the result always has one more token than separators.
pub open spec fn spec_split(s: Seq<char>, sep: char) -> Seq<Seq<char>>
    decreases s.len(),
{
    if s.len() == 0 {
        seq![Seq::<char>::empty()]
    } else if s[0] == sep {
        seq![Seq::<char>::empty()] + spec_split(s.drop_first(), sep)
    } else {
        let r = spec_split(s.drop_first(), sep);
        seq![seq![s[0]] + r[0]] + r.drop_first()
    }
}

pub proof fn lemma_split_nonempty(s: Seq<char>, sep: char)
    ensures
        spec_split(s, sep).len() >= 1,
    decreases s.len(),
{
    if s.len() > 0 {
        lemma_split_nonempty(s.drop_first(), sep);
    }
}

/// Splits into tokens at every occurrence of `sep`.
pub fn split_char(s: &Vec<char>, sep: char) -> (out: Vec<Vec<char>>)
    ensures
        out@.len() == spec_split(s@, sep).len(),
        forall|k: int| 0 <= k < out@.len() ==> (#[trigger] out@[k])@ == spec_split(s@, sep)[k],
{
    let ghost whole = spec_split(s@, sep);
    let mut out: Vec<Vec<char>> = Vec::new();
    let mut cur: Vec<char> = Vec::new();
    let mut i: usize = 0;
    proof {
        lemma_split_nonempty(s@, sep);
    }
    while i < s.len()
        invariant
            i <= s@.len(),
            whole == spec_split(s@, sep),
            ({
                let rest = spec_split(s@.skip(i as int), sep);
                &&& whole =~= out@.map_values(|v: Vec<char>| v@) + seq![cur@ + rest[0]]
                    + rest.drop_first()
                &&& rest.len() >= 1
            }),
        decreases s@.len() - i,
    {
        let ghost rest = spec_split(s@.skip(i as int), sep);
        let ghost tail = spec_split(s@.skip(i + 1), sep);
        proof {
            lemma_split_nonempty(s@.skip(i + 1), sep);
            assert(s@.skip(i as int).len() > 0);
            assert(s@.skip(i as int)[0] == s@[i as int]);
            assert(s@.skip(i as int).drop_first() =~= s@.skip(i + 1));
        }
        let c = s[i];
        if c == sep {
            proof {
                assert(rest =~= seq![Seq::<char>::empty()] + tail);
                assert(rest[0] =~= Seq::<char>::empty());
                assert(rest.drop_first() =~= tail);
                assert((out@.push(cur)).map_values(|v: Vec<char>| v@) =~= out@.map_values(
                    |v: Vec<char>| v@,
                ).push(cur@));
                assert(cur@ + rest[0] =~= cur@);
            }
            out.push(cur);
            cur = Vec::new();
            proof {
                assert(whole =~= out@.map_values(|v: Vec<char>| v@) + seq![cur@ + tail[0]]
                    + tail.drop_first());
            }
        } else {
            let ghost cur0 = cur@;
            cur.push(c);
            proof {
                assert(rest =~= seq![seq![s@[i as int]] + tail[0]] + tail.drop_first());
                assert(rest[0] =~= seq![s@[i as int]] + tail[0]);
                assert(cur@ =~= cur0.push(c));
                assert(cur0 + rest[0] =~= cur@ + tail[0]);
                assert(rest.drop_first() =~= tail.drop_first());
                assert(whole =~= out@.map_values(|v: Vec<char>| v@) + seq![cur@ + tail[0]]
                    + tail.drop_first());
            }
        }
        i = i + 1;
    }
    proof {
        let rest = spec_split(s@.skip(s@.len() as int), sep);
        assert(s@.skip(s@.len() as int) =~= Seq::<char>::empty());
        assert(rest =~= seq![Seq::<char>::empty()]);
        assert(cur@ + rest[0] =~= cur@);
        assert(rest.drop_first() =~= Seq::<Seq<char>>::empty());
        assert(whole =~= out@.map_values(|v: Vec<char>| v@).push(cur@));
        assert((out@.push(cur)).map_values(|v: Vec<char>| v@) =~= out@.map_values(
            |v: Vec<char>| v@,
        ).push(cur@));
    }
    out.push(cur);
    proof {
        assert forall|k: int| 0 <= k < out@.len() implies (#[trigger] out@[k])@ == spec_split(
            s@,
            sep,
        )[k] by {
            assert(out@.map_values(|v: Vec<char>| v@)[k] == out@[k]@);
        }
    }
    out
}

/// A token with its trailing carriage return removed, if any.
pub open spec fn strip_cr(t: Seq<char>) -> Seq<char> {
    if t.len() > 0 && t.last() == '\r' {
        t.drop_last()
    } else {
        t
    }
}

/// The lines of a text: tokens split at newlines, each line ending's
/// carriage return stripped, and the final line ending optional.
pub open spec fn spec_lines(s: Seq<char>) -> Seq<Seq<char>> {
    if s.len() == 0 {
        Seq::empty()
    } else {
        let ts = spec_split(s, '\n');
        let ts2 = if s.last() == '\n' {
            ts.drop_last()
        } else {
            ts
        };
        Seq::new(
            ts2.len(),
            |k: int| if k < ts2.len() - 1 || s.last() == '\n' {
                strip_cr(ts2[k])
            } else {
                ts2[k]
            },
        )
    }
}

/// Splits a text into its lines.
pub fn lines_of(s: &Vec<char>) -> (out: Vec<Vec<char>>)
    ensures
        out@.len() == spec_lines(s@).len(),
        forall|k: int| 0 <= k < out@.len() ==> (#[trigger] out@[k])@ == spec_lines(s@)[k],
{
    let mut out: Vec<Vec<char>> = Vec::new();
    if s.len() == 0 {
        return out;
    }
    let mut toks = split_char(s, '\n');
    let ghost ts = spec_split(s@, '\n');
    proof {
        lemma_split_nonempty(s@, '\n');
    }
    let ends_nl = s[s.len() - 1] == '\n';
    if ends_nl {
        toks.pop();
    }
    let ghost ts2 = if s@.last() == '\n' {
        ts.drop_last()
    } else {
        ts
    };
    let m = toks.len();
    let mut k: usize = 0;
    while k < m
        invariant
            ts == spec_split(s@, '\n'),
            ts2 == (if s@.last() == '\n' {
                ts.drop_last()
            } else {
                ts
            }),
            m == ts2.len(),
            k <= m,
            ends_nl == (s@.last() == '\n'),
            s@.len() > 0,
            toks@.len() == m,
            forall|t: int| 0 <= t < m ==> (#[trigger] toks@[t])@ == ts2[t],
            out@.len() == k,
            forall|t: int| 0 <= t < k ==> (#[trigger] out@[t])@ == spec_lines(s@)[t],
        decreases m - k,
    {
        let tok = &toks[k];
        if (k + 1 < m || ends_nl) && tok.len() > 0 && tok[tok.len() - 1] == '\r' {
            let mut stripped = Vec::new();
            let mut q: usize = 0;
            while q < tok.len() - 1
                invariant
                    q <= tok@.len() - 1,
                    tok@.len() > 0,
                    stripped@ == tok@.take(q as int),
                decreases tok@.len() - q,
            {
                stripped.push(tok[q]);
                proof {
                    assert(stripped@ =~= tok@.take(q + 1));
                }
                q = q + 1;
            }
            proof {
                assert(tok@.take(tok@.len() - 1) =~= tok@.drop_last());
                assert(spec_lines(s@)[k as int] == strip_cr(ts2[k as int]));
            }
            out.push(stripped);
        } else {
            proof {
                if k + 1 < m || ends_nl {
                    assert(spec_lines(s@)[k as int] == strip_cr(ts2[k as int]));
                    assert(strip_cr(ts2[k as int]) == ts2[k as int]);
                } else {
                    assert(spec_lines(s@)[k as int] == ts2[k as int]);
                }
            }
            let copy = copy_chars(tok);
            out.push(copy);
        }
        k = k + 1;
    }
    out
}

/// Copies a character vector.
pub fn copy_chars(v: &Vec<char>) -> (out: Vec<char>)
    ensures
        out@ == v@,
{
    let mut out: Vec<char> = Vec::new();
    let mut i: usize = 0;
    while i < v.len()
        invariant
            i <= v@.len(),
            out@ == v@.take(i as int),
        decreases v@.len() - i,
    {
        out.push(v[i]);
        proof {
            assert(out@ =~= v@.take(i + 1));
        }
        i = i + 1;
    }
    proof {
        assert(v@.take(v@.len() as int) =~= v@);
    }
    out
}

/// Leading whitespace removed.
pub open spec fn trim_start(s: Seq<char>) -> Seq<char>
    decreases s.len(),
{
    if s.len() > 0 && is_space(s[0]) {
        trim_start(s.drop_first())
    } else {
        s
    }
}

/// Trailing whitespace removed.
pub open spec fn trim_end(s: Seq<char>) -> Seq<char>
    decreases s.len(),
{
    if s.len() > 0 && is_space(s.last()) {
        trim_end(s.drop_last())
    } else {
        s
    }
}

/// Whitespace removed from both ends.
pub open spec fn spec_trim(s: Seq<char>) -> Seq<char> {
    trim_end(trim_start(s))
}

proof fn lemma_trim_start_skip(s: Seq<char>, a: int)
    requires
        0 <= a <= s.len(),
        forall|t: int| 0 <= t < a ==> is_space(#[trigger] s[t]),
        a < s.len() ==> !is_space(s[a]),
    ensures
        trim_start(s) == s.skip(a),
    decreases a,
{
    if a == 0 {
        if s.len() > 0 {
            assert(!is_space(s[0]));
        }
        assert(s.skip(0) =~= s);
    } else {
        assert(is_space(s[0]));
        lemma_trim_start_skip(s.drop_first(), a - 1);
        assert(s.drop_first().skip(a - 1) =~= s.skip(a));
    }
}

proof fn lemma_trim_end_take(s: Seq<char>, b: int)
    requires
        0 <= b <= s.len(),
        forall|t: int| b <= t < s.len() ==> is_space(#[trigger] s[t]),
        b > 0 ==> !is_space(s[b - 1]),
    ensures
        trim_end(s) == s.take(b),
    decreases s.len() - b,
{
    if b == s.len() {
        if s.len() > 0 {
            assert(!is_space(s.last()));
        }
        assert(s.take(b) =~= s);
    } else {
        assert(is_space(s.last()));
        lemma_trim_end_take(s.drop_last(), b);
        assert(s.drop_last().take(b) =~= s.take(b));
    }
}

/// Removes ASCII whitespace from both ends.
pub fn trim_chars(s: &Vec<char>) -> (out: Vec<char>)
    ensures
        out@ == spec_trim(s@),
{
    let n = s.len();
    let mut a: usize = 0;
    while a < n && is_space_exec(s[a])
        invariant
            n == s@.len(),
            a <= n,
            forall|t: int| 0 <= t < a ==> is_space(#[trigger] s@[t]),
        decreases n - a,
    {
        a = a + 1;
    }
    let mut b: usize = n;
    while b > a && is_space_exec(s[b - 1])
        invariant
            n == s@.len(),
            a <= b <= n,
            forall|t: int| b <= t < n ==> is_space(#[trigger] s@[t]),
        decreases b,
    {
        b = b - 1;
    }
    let mut out: Vec<char> = Vec::new();
    let mut i: usize = a;
    while i < b
        invariant
            a <= i <= b <= n,
            n == s@.len(),
            out@ == s@.subrange(a as int, i as int),
        decreases b - i,
    {
        out.push(s[i]);
        proof {
            assert(out@ =~= s@.subrange(a as int, i + 1));
        }
        i = i + 1;
    }
    proof {
        lemma_trim_start_skip(s@, a as int);
        if b == a {
            lemma_trim_end_take(s@.skip(a as int), 0);
        } else {
            assert(!is_space(s@[b - 1]));
            assert forall|t: int| b - a <= t < s@.skip(a as int).len() implies is_space(
                #[trigger] s@.skip(a as int)[t],
            ) by {
                assert(s@.skip(a as int)[t] == s@[t + a]);
            }
            assert(s@.skip(a as int)[b - a - 1] == s@[b - 1]);
            lemma_trim_end_take(s@.skip(a as int), b - a as int);
        }
        assert(s@.skip(a as int).take(b - a as int) =~= s@.subrange(a as int, b as int));
    }
    out
}


/// The position of the first character satisfying "is a space", or the
/// length if none.
pub open spec fn first_space(s: Seq<char>, k: int) -> int
    decreases s.len() - k,
{
    if k < 0 || k >= s.len() {
        s.len() as int
    } else if is_space(s[k]) {
        k
    } else {
        first_space(s, k + 1)
    }
}

pub proof fn lemma_first_space_props(s: Seq<char>, k: int)
    requires
        0 <= k,
    ensures
        first_space(s, k) <= s.len(),
        k <= s.len() ==> k <= first_space(s, k),
    decreases s.len() - k,
{
    if 0 <= k < s.len() {
        lemma_first_space_props(s, k + 1);
    }
}

/// The whitespace-separated words of a text, in order, from `k` on.
pub open spec fn spec_words_from(s: Seq<char>, k: int) -> Seq<Seq<char>>
    decreases s.len() - k, 1int,
{
    if k < 0 || k >= s.len() {
        Seq::empty()
    } else if is_space(s[k]) {
        spec_words_from(s, k + 1)
    } else {
        spec_words_token(s, k)
    }
}

pub open spec fn spec_words_token(s: Seq<char>, k: int) -> Seq<Seq<char>>
    decreases s.len() - k, 0int,
    via spec_words_token_dec
{
    if 0 <= k < s.len() && !is_space(s[k]) {
        let e = first_space(s, k);
        seq![s.subrange(k, e)] + (if e >= s.len() {
            Seq::empty()
        } else {
            spec_words_from(s, e)
        })
    } else {
        Seq::empty()
    }
}

#[via_fn]
proof fn spec_words_token_dec(s: Seq<char>, k: int) {
    if 0 <= k < s.len() && !is_space(s[k]) {
        lemma_first_space_props(s, k + 1);
    }
}

pub open spec fn spec_words(s: Seq<char>) -> Seq<Seq<char>> {
    spec_words_from(s, 0)
}

/// Splits a text into whitespace-separated words.
pub fn words_of(s: &Vec<char>) -> (out: Vec<Vec<char>>)
    ensures
        out@.len() == spec_words(s@).len(),
        forall|t: int| 0 <= t < out@.len() ==> (#[trigger] out@[t])@ == spec_words(s@)[t],
{
    let n = s.len();
    let mut out: Vec<Vec<char>> = Vec::new();
    let mut k: usize = 0;
    while k < n
        invariant
            n == s@.len(),
            k <= n,
            spec_words(s@) =~= out@.map_values(|v: Vec<char>| v@) + spec_words_from(s@, k as int),
        decreases n - k,
    {
        if is_space_exec(s[k]) {
            k = k + 1;
        } else {
            let start = k;
            let mut tok: Vec<char> = Vec::new();
            while k < n && !is_space_exec(s[k])
                invariant
                    n == s@.len(),
                    start <= k <= n,
                    tok@ == s@.subrange(start as int, k as int),
                    forall|t: int| start <= t < k ==> !is_space(#[trigger] s@[t]),
                    !is_space(s@[start as int]),
                    start < n,
                decreases n - k,
            {
                tok.push(s[k]);
                proof {
                    assert(tok@ =~= s@.subrange(start as int, k + 1));
                }
                k = k + 1;
            }
            proof {
                lemma_first_space_props(s@, start as int);
                assert(first_space(s@, start as int) == k as int) by {
                    lemma_first_space_at(s@, start as int, k as int);
                }
                assert(spec_words_from(s@, start as int) == spec_words_token(s@, start as int));
                assert((out@.push(tok)).map_values(|v: Vec<char>| v@) =~= out@.map_values(
                    |v: Vec<char>| v@,
                ).push(tok@));
                if k < n {
                    assert(spec_words_token(s@, start as int) =~= seq![
                        s@.subrange(start as int, k as int),
                    ] + spec_words_from(s@, k as int));
                } else {
                    assert(spec_words_token(s@, start as int) =~= seq![
                        s@.subrange(start as int, k as int),
                    ]);
                    assert(spec_words_from(s@, k as int) =~= Seq::<Seq<char>>::empty());
                }
                assert(spec_words(s@) =~= (out@.push(tok)).map_values(|v: Vec<char>| v@)
                    + spec_words_from(s@, k as int));
            }
            out.push(tok);
        }
    }
    proof {
        assert(spec_words_from(s@, n as int) =~= Seq::<Seq<char>>::empty());
        assert forall|t: int| 0 <= t < out@.len() implies (#[trigger] out@[t])@ == spec_words(
            s@,
        )[t] by {
            assert(out@.map_values(|v: Vec<char>| v@)[t] == out@[t]@);
        }
    }
    out
}

proof fn lemma_first_space_at(s: Seq<char>, start: int, k: int)
    requires
        0 <= start <= k <= s.len(),
        forall|t: int| start <= t < k ==> !is_space(#[trigger] s[t]),
        k < s.len() ==> is_space(s[k]),
    ensures
        first_space(s, start) == k,
    decreases k - start,
{
    if start < k {
        lemma_first_space_at(s, start + 1, k);
    }
}

/// The position of the first `c`, or the length if absent.
pub open spec fn first_index_of(s: Seq<char>, c: char, k: int) -> int
    decreases s.len() - k,
{
    if k < 0 || k >= s.len() {
        s.len() as int
    } else if s[k] == c {
        k
    } else {
        first_index_of(s, c, k + 1)
    }
}

pub proof fn lemma_first_index_props(s: Seq<char>, c: char, k: int)
    requires
        0 <= k,
    ensures
        first_index_of(s, c, k) <= s.len(),
        k <= s.len() ==> k <= first_index_of(s, c, k),
        first_index_of(s, c, k) < s.len() ==> s[first_index_of(s, c, k)] == c,
    decreases s.len() - k,
{
    if 0 <= k < s.len() && s[k] != c {
        lemma_first_index_props(s, c, k + 1);
    }
}

/// The index of the first occurrence of `c`, or the length if absent.
pub fn find_char(s: &Vec<char>, c: char) -> (r: usize)
    ensures
        r as int == first_index_of(s@, c, 0),
        r <= s@.len(),
{
    let n = s.len();
    let mut k: usize = 0;
    while k < n
        invariant
            n == s@.len(),
            k <= n,
            first_index_of(s@, c, 0) == first_index_of(s@, c, k as int),
            forall|t: int| 0 <= t < k ==> s@[t] != c,
        decreases n - k,
    {
        if s[k] == c {
            return k;
        }
        k = k + 1;
    }
    k
}

/// Decimal digits and their values.
pub open spec fn is_digit(c: char) -> bool {
    '0' <= c && c <= '9'
}

pub open spec fn digit_val(c: char) -> int {
    c as int - '0' as int
}

pub open spec fn all_digits(s: Seq<char>) -> bool {
    forall|t: int| 0 <= t < s.len() ==> is_digit(#[trigger] s[t])
}

/// The integer value of a digit string, most significant digit first.
pub open spec fn digits_val(s: Seq<char>) -> int
    decreases s.len(),
{
    if s.len() == 0 {
        0
    } else {
        digits_val(s.drop_last()) * 10 + digit_val(s.last())
    }
}

/// Parsing a signed 64-bit integer: an optional sign followed by at
/// least one digit, rejecting anything else and any value out of the
/// `i64` range.
pub open spec fn spec_parse_i64(s: Seq<char>) -> Option<i64> {
    let (neg, ds) = if s.len() > 0 && (s[0] == '-' || s[0] == '+') {
        (s[0] == '-', s.drop_first())
    } else {
        (false, s)
    };
    if ds.len() == 0 || !all_digits(ds) {
        None
    } else {
        let v = if neg {
            -digits_val(ds)
        } else {
            digits_val(ds)
        };
        if i64::MIN <= v <= i64::MAX {
            Some(v as i64)
        } else {
            None
        }
    }
}

proof fn lemma_digits_val_nonneg(s: Seq<char>)
    requires
        all_digits(s),
    ensures
        digits_val(s) >= 0,
    decreases s.len(),
{
    if s.len() > 0 {
        assert(forall|t: int|
            0 <= t < s.len() - 1 ==> is_digit(#[trigger] s.drop_last()[t]));
        lemma_digits_val_nonneg(s.drop_last());
        assert(is_digit(s[s.len() - 1]));
    }
}

/// Parses a signed 64-bit integer; exact counterpart of
/// `spec_parse_i64`.
#[verifier::rlimit(50)]
pub fn parse_i64(s: &Vec<char>) -> (r: Option<i64>)
    ensures
        r == spec_parse_i64(s@),
{
    let mut start: usize = 0;
    let mut neg = false;
    if s.len() > 0 && (s[0] == '-' || s[0] == '+') {
        neg = s[0] == '-';
        start = 1;
    }
    let ghost ds = if start == 1 {
        s@.drop_first()
    } else {
        s@
    };
    if s.len() == start {
        proof {
            assert(ds.len() == 0);
        }
        return None;
    }
    let limit: u128 = if neg {
        9223372036854775808u128
    } else {
        9223372036854775807u128
    };
    let mut acc: u128 = 0;
    let mut i: usize = start;
    while i < s.len()
        invariant
            start <= i <= s@.len(),
            start == 0 || start == 1,
            start < s@.len(),
            (start == 1) == (s@.len() > 0 && (s@[0] == '-' || s@[0] == '+')),
            neg == (start == 1 && s@[0] == '-'),
            ds == (if start == 1 {
                s@.drop_first()
            } else {
                s@
            }),
            ds.len() == s@.len() - start,
            forall|t: int| 0 <= t < ds.len() ==> ds[t] == s@[t + start],
            all_digits(ds.take(i - start)),
            acc == digits_val(ds.take(i - start)),
            acc <= limit,
            limit == (if neg {
                9223372036854775808u128
            } else {
                9223372036854775807u128
            }),
        decreases s@.len() - i,
    {
        let c = s[i];
        if !(c >= '0' && c <= '9') {
            proof {
                assert(ds[i - start] == c);
                assert(!is_digit(ds[i - start]));
                assert(!all_digits(ds));
            }
            return None;
        }
        let d: u32 = c as u32 - 48;
        proof {
            assert(ds.take(i - start + 1).drop_last() =~= ds.take(i - start));
            assert(ds.take(i - start + 1).last() == ds[i - start]);
            assert(is_digit(ds[i - start]));
            assert(d == digit_val(ds[i - start]));
        }
        let next: u128 = acc * 10 + (d as u128);
        if next > limit {
            proof {
                if all_digits(ds) {
                    lemma_digits_val_grows(ds, i - start as int + 1);
                    assert(digits_val(ds) >= digits_val(ds.take(i - start + 1)));
                    let v = if neg {
                        -digits_val(ds)
                    } else {
                        digits_val(ds)
                    };
                    assert(!(i64::MIN <= v <= i64::MAX));
                }
            }
            return None;
        }
        acc = next;
        i = i + 1;
    }
    proof {
        assert(ds.take(ds.len() as int) =~= ds);
        lemma_digits_val_nonneg(ds);
    }
    if neg {
        if acc == 9223372036854775808u128 {
            Some(i64::MIN)
        } else {
            Some(-((acc) as i64))
        }
    } else {
        Some(acc as i64)
    }
}

/// A digit string's value only grows as more digits arrive.
proof fn lemma_digits_val_grows(ds: Seq<char>, k: int)
    requires
        0 <= k <= ds.len(),
        all_digits(ds),
    ensures
        digits_val(ds) >= digits_val(ds.take(k)),
        digits_val(ds.take(k)) >= 0,
    decreases ds.len() - k,
{
    assert(forall|t: int| 0 <= t < k ==> is_digit(#[trigger] ds.take(k)[t]));
    lemma_digits_val_nonneg(ds.take(k));
    if k < ds.len() {
        lemma_digits_val_grows(ds, k + 1);
        assert(ds.take(k + 1).drop_last() =~= ds.take(k));
        assert(is_digit(ds.take(k + 1).last()));
        assert(digits_val(ds.take(k + 1)) == digits_val(ds.take(k)) * 10 + digit_val(
            ds.take(k + 1).last(),
        ));
        assert(digits_val(ds.take(k)) * 10 >= digits_val(ds.take(k))) by (nonlinear_arith)
            requires
                digits_val(ds.take(k)) >= 0,
        ;
    } else {
        assert(ds.take(k) =~= ds);
    }
}


/// Parsing an unsigned size: digits only, rejecting anything else and
/// any value out of the `usize` range.
pub open spec fn spec_parse_usize(s: Seq<char>) -> Option<usize> {
    if s.len() == 0 || !all_digits(s) {
        None
    } else {
        let v = digits_val(s);
        if v <= usize::MAX {
            Some(v as usize)
        } else {
            None
        }
    }
}

/// Parses an unsigned size; exact counterpart of `spec_parse_usize`.
pub fn parse_usize(s: &Vec<char>) -> (r: Option<usize>)
    ensures
        r == spec_parse_usize(s@),
{
    if s.len() == 0 {
        return None;
    }
    let mut acc: u128 = 0;
    let mut i: usize = 0;
    while i < s.len()
        invariant
            i <= s@.len(),
            all_digits(s@.take(i as int)),
            acc == digits_val(s@.take(i as int)),
            acc <= usize::MAX,
        decreases s@.len() - i,
    {
        let c = s[i];
        if !(c >= '0' && c <= '9') {
            proof {
                assert(!is_digit(s@[i as int]));
            }
            return None;
        }
        let d: u32 = c as u32 - 48;
        proof {
            assert(s@.take(i + 1).drop_last() =~= s@.take(i as int));
            assert(s@.take(i + 1).last() == s@[i as int]);
            assert(is_digit(s@[i as int]));
        }
        let next: u128 = acc * 10 + (d as u128);
        if next > usize::MAX as u128 {
            proof {
                if all_digits(s@) {
                    lemma_digits_val_grows(s@, i + 1);
                }
            }
            return None;
        }
        acc = next;
        i = i + 1;
    }
    proof {
        assert(s@.take(s@.len() as int) =~= s@);
    }
    Some(acc as usize)
}

/// The decimal digit character for a value below ten.
pub open spec fn digit_char(d: int) -> char {
    if d == 0 {
        '0'
    } else if d == 1 {
        '1'
    } else if d == 2 {
        '2'
    } else if d == 3 {
        '3'
    } else if d == 4 {
        '4'
    } else if d == 5 {
        '5'
    } else if d == 6 {
        '6'
    } else if d == 7 {
        '7'
    } else if d == 8 {
        '8'
    } else {
        '9'
    }
}

/// The decimal expansion of a non-negative integer.
pub open spec fn spec_uint_string(n: int) -> Seq<char>
    decreases n,
{
    if n < 10 {
        seq![digit_char(n)]
    } else {
        spec_uint_string(n / 10).push(digit_char(n % 10))
    }
}

/// The decimal expansion of an integer, with a leading minus sign when
/// negative.
pub open spec fn spec_int_string(v: int) -> Seq<char> {
    if v < 0 {
        seq!['-'] + spec_uint_string(-v)
    } else {
        spec_uint_string(v)
    }
}

fn digit_str(d: u64) -> (r: &'static str)
    requires
        d < 10,
    ensures
        r@ == seq![digit_char(d as int)],
{
    proof {
        reveal_strlit("0");
        reveal_strlit("1");
        reveal_strlit("2");
        reveal_strlit("3");
        reveal_strlit("4");
        reveal_strlit("5");
        reveal_strlit("6");
        reveal_strlit("7");
        reveal_strlit("8");
        reveal_strlit("9");
    }
    if d == 0 {
        "0"
    } else if d == 1 {
        "1"
    } else if d == 2 {
        "2"
    } else if d == 3 {
        "3"
    } else if d == 4 {
        "4"
    } else if d == 5 {
        "5"
    } else if d == 6 {
        "6"
    } else if d == 7 {
        "7"
    } else if d == 8 {
        "8"
    } else {
        "9"
    }
}

/// Formats a non-negative integer in decimal.
pub fn u64_string(n: u64) -> (s: String)
    ensures
        s@ == spec_uint_string(n as int),
    decreases n,
{
    if n < 10 {
        let d = digit_str(n);
        d.to_owned()
    } else {
        let mut s = u64_string(n / 10);
        let d = digit_str(n % 10);
        s.append(d);
        s
    }
}

/// Formats a signed integer in decimal.
pub fn i64_string(v: i64) -> (s: String)
    ensures
        s@ == spec_int_string(v as int),
{
    if v >= 0 {
        u64_string(v as u64)
    } else {
        let m: u64 = ((-(v + 1)) as u64) + 1;
        proof {
            reveal_strlit("-");
        }
        let mut s: String = "-".to_owned();
        let rest = u64_string(m);
        s.append(rest.as_str());
        proof {
            assert(s@ =~= spec_int_string(v as int));
        }
        s
    }
}

/// Formats an unsigned 128-bit integer in decimal.
pub fn u128_string(n: u128) -> (s: String)
    ensures
        s@ == spec_uint_string(n as int),
    decreases n,
{
    if n < 10 {
        let d = digit_str(n as u64);
        d.to_owned()
    } else {
        let mut s = u128_string(n / 10);
        let d = digit_str((n % 10) as u64);
        s.append(d);
        s
    }
}

/// Formats a signed 128-bit integer in decimal.
pub fn i128_string(v: i128) -> (s: String)
    ensures
        s@ == spec_int_string(v as int),
{
    if v >= 0 {
        u128_string(v as u128)
    } else {
        let m: u128 = ((-(v + 1)) as u128) + 1;
        proof {
            reveal_strlit("-");
        }
        let mut s: String = "-".to_owned();
        let rest = u128_string(m);
        s.append(rest.as_str());
        proof {
            assert(s@ =~= spec_int_string(v as int));
        }
        s
    }
}

} // verus!
