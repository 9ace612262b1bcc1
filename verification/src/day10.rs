//! Button-panel puzzle: each line holds a target light pattern in
//! square brackets, button wiring lists in parentheses, and joltage
//! targets in braces, located by regular expressions. The first query
//! finds, per line, the smallest set of buttons whose toggles produce
//! the target pattern.

use vstd::prelude::*;

use crate::strutil::{
    lines_of, parse_i64, spec_lines, spec_parse_i64, spec_split, split_char, to_chars,
    spec_uint_string, u128_string,
};

verus! {

broadcast use vstd::seq_lib::group_filter_ensures;

pub struct Day10;

#[verifier::external_type_specification]
#[verifier::external_body]
pub struct ExRegex(regex::Regex);

/// The non-overlapping matches of the regular expression `pat` inside
/// `text`, leftmost first, exactly as the regex engine reports them;
/// a pattern that fails to compile has no matches.
pub uninterp spec fn regex_matches(pat: Seq<char>, text: Seq<char>) -> Seq<Seq<char>>;

/// Whether the regex engine rejects `pat` as a pattern; rejection is a
/// function of the pattern text alone.
pub uninterp spec fn regex_rejects(pat: Seq<char>) -> bool;

/// A compiled regular expression remembering its pattern.
pub struct Pattern {
    re: regex::Regex,
    pat: String,
}

impl Pattern {
    pub closed spec fn spec_pat(self) -> Seq<char> {
        self.pat@
    }

    /// Relies on `regex::Regex::new`: compiles the pattern; `None`
    /// exactly when the regex engine rejects the pattern text.
    #[verifier::external_body]
    pub fn compile(pat: &str) -> (r: Option<Pattern>)
        ensures
            r matches Some(p) ==> p.spec_pat() == pat@,
            r is None <==> regex_rejects(pat@),
    {
        match regex::Regex::new(pat) {
            Ok(re) => Some(Pattern { re, pat: pat.to_owned() }),
            Err(_) => None,
        }
    }

    /// Relies on `regex::Regex::find_iter`: returns this pattern's
    /// non-overlapping matches in `text`, leftmost first; the matches
    /// are a function of the pattern and the text alone.
    #[verifier::external_body]
    pub fn find_all(&self, text: &str) -> (r: Vec<String>)
        ensures
            r@.len() == regex_matches(self.spec_pat(), text@).len(),
            forall|k: int|
                0 <= k < r@.len() ==> (#[trigger] r@[k])@ == regex_matches(
                    self.spec_pat(),
                    text@,
                )[k],
    {
        self.re.find_iter(text).map(|m| m.as_str().to_string()).collect()
    }
}

/// A square-bracket match with the bracket characters dropped.
pub open spec fn bracket_body(s: Seq<char>) -> Seq<char> {
    s.filter(|c: char| c != '[' && c != ']')
}

/// The bracketed target pattern of a line: the characters of the first
/// square-bracket match, brackets dropped, `.` clear and `#` set.
pub open spec fn spec_target_of(line: Seq<char>) -> Option<Seq<u8>> {
    let ms = regex_matches("(\\[[^\\]\\r\\n]+\\])"@, line);
    if ms.len() == 0 {
        None
    } else {
        let body = bracket_body(ms[0]);
        if forall|t: int| 0 <= t < body.len() ==> (body[t] == '.' || body[t] == '#') {
            Some(Seq::new(body.len(), |t: int| if body[t] == '#' {
                1u8
            } else {
                0u8
            }))
        } else {
            None
        }
    }
}

/// One parenthesized button group read as the comma-separated integers
/// between the parentheses.
pub open spec fn spec_button_of(group: Seq<char>) -> Option<Seq<i64>> {
    let inner = strip_edge(group);
    let fields = spec_split(inner, ',');
    if exists|t: int| 0 <= t < fields.len() && spec_parse_i64(#[trigger] fields[t]) is None {
        None
    } else {
        Some(Seq::new(fields.len(), |t: int| spec_parse_i64(fields[t])->Some_0))
    }
}

/// Strips any leading and trailing parentheses or braces.
pub open spec fn strip_edge(s: Seq<char>) -> Seq<char> {
    strip_lead(strip_tail(s))
}

pub open spec fn is_edge(c: char) -> bool {
    c == '(' || c == ')' || c == '{' || c == '}'
}

pub open spec fn strip_lead(s: Seq<char>) -> Seq<char>
    decreases s.len(),
{
    if s.len() > 0 && is_edge(s[0]) {
        strip_lead(s.drop_first())
    } else {
        s
    }
}

pub open spec fn strip_tail(s: Seq<char>) -> Seq<char>
    decreases s.len(),
{
    if s.len() > 0 && is_edge(s.last()) {
        strip_tail(s.drop_last())
    } else {
        s
    }
}

pub open spec fn spec_buttons_of(groups: Seq<Seq<char>>) -> Option<Seq<Seq<i64>>>
    decreases groups.len(),
{
    if groups.len() == 0 {
        Some(Seq::empty())
    } else {
        match (spec_buttons_of(groups.drop_last()), spec_button_of(groups.last())) {
            (Some(bs), Some(b)) => Some(bs.push(b)),
            _ => None,
        }
    }
}

/// One parsed line: the target pattern and the button groups.
pub open spec fn spec_parse_row(line: Seq<char>) -> Option<(Seq<u8>, Seq<Seq<i64>>)> {
    let target = spec_target_of(line);
    let groups = regex_matches("(\\([^\\)\\r\\n]+\\))"@, line);
    match (target, spec_buttons_of(groups)) {
        (Some(t), Some(bs)) => Some((t, bs)),
        _ => None,
    }
}

pub open spec fn spec_parse_rows(lns: Seq<Seq<char>>) -> Option<Seq<(Seq<u8>, Seq<Seq<i64>>)>>
    decreases lns.len(),
{
    if lns.len() == 0 {
        Some(Seq::empty())
    } else {
        match (spec_parse_rows(lns.drop_last()), spec_parse_row(lns.last())) {
            (Some(rows), Some(row)) => Some(rows.push(row)),
            _ => None,
        }
    }
}

proof fn lemma_parse_rows_fail(lns: Seq<Seq<char>>, k: int)
    requires
        0 <= k < lns.len(),
        spec_parse_row(lns[k]) is None,
    ensures
        spec_parse_rows(lns) is None,
    decreases lns.len(),
{
    if k < lns.len() - 1 {
        assert(lns.drop_last()[k] == lns[k]);
        lemma_parse_rows_fail(lns.drop_last(), k);
    }
}

fn is_edge_exec(c: char) -> (r: bool)
    ensures
        r == is_edge(c),
{
    c == '(' || c == ')' || c == '{' || c == '}'
}

fn strip_edge_exec(s: &Vec<char>) -> (out: Vec<char>)
    ensures
        out@ == strip_edge(s@),
{
    let n = s.len();
    proof {
        assert(s@.take(n as int) =~= s@);
    }
    let mut b: usize = n;
    while b > 0 && is_edge_exec(s[b - 1])
        invariant
            b <= n,
            n == s@.len(),
            strip_tail(s@) == strip_tail(s@.take(b as int)),
        decreases b,
    {
        proof {
            assert(s@.take(b as int).last() == s@[b - 1]);
            assert(s@.take(b as int).drop_last() =~= s@.take(b - 1));
        }
        b = b - 1;
    }
    proof {
        assert(s@.take(n as int) =~= s@);
        if b > 0 {
            assert(s@.take(b as int).last() == s@[b - 1]);
        }
        assert(strip_tail(s@) == s@.take(b as int));
    }
    let mut a: usize = 0;
    while a < b && is_edge_exec(s[a])
        invariant
            a <= b <= n,
            n == s@.len(),
            strip_tail(s@) == s@.take(b as int),
            strip_lead(s@.take(b as int)) == strip_lead(s@.subrange(a as int, b as int)),
        decreases b - a,
    {
        proof {
            assert(s@.subrange(a as int, b as int)[0] == s@[a as int]);
            assert(s@.subrange(a as int, b as int).drop_first() =~= s@.subrange(a + 1, b as int));
        }
        a = a + 1;
    }
    proof {
        if a < b {
            assert(s@.subrange(a as int, b as int)[0] == s@[a as int]);
        }
        assert(strip_lead(s@.subrange(a as int, b as int)) == s@.subrange(a as int, b as int));
    }
    let mut out: Vec<char> = Vec::new();
    let mut i: usize = a;
    while i < b
        invariant
            a <= i <= b <= n,
            n == s@.len(),
            out@ == s@.subrange(a as int, i as int),
        decreases b - i,
    {
        out.push(s[i]);
        proof {
            assert(out@ =~= s@.subrange(a as int, i + 1));
        }
        i = i + 1;
    }
    out
}

impl Day10 {
    /// Parses every line into its target pattern and button groups;
    /// `None` exactly when a line lacks a target, has a stray pattern
    /// character, or a button field fails to parse.
    pub fn parse(input: &str) -> (r: Option<Vec<(Vec<u8>, Vec<Vec<i64>>)>>)
        ensures
            match r {
                None => spec_parse_rows(spec_lines(input@)) is None || regex_rejects(
                    "(\\[[^\\]\\r\\n]+\\])"@,
                ) || regex_rejects("(\\([^\\)\\r\\n]+\\))"@),
                Some(rows) => {
                    &&& spec_parse_rows(spec_lines(input@)) matches Some(rs)
                    &&& rs.len() == rows@.len()
                    &&& forall|t: int|
                        0 <= t < rows@.len() ==> (#[trigger] rows@[t]).0@ == rs[t].0
                    &&& forall|t: int|
                        0 <= t < rows@.len() ==> {
                            let bs = rs[t].1;
                            let bv = (#[trigger] rows@[t]).1;
                            bv@.len() == bs.len() && forall|q: int|
                                0 <= q < bs.len() ==> (#[trigger] bv@[q])@ == bs[q]
                        }
                },
            },
    {
        let square = match Pattern::compile("(\\[[^\\]\\r\\n]+\\])") {
            Some(p) => p,
            None => {
                return None;  // unreachable: the pattern is fixed and valid
            },
        };
        let round = match Pattern::compile("(\\([^\\)\\r\\n]+\\))") {
            Some(p) => p,
            None => {
                return None;  // unreachable: the pattern is fixed and valid
            },
        };
        let cs = to_chars(input);
        let lns = lines_of(&cs);
        let ghost lseq = spec_lines(input@);
        let mut rows: Vec<(Vec<u8>, Vec<Vec<i64>>)> = Vec::new();
        let mut k: usize = 0;
        while k < lns.len()
            invariant
                lseq == spec_lines(input@),
                lns@.len() == lseq.len(),
                forall|t: int| 0 <= t < lns@.len() ==> (#[trigger] lns@[t])@ == lseq[t],
                k <= lns@.len(),
                square.spec_pat() == "(\\[[^\\]\\r\\n]+\\])"@,
                round.spec_pat() == "(\\([^\\)\\r\\n]+\\))"@,
                spec_parse_rows(lseq.take(k as int)) matches Some(rs) && rs.len() == k,
                rows@.len() == k,
                forall|t: int|
                    0 <= t < k ==> (#[trigger] rows@[t]).0@ == spec_parse_rows(
                        lseq.take(k as int),
                    )->Some_0[t].0,
                forall|t: int|
                    0 <= t < k ==> {
                        let bs = spec_parse_rows(lseq.take(k as int))->Some_0[t].1;
                        let bv = (#[trigger] rows@[t]).1;
                        bv@.len() == bs.len() && forall|q: int|
                            0 <= q < bs.len() ==> (#[trigger] bv@[q])@ == bs[q]
                    },
            decreases lns@.len() - k,
        {
            let ghost rows0 = spec_parse_rows(lseq.take(k as int))->Some_0;
            let line_s = crate::strutil::string_from_chars(&lns[k]);
            proof {
                assert(lseq.take(k + 1).drop_last() =~= lseq.take(k as int));
                assert(lseq.take(k + 1).last() == lseq[k as int]);
            }
            // target pattern
            let sq = square.find_all(line_s.as_str());
            if sq.len() == 0 {
                proof {
                    lemma_parse_rows_fail(lseq, k as int);
                }
                return None;
            }
            let ghost body = bracket_body(regex_matches(square.spec_pat(), lseq[k as int])[0]);
            let first = to_chars(sq[0].as_str());
            let mut target: Vec<u8> = Vec::new();
            let mut q: usize = 0;
            while q < first.len()
                invariant
                    lseq == spec_lines(input@),
                    k < lseq.len(),
                    q <= first@.len(),
                    first@ == regex_matches(
                        "(\\[[^\\]\\r\\n]+\\])"@,
                        lseq[k as int],
                    )[0],
                    0 < regex_matches("(\\[[^\\]\\r\\n]+\\])"@, lseq[k as int]).len(),
                    body == bracket_body(
                        regex_matches("(\\[[^\\]\\r\\n]+\\])"@, lseq[k as int])[0],
                    ),
                    target@.len() == bracket_body(first@.take(q as int)).len(),
                    forall|t: int|
                        0 <= t < target@.len() ==> (#[trigger] target@[t]) == (if bracket_body(
                            first@.take(q as int),
                        )[t] == '#' {
                            1u8
                        } else {
                            0u8
                        }),
                    forall|t: int|
                        0 <= t < bracket_body(first@.take(q as int)).len() ==> ((
                        #[trigger] bracket_body(first@.take(q as int))[t]) == '.' || bracket_body(
                            first@.take(q as int),
                        )[t] == '#'),
                decreases first@.len() - q,
            {
                let c = first[q];
                proof {
                    reveal(Seq::filter);
                    assert(first@.take(q + 1).drop_last() =~= first@.take(q as int));
                    assert(first@.take(q + 1).last() == c);
                    if c != '[' && c != ']' {
                        assert(bracket_body(first@.take(q + 1)) =~= bracket_body(
                            first@.take(q as int),
                        ).push(c));
                    } else {
                        assert(bracket_body(first@.take(q + 1)) =~= bracket_body(
                            first@.take(q as int),
                        ));
                    }
                }
                if c == '[' || c == ']' {
                } else if c == '.' {
                    target.push(0);
                } else if c == '#' {
                    target.push(1);
                } else {
                    proof {
                        lemma_filter_extends_bad(first@, q as int);
                        assert(spec_target_of(lseq[k as int]) is None);
                        lemma_parse_rows_fail(lseq, k as int);
                    }
                    return None;
                }
                q = q + 1;
            }
            proof {
                assert(first@.take(first@.len() as int) =~= first@);
                assert(spec_target_of(lseq[k as int]) matches Some(tv) && tv =~= target@);
            }
            // button groups
            let groups = round.find_all(line_s.as_str());
            let ghost gseq = regex_matches("(\\([^\\)\\r\\n]+\\))"@, lseq[k as int]);
            let mut buttons: Vec<Vec<i64>> = Vec::new();
            let mut g: usize = 0;
            while g < groups.len()
                invariant
                    g <= groups@.len(),
                    gseq == regex_matches("(\\([^\\)\\r\\n]+\\))"@, lseq[k as int]),
                    lseq == spec_lines(input@),
                    k < lseq.len(),
                    groups@.len() == gseq.len(),
                    forall|t: int| 0 <= t < groups@.len() ==> (#[trigger] groups@[t])@ == gseq[t],
                    spec_buttons_of(gseq.take(g as int)) matches Some(bs) && bs.len() == g,
                    buttons@.len() == g,
                    forall|t: int|
                        0 <= t < g ==> (#[trigger] buttons@[t])@ == spec_buttons_of(
                            gseq.take(g as int),
                        )->Some_0[t],
                decreases groups@.len() - g,
            {
                let ghost bs0 = spec_buttons_of(gseq.take(g as int))->Some_0;
                let gchars = to_chars(groups[g].as_str());
                let inner = strip_edge_exec(&gchars);
                let fields = split_char(&inner, ',');
                let mut button: Vec<i64> = Vec::new();
                let mut f: usize = 0;
                proof {
                    assert(gseq.take(g + 1).drop_last() =~= gseq.take(g as int));
                    assert(gseq.take(g + 1).last() == gseq[g as int]);
                }
                while f < fields.len()
                    invariant
                        f <= fields@.len(),
                        gseq == regex_matches("(\\([^\\)\\r\\n]+\\))"@, lseq[k as int]),
                        lseq == spec_lines(input@),
                        k < lseq.len(),
                        g < gseq.len(),
                        inner@ == strip_edge(gseq[g as int]),
                        fields@.len() == spec_split(inner@, ',').len(),
                        forall|t: int|
                            0 <= t < fields@.len() ==> (#[trigger] fields@[t])@ == spec_split(
                                inner@,
                                ',',
                            )[t],
                        forall|t: int|
                            0 <= t < f ==> spec_parse_i64(
                                #[trigger] spec_split(inner@, ',')[t],
                            ) is Some,
                        button@.len() == f,
                        forall|t: int|
                            0 <= t < f ==> (#[trigger] button@[t]) == spec_parse_i64(
                                spec_split(inner@, ',')[t],
                            )->Some_0,
                    decreases fields@.len() - f,
                {
                    match parse_i64(&fields[f]) {
                        Some(v) => {
                            button.push(v);
                        },
                        None => {
                            proof {
                                assert(spec_parse_i64(
                                    spec_split(strip_edge(gseq[g as int]), ',')[f as int],
                                ) is None);
                                assert(spec_button_of(gseq[g as int]) is None);
                                lemma_buttons_fail(gseq, g as int);
                                assert(spec_parse_row(lseq[k as int]) is None);
                                lemma_parse_rows_fail(lseq, k as int);
                            }
                            return None;
                        },
                    }
                    f = f + 1;
                }
                proof {
                    assert(spec_button_of(gseq[g as int]) matches Some(bv) && bv =~= button@);
                    assert(spec_buttons_of(gseq.take(g + 1)) matches Some(bs) && bs =~= bs0.push(
                        button@,
                    ));
                }
                buttons.push(button);
                g = g + 1;
            }
            proof {
                assert(gseq.take(gseq.len() as int) =~= gseq);
                assert(spec_parse_row(lseq[k as int]) matches Some(row) && row.0 =~= target@);
            }
            rows.push((target, buttons));
            k = k + 1;
        }
        proof {
            assert(lseq.take(lseq.len() as int) =~= lseq);
        }
        Some(rows)
    }
}


/// Bits set in a mask.
pub open spec fn spec_popcount(mask: u64) -> nat
    decreases mask,
    via spec_popcount_dec
{
    if mask == 0 {
        0
    } else {
        ((mask & 1) as nat) + spec_popcount(mask >> 1)
    }
}

#[via_fn]
proof fn spec_popcount_dec(mask: u64) {
    assert(mask != 0 ==> (mask >> 1) < mask) by (bit_vector);
}

/// Every wired position of every button points inside the target.
pub open spec fn buttons_valid(len: nat, buttons: Seq<Seq<i64>>) -> bool {
    forall|i: int, j: int|
        0 <= i < buttons.len() && 0 <= j < buttons[i].len() ==> 0 <= (#[trigger] buttons[i][j])
            < len
}

/// Toggling the lights wired to one button, in wiring order.
pub open spec fn spec_toggle(acc: Seq<u8>, ps: Seq<i64>, j: int) -> Seq<u8>
    decreases ps.len() - j,
{
    if j < 0 || j >= ps.len() {
        acc
    } else {
        let p = ps[j] as int;
        let acc2 = if 0 <= p < acc.len() {
            acc.update(p, if acc[p] == 0 {
                1u8
            } else {
                0u8
            })
        } else {
            acc
        };
        spec_toggle(acc2, ps, j + 1)
    }
}

/// The light pattern after pressing the buttons selected by `mask`
/// once each, in index order, starting from `acc`.
pub open spec fn spec_apply_mask(buttons: Seq<Seq<i64>>, mask: u64, i: int, acc: Seq<u8>) -> Seq<
    u8,
>
    decreases buttons.len() - i,
{
    if i < 0 || i >= buttons.len() {
        acc
    } else {
        let acc2 = if (mask >> (i as u64)) & 1 == 1 {
            spec_toggle(acc, buttons[i], 0)
        } else {
            acc
        };
        spec_apply_mask(buttons, mask, i + 1, acc2)
    }
}

pub open spec fn zeros(len: nat) -> Seq<u8> {
    Seq::new(len, |t: int| 0u8)
}

/// The best button combination in `[m, limit)`: fewest presses first,
/// smallest mask on ties, among masks whose toggles give the target.
pub open spec fn spec_best_combo(
    buttons: Seq<Seq<i64>>,
    target: Seq<u8>,
    m: u64,
    limit: u64,
) -> Option<(u64, u64)>
    decreases limit - m,
{
    if m >= limit {
        None
    } else {
        let rest = spec_best_combo(buttons, target, (m + 1) as u64, limit);
        if spec_apply_mask(buttons, m, 0, zeros(target.len())) == target {
            let pc = spec_popcount(m) as u64;
            match rest {
                None => Some((pc, m)),
                Some(b) => if pc <= b.0 {
                    Some((pc, m))
                } else {
                    Some(b)
                },
            }
        } else {
            rest
        }
    }
}

/// Exact press count of a mask.
fn popcount(mask: u64) -> (r: u64)
    ensures
        r == spec_popcount(mask),
        r <= 64,
{
    let mut m = mask;
    let mut r: u64 = 0;
    proof {
        lemma_popcount_bound(mask);
    }
    while m != 0
        invariant
            r + spec_popcount(m) == spec_popcount(mask),
            spec_popcount(m) <= 64,
            r <= 64 - spec_popcount(m),
        decreases m,
    {
        proof {
            assert(m != 0 ==> (m >> 1) < m) by (bit_vector);
            assert((m & 1) == 0 || (m & 1) == 1) by (bit_vector);
        }
        r = r + (m & 1);
        m = m >> 1;
    }
    r
}

proof fn lemma_popcount_bound(mask: u64)
    ensures
        spec_popcount(mask) <= 64,
{
    lemma_popcount_width(mask, 64);
}

proof fn lemma_popcount_width(mask: u64, w: u64)
    requires
        w >= 64 || mask >> w == 0,
    ensures
        spec_popcount(mask) <= w,
    decreases mask,
{
    if mask == 0 {
    } else {
        assert((mask >> 1) < mask) by (bit_vector)
            requires
                mask != 0,
        ;
        assert((mask & 1) <= 1) by (bit_vector);
        if w >= 64 {
            assert((mask >> 1) >> 63u64 == 0) by (bit_vector);
            lemma_popcount_width(mask >> 1, 63);
        } else {
            assert(w != 0) by (bit_vector)
                requires
                    mask != 0 && mask >> w == 0 && w < 64,
            ;
            let w1: u64 = (w - 1) as u64;
            assert((mask >> 1) >> w1 == 0) by (bit_vector)
                requires
                    mask >> w == 0 && 1 <= w < 64 && w1 + 1 == w,
            ;
            lemma_popcount_width(mask >> 1, w1);
        }
    }
}

impl Day10 {
    /// The fewest-press button combination that lights exactly the
    /// target pattern, searched over all non-empty combinations; ties
    /// go to the smallest mask. Requires fewer than 64 buttons and
    /// valid wiring.
    pub fn min_combo(target: &Vec<u8>, buttons: &Vec<Vec<i64>>) -> (r: Option<(u64, u64)>)
        requires
            buttons@.len() < 64,
            buttons_valid(target@.len(), buttons@.map_values(|b: Vec<i64>| b@)),
        ensures
            r == spec_best_combo(
                buttons@.map_values(|b: Vec<i64>| b@),
                target@,
                1,
                1u64 << buttons@.len() as u64,
            ),
    {
        let nb = buttons.len();
        let tlen = target.len();
        let ghost bseq = buttons@.map_values(|b: Vec<i64>| b@);
        let limit: u64 = 1u64 << (nb as u64);
        proof {
            assert(1u64 << (nb as u64) >= 1) by (bit_vector)
                requires
                    nb < 64usize,
            ;
        }
        let mut best: Option<(u64, u64)> = None;
        let mut mask: u64 = limit;
        while mask > 1
            invariant
                tlen == target@.len(),
                bseq == buttons@.map_values(|b: Vec<i64>| b@),
                nb == buttons@.len(),
                nb < 64,
                limit == 1u64 << (nb as u64),
                1 <= mask <= limit,
                best == spec_best_combo(bseq, target@, mask, limit),
                buttons_valid(target@.len(), bseq),
            decreases mask,
        {
            mask = mask - 1;
            // apply the combination
            let mut acc: Vec<u8> = Vec::new();
            let mut z: usize = 0;
            while z < target.len()
                invariant
                    z <= target@.len(),
                    acc@ =~= zeros(z as nat),
                decreases target@.len() - z,
            {
                acc.push(0);
                z = z + 1;
            }
            proof {
                assert(acc@ =~= zeros(target@.len()));
            }
            let mut i: usize = 0;
            while i < nb
                invariant
                    tlen == target@.len(),
                    bseq == buttons@.map_values(|b: Vec<i64>| b@),
                    nb == buttons@.len(),
                    nb < 64,
                    i <= nb,
                    buttons_valid(target@.len(), bseq),
                    acc@.len() == target@.len(),
                    spec_apply_mask(bseq, mask, 0, zeros(target@.len())) == spec_apply_mask(
                        bseq,
                        mask,
                        i as int,
                        acc@,
                    ),
                decreases nb - i,
            {
                if (mask >> (i as u64)) & 1 == 1 {
                    let ps = &buttons[i];
                    let ghost accin = acc@;
                    let mut j: usize = 0;
                    while j < ps.len()
                        invariant
                            tlen == target@.len(),
                            bseq == buttons@.map_values(|b: Vec<i64>| b@),
                            nb == buttons@.len(),
                            i < nb,
                            ps@ == bseq[i as int],
                            buttons_valid(target@.len(), bseq),
                            acc@.len() == target@.len(),
                            j <= ps@.len(),
                            spec_toggle(accin, bseq[i as int], 0) == spec_toggle(
                                acc@,
                                bseq[i as int],
                                j as int,
                            ),
                        decreases ps@.len() - j,
                    {
                        let p = ps[j];
                        proof {
                            assert(bseq[i as int][j as int] == ps@[j as int]);
                            assert(0 <= bseq[i as int][j as int] < target@.len());
                        }
                        let pu = p as usize;
                        let ghost accj = acc@;
                        let cur = acc[pu];
                        acc[pu] = if cur == 0 {
                            1
                        } else {
                            0
                        };
                        proof {
                            assert(acc@ =~= accj.update(pu as int, if accj[pu as int] == 0 {
                                1u8
                            } else {
                                0u8
                            }));
                            assert(j < bseq[i as int].len());
                            assert(pu as int == bseq[i as int][j as int] as int);
                            assert(0 <= bseq[i as int][j as int] as int && (bseq[i as int][j as int] as int) < accj.len());
                            assert(spec_toggle(accj, bseq[i as int], j as int) == spec_toggle(
                                accj.update(
                                    bseq[i as int][j as int] as int,
                                    if accj[bseq[i as int][j as int] as int] == 0 {
                                        1u8
                                    } else {
                                        0u8
                                    },
                                ),
                                bseq[i as int],
                                j + 1,
                            ));
                            assert(acc@ == accj.update(
                                bseq[i as int][j as int] as int,
                                if accj[bseq[i as int][j as int] as int] == 0 {
                                    1u8
                                } else {
                                    0u8
                                },
                            ));
                        }
                        j = j + 1;
                    }
                }
                i = i + 1;
            }
            // compare with the target
            let mut same = true;
            let mut t: usize = 0;
            while t < target.len()
                invariant
                    t <= target@.len(),
                    acc@.len() == target@.len(),
                    same == (forall|q: int| 0 <= q < t ==> acc@[q] == target@[q]),
                decreases target@.len() - t,
            {
                if acc[t] != target[t] {
                    same = false;
                }
                t = t + 1;
            }
            proof {
                if same {
                    assert(acc@ =~= target@);
                }
            }
            if same {
                let pc = popcount(mask);
                best = match best {
                    None => Some((pc, mask)),
                    Some(b) => {
                        if pc <= b.0 {
                            Some((pc, mask))
                        } else {
                            Some(b)
                        }
                    },
                };
            }
        }
        best
    }
}


/// The first query over parsed rows: each row contributes the press
/// count of its best combination (nothing if no combination works);
/// `None` when a row has 64 or more buttons or wiring out of range.
pub open spec fn spec_press_sum(rows: Seq<(Seq<u8>, Seq<Seq<i64>>)>, k: int) -> Option<int>
    decreases rows.len() - k,
{
    if k < 0 || k >= rows.len() {
        Some(0)
    } else {
        let (target, buttons) = rows[k];
        if buttons.len() >= 64 || !buttons_valid(target.len(), buttons) {
            None
        } else {
            match spec_press_sum(rows, k + 1) {
                None => None,
                Some(rest) => {
                    let here = match spec_best_combo(
                        buttons,
                        target,
                        1,
                        1u64 << buttons.len() as u64,
                    ) {
                        Some(b) => b.0 as int,
                        None => 0,
                    };
                    Some(rest + here)
                },
            }
        }
    }
}

impl Day10 {
    /// First query: over all lines, the total presses of the smallest
    /// button combinations that produce each target pattern. `None`
    /// exactly on malformed input, an oversized button set, or wiring
    /// that points outside the target.
    pub fn part1(&self, input: &str) -> (r: Option<String>)
        ensures
            match r {
                None => spec_parse_rows(spec_lines(input@)) is None || regex_rejects(
                    "(\\[[^\\]\\r\\n]+\\])"@,
                ) || regex_rejects("(\\([^\\)\\r\\n]+\\))"@) || (spec_parse_rows(
                    spec_lines(input@),
                ) matches Some(rows) && spec_press_sum(rows, 0) is None),
                Some(out) => {
                    &&& spec_parse_rows(spec_lines(input@)) is Some
                    &&& spec_press_sum(spec_parse_rows(spec_lines(input@))->Some_0, 0)
                        matches Some(v) && out@ == spec_uint_string(v)
                },
            },
    {
        let rows = match Self::parse(input) {
            Some(rs) => rs,
            None => {
                return None;
            },
        };
        let ghost rseq = spec_parse_rows(spec_lines(input@))->Some_0;
        let n = rows.len();
        let mut sum: u128 = 0;
        let mut k: usize = n;
        while k > 0
            invariant
                n == rows@.len(),
                rseq == spec_parse_rows(spec_lines(input@))->Some_0,
                spec_parse_rows(spec_lines(input@)) is Some,
                rseq.len() == n,
                forall|t: int| 0 <= t < n ==> (#[trigger] rows@[t]).0@ == rseq[t].0,
                forall|t: int|
                    0 <= t < n ==> {
                        let bs = rseq[t].1;
                        let bv = (#[trigger] rows@[t]).1;
                        bv@.len() == bs.len() && forall|q: int|
                            0 <= q < bs.len() ==> (#[trigger] bv@[q])@ == bs[q]
                    },
                k <= n,
                sum <= 64 * (n - k),
                spec_press_sum(rseq, k as int) == Some(sum as int),
            decreases k,
        {
            k = k - 1;
            let target = &rows[k].0;
            let buttons = &rows[k].1;
            proof {
                assert(rows@[k as int].0@ == rseq[k as int].0);
                assert(buttons@.map_values(|b: Vec<i64>| b@) =~= rseq[k as int].1);
            }
            if buttons.len() >= 64 {
                proof {
                    lemma_press_sum_none(rseq, 0, k as int);
                }
                return None;
            }
            // check the wiring
            let tl = target.len();
            let mut i: usize = 0;
            while i < buttons.len()
                invariant
                    rseq == spec_parse_rows(spec_lines(input@))->Some_0,
                    spec_parse_rows(spec_lines(input@)) is Some,
                    k < rseq.len(),
                    tl == target@.len(),
                    target@ == rseq[k as int].0,
                    buttons@.map_values(|b: Vec<i64>| b@) == rseq[k as int].1,
                    i <= buttons@.len(),
                    forall|a: int, b: int|
                        0 <= a < i && 0 <= b < (#[trigger] buttons@[a])@.len() ==> 0 <= (
                        #[trigger] buttons@[a]@[b]) < target@.len(),
                decreases buttons@.len() - i,
            {
                let ps = &buttons[i];
                let mut j: usize = 0;
                while j < ps.len()
                    invariant
                        rseq == spec_parse_rows(spec_lines(input@))->Some_0,
                        spec_parse_rows(spec_lines(input@)) is Some,
                        k < rseq.len(),
                        tl == target@.len(),
                        target@ == rseq[k as int].0,
                        buttons@.map_values(|b: Vec<i64>| b@) == rseq[k as int].1,
                        j <= ps@.len(),
                        i < buttons@.len(),
                        ps@ == buttons@[i as int]@,
                        forall|b: int|
                            0 <= b < j ==> 0 <= (#[trigger] ps@[b]) < target@.len(),
                    decreases ps@.len() - j,
                {
                    let p = ps[j];
                    let bad = if p < 0 {
                        true
                    } else {
                        (p as u64) >= (tl as u64)
                    };
                    if bad {
                        proof {
                            assert(rseq[k as int].1[i as int] == buttons@.map_values(
                                |b: Vec<i64>| b@,
                            )[i as int]);
                            assert(rseq[k as int].1[i as int][j as int] == ps@[j as int]);
                            assert(!(0 <= rseq[k as int].1[i as int][j as int]
                                < rseq[k as int].0.len()));
                            assert(!buttons_valid(rseq[k as int].0.len(), rseq[k as int].1));
                            lemma_press_sum_none(rseq, 0, k as int);
                        }
                        return None;
                    }
                    j = j + 1;
                }
                i = i + 1;
            }
            proof {
                assert forall|a: int, b: int|
                    0 <= a < rseq[k as int].1.len() && 0 <= b < rseq[k as int].1[a].len()
                    implies 0 <= (#[trigger] rseq[k as int].1[a][b])
                    < rseq[k as int].0.len() by {
                    assert(rseq[k as int].1[a] == buttons@[a]@);
                }
            }
            let best = Self::min_combo(target, buttons);
            match best {
                Some(b) => {
                    proof {
                        lemma_best_combo_pc(
                            buttons@.map_values(|bb: Vec<i64>| bb@),
                            target@,
                            1,
                            1u64 << buttons@.len() as u64,
                        );
                        lemma_popcount_bound(b.1);
                    }
                    sum = sum + (b.0 as u128);
                },
                None => {},
            }
        }
        proof {
            lemma_press_sum_nonneg(rseq, 0);
        }
        Some(u128_string(sum))
    }
}

proof fn lemma_best_combo_pc(buttons: Seq<Seq<i64>>, target: Seq<u8>, m: u64, limit: u64)
    ensures
        spec_best_combo(buttons, target, m, limit) matches Some(b) ==> b.0
            == spec_popcount(b.1),
    decreases limit - m,
{
    if m < limit {
        lemma_popcount_bound(m);
        lemma_best_combo_pc(buttons, target, (m + 1) as u64, limit);
    }
}

proof fn lemma_press_sum_none(rows: Seq<(Seq<u8>, Seq<Seq<i64>>)>, j: int, k: int)
    requires
        0 <= j <= k < rows.len(),
        rows[k].1.len() >= 64 || !buttons_valid(rows[k].0.len(), rows[k].1),
    ensures
        spec_press_sum(rows, j) is None,
    decreases k - j,
{
    if j < k {
        lemma_press_sum_none(rows, j + 1, k);
    }
}

proof fn lemma_press_sum_nonneg(rows: Seq<(Seq<u8>, Seq<Seq<i64>>)>, k: int)
    ensures
        spec_press_sum(rows, k) matches Some(v) ==> v >= 0,
    decreases rows.len() - k,
{
    if 0 <= k < rows.len() {
        lemma_press_sum_nonneg(rows, k + 1);
    }
}

proof fn lemma_buttons_fail(groups: Seq<Seq<char>>, k: int)
    requires
        0 <= k < groups.len(),
        spec_button_of(groups[k]) is None,
    ensures
        spec_buttons_of(groups) is None,
    decreases groups.len(),
{
    if k < groups.len() - 1 {
        assert(groups.drop_last()[k] == groups[k]);
        lemma_buttons_fail(groups.drop_last(), k);
    }
}

proof fn lemma_filter_extends_bad(s: Seq<char>, q: int)
    requires
        0 <= q < s.len(),
        s[q] != '[' && s[q] != ']' && s[q] != '.' && s[q] != '#',
    ensures
        !(forall|t: int|
            0 <= t < bracket_body(s).len() ==> ((#[trigger] bracket_body(s)[t]) == '.'
                || bracket_body(s)[t] == '#')),
{
    s.lemma_filter_contains(|c: char| c != '[' && c != ']', q);
    let body = bracket_body(s);
    assert(body.contains(s[q]));
    let t = choose|t: int| 0 <= t < body.len() && body[t] == s[q];
    assert(!(body[t] == '.' || body[t] == '#'));
}

} // verus!
