//! Worksheet puzzle: whitespace-separated columns of numbers, each
//! column headed (at its bottom) by a `*` or `+` operator; every
//! column is evaluated under its operator and the results are summed.

use vstd::prelude::*;

use crate::strutil::{
    lines_of, spec_lines, spec_parse_i64, parse_i64, spec_words, string_from_chars, to_chars,
    words_of, spec_int_string, i128_string,
};

verus! {

pub struct Day06;

/// The words of every input line.
pub open spec fn spec_word_rows(s: Seq<char>) -> Seq<Seq<Seq<char>>> {
    Seq::new(spec_lines(s).len(), |i: int| spec_words(spec_lines(s)[i]))
}

/// One transposed column: walking the rows top to bottom, a present
/// entry goes to the front of the column, a missing one appends an
/// empty cell at the back.
pub open spec fn spec_col_fold(
    m: Seq<Seq<Seq<char>>>,
    j: int,
    i: int,
    acc: Seq<Seq<char>>,
) -> Seq<Seq<char>>
    decreases m.len() - i,
{
    if i < 0 || i >= m.len() {
        acc
    } else {
        let acc2 = if j < m[i].len() {
            seq![m[i][j]] + acc
        } else {
            acc.push(Seq::empty())
        };
        spec_col_fold(m, j, i + 1, acc2)
    }
}

/// The transpose of the word rows, one output row per column of the
/// first input row.
pub open spec fn spec_transpose(m: Seq<Seq<Seq<char>>>) -> Seq<Seq<Seq<char>>> {
    if m.len() == 0 {
        Seq::empty()
    } else {
        Seq::new(m[0].len(), |j: int| spec_col_fold(m, j, 0, Seq::empty()))
    }
}

/// Folding one evaluated row from its third cell on: the first cell
/// holds the operator, the second the start value. `None` mirrors a
/// missing operator, an unparsable cell, or a value outside the
/// 64-bit range the worksheet arithmetic uses.
pub open spec fn spec_row_val(row: Seq<Seq<char>>, i: int, res: int) -> Option<int>
    decreases row.len() - i,
{
    if i < 0 || i >= row.len() {
        Some(res)
    } else {
        match spec_parse_i64(row[i]) {
            None => None,
            Some(v) => {
                let op = row[0];
                if op.len() == 1 && op[0] == '*' {
                    let r2 = res * v;
                    if i64::MIN <= r2 <= i64::MAX {
                        spec_row_val(row, i + 1, r2)
                    } else {
                        None
                    }
                } else if op.len() == 1 && op[0] == '+' {
                    let r2 = res + v;
                    if i64::MIN <= r2 <= i64::MAX {
                        spec_row_val(row, i + 1, r2)
                    } else {
                        None
                    }
                } else {
                    None
                }
            },
        }
    }
}

/// The summed value of all rows from `k` on.
pub open spec fn spec_rows_sum(rows: Seq<Seq<Seq<char>>>, k: int, total: int) -> Option<int>
    decreases rows.len() - k,
{
    if k < 0 || k >= rows.len() {
        Some(total)
    } else {
        let row = rows[k];
        if row.len() < 2 {
            None
        } else {
            match spec_parse_i64(row[1]) {
                None => None,
                Some(v0) => match spec_row_val(row, 2, v0 as int) {
                    None => None,
                    Some(v) => {
                        let t2 = total + v;
                        if i64::MIN <= t2 <= i64::MAX {
                            spec_rows_sum(rows, k + 1, t2)
                        } else {
                            None
                        }
                    },
                },
            }
        }
    }
}

impl Day06 {
    /// Transposes rows of words, reversing each column and padding
    /// missing cells, exactly as the evaluated worksheet expects.
    pub fn transpose(matrix: &Vec<Vec<String>>) -> (out: Vec<Vec<String>>)
        ensures
            ({
                let m = Seq::new(
                    matrix@.len(),
                    |i: int| Seq::new(matrix@[i]@.len(), |j: int| matrix@[i]@[j]@),
                );
                &&& out@.len() == spec_transpose(m).len()
                &&& forall|j: int|
                    0 <= j < out@.len() ==> {
                        let col = spec_transpose(m)[j];
                        let cv = #[trigger] out@[j];
                        cv@.len() == col.len() && forall|t: int|
                            0 <= t < col.len() ==> (#[trigger] cv@[t])@ == col[t]
                    }
            }),
    {
        let ghost m = Seq::new(
            matrix@.len(),
            |i: int| Seq::new(matrix@[i]@.len(), |j: int| matrix@[i]@[j]@),
        );
        let mut out: Vec<Vec<String>> = Vec::new();
        if matrix.len() == 0 {
            return out;
        }
        let cols = matrix[0].len();
        let rows = matrix.len();
        let mut j: usize = 0;
        while j < cols
            invariant
                m == Seq::new(
                    matrix@.len(),
                    |i: int| Seq::new(matrix@[i]@.len(), |jj: int| matrix@[i]@[jj]@),
                ),
                matrix@.len() >= 1,
                rows == matrix@.len(),
                cols == m[0].len(),
                j <= cols,
                out@.len() == j,
                forall|q: int|
                    0 <= q < j ==> {
                        let col = spec_transpose(m)[q];
                        let cv = #[trigger] out@[q];
                        cv@.len() == col.len() && forall|t: int|
                            0 <= t < col.len() ==> (#[trigger] cv@[t])@ == col[t]
                    },
            decreases cols - j,
        {
            let mut col: Vec<String> = Vec::new();
            let mut i: usize = 0;
            while i < rows
                invariant
                    m == Seq::new(
                        matrix@.len(),
                        |ii: int| Seq::new(matrix@[ii]@.len(), |jj: int| matrix@[ii]@[jj]@),
                    ),
                    rows == matrix@.len(),
                    i <= rows,
                    ({
                        let cm = Seq::new(col@.len(), |t: int| col@[t]@);
                        spec_col_fold(m, j as int, 0, Seq::empty()) == spec_col_fold(
                            m,
                            j as int,
                            i as int,
                            cm,
                        )
                    }),
                decreases rows - i,
            {
                let ghost cm0 = Seq::new(col@.len(), |t: int| col@[t]@);
                if j < matrix[i].len() {
                    let cell = matrix[i][j].clone();
                    col.insert(0, cell);
                    proof {
                        assert(Seq::new(col@.len(), |t: int| col@[t]@) =~= seq![
                            m[i as int][j as int],
                        ] + cm0);
                    }
                } else {
                    col.push(String::new());
                    proof {
                        assert(Seq::new(col@.len(), |t: int| col@[t]@) =~= cm0.push(
                            Seq::empty(),
                        ));
                    }
                }
                i = i + 1;
            }
            out.push(col);
            j = j + 1;
        }
        out
    }

    /// Parses the worksheet: words per line, transposed into columns.
    pub fn parse(input: &str) -> (out: Vec<Vec<String>>)
        ensures
            out@.len() == spec_transpose(spec_word_rows(input@)).len(),
            forall|j: int|
                0 <= j < out@.len() ==> {
                    let col = spec_transpose(spec_word_rows(input@))[j];
                    let cv = #[trigger] out@[j];
                    cv@.len() == col.len() && forall|t: int|
                        0 <= t < col.len() ==> (#[trigger] cv@[t])@ == col[t]
                },
    {
        let cs = to_chars(input);
        let lns = lines_of(&cs);
        let ghost lseq = spec_lines(input@);
        let mut rows: Vec<Vec<String>> = Vec::new();
        let mut k: usize = 0;
        while k < lns.len()
            invariant
                lseq == spec_lines(input@),
                lns@.len() == lseq.len(),
                forall|t: int| 0 <= t < lns@.len() ==> (#[trigger] lns@[t])@ == lseq[t],
                k <= lns@.len(),
                rows@.len() == k,
                forall|t: int|
                    0 <= t < k ==> {
                        let ws = spec_words(lseq[t]);
                        let rv = #[trigger] rows@[t];
                        rv@.len() == ws.len() && forall|q: int|
                            0 <= q < ws.len() ==> (#[trigger] rv@[q])@ == ws[q]
                    },
            decreases lns@.len() - k,
        {
            let ws = words_of(&lns[k]);
            let mut row: Vec<String> = Vec::new();
            let mut q: usize = 0;
            while q < ws.len()
                invariant
                    k < lseq.len(),
                    lseq == spec_lines(input@),
                    (#[trigger] lns@[k as int])@ == lseq[k as int],
                    lns@.len() == lseq.len(),
                    ws@.len() == spec_words(lseq[k as int]).len(),
                    forall|t: int|
                        0 <= t < ws@.len() ==> (#[trigger] ws@[t])@ == spec_words(
                            lseq[k as int],
                        )[t],
                    q <= ws@.len(),
                    row@.len() == q,
                    forall|t: int|
                        0 <= t < q ==> (#[trigger] row@[t])@ == spec_words(lseq[k as int])[t],
                decreases ws@.len() - q,
            {
                row.push(string_from_chars(&ws[q]));
                q = q + 1;
            }
            rows.push(row);
            k = k + 1;
        }
        let out = Self::transpose(&rows);
        proof {
            assert(Seq::new(
                rows@.len(),
                |i: int| Seq::new(rows@[i]@.len(), |j: int| rows@[i]@[j]@),
            ) =~~= spec_word_rows(input@));
        }
        out
    }

    /// Evaluates every column row and sums the results; `None` exactly
    /// where the specification fold fails (short rows, bad numbers, unknown
    /// operators, 64-bit overflow).
    pub fn compute_row_sum(rows: &Vec<Vec<String>>) -> (r: Option<i64>)
        ensures
            ({
                let rs = Seq::new(
                    rows@.len(),
                    |i: int| Seq::new(rows@[i]@.len(), |j: int| rows@[i]@[j]@),
                );
                match r {
                    None => spec_rows_sum(rs, 0, 0) is None,
                    Some(v) => spec_rows_sum(rs, 0, 0) == Some(v as int),
                }
            }),
    {
        let ghost rs = Seq::new(
            rows@.len(),
            |i: int| Seq::new(rows@[i]@.len(), |j: int| rows@[i]@[j]@),
        );
        let n = rows.len();
        let mut total: i64 = 0;
        let mut k: usize = 0;
        while k < n
            invariant
                rs == Seq::new(
                    rows@.len(),
                    |i: int| Seq::new(rows@[i]@.len(), |j: int| rows@[i]@[j]@),
                ),
                n == rows@.len(),
                k <= n,
                spec_rows_sum(rs, 0, 0) == spec_rows_sum(rs, k as int, total as int),
            decreases n - k,
        {
            let row = &rows[k];
            proof {
                assert(rs[k as int] =~= Seq::new(row@.len(), |j: int| row@[j]@));
            }
            if row.len() < 2 {
                return None;
            }
            let first = to_chars(row[1].as_str());
            let mut res: i64 = match parse_i64(&first) {
                Some(v) => v,
                None => {
                    proof {
                        assert(rs[k as int][1] == row@[1]@);
                    }
                    return None;
                },
            };
            let is_mul = row[0].as_str().unicode_len() == 1 && row[0].as_str().get_char(0) == '*';
            let is_add = row[0].as_str().unicode_len() == 1 && row[0].as_str().get_char(0) == '+';
            proof {
                assert(rs[k as int][0] == row@[0]@);
            }
            let ghost res0: int = res as int;
            let mut i: usize = 2;
            while i < row.len()
                invariant
                    rs == Seq::new(
                        rows@.len(),
                        |ii: int| Seq::new(rows@[ii]@.len(), |j: int| rows@[ii]@[j]@),
                    ),
                    k < rows@.len(),
                    n == rows@.len(),
                    spec_rows_sum(rs, 0, 0) == spec_rows_sum(rs, k as int, total as int),
                    rs[k as int].len() >= 2,
                    spec_parse_i64(rs[k as int][1]) matches Some(v0) && v0 as int == res0,
                    row@ == rows@[k as int]@,
                    rs[k as int] =~= Seq::new(row@.len(), |j: int| row@[j]@),
                    2 <= i <= row@.len(),
                    is_mul == (rs[k as int][0].len() == 1 && rs[k as int][0][0] == '*'),
                    is_add == (rs[k as int][0].len() == 1 && rs[k as int][0][0] == '+'),
                    spec_row_val(rs[k as int], 2, res0) == spec_row_val(
                        rs[k as int],
                        i as int,
                        res as int,
                    ),
                decreases row@.len() - i,
            {
                let ghost res_in = res as int;
                let cell = to_chars(row[i].as_str());
                let v = match parse_i64(&cell) {
                    Some(v) => v,
                    None => {
                        proof {
                            assert(rs[k as int][i as int] == row@[i as int]@);
                        }
                        return None;
                    },
                };
                proof {
                    assert(rs[k as int][i as int] == row@[i as int]@);
                    lemma_mul_i64_range(res as int, v as int);
                }
                if is_mul {
                    let wide: i128 = res as i128 * v as i128;
                    if wide > i64::MAX as i128 || wide < i64::MIN as i128 {
                        return None;
                    }
                    res = wide as i64;
                } else if is_add {
                    let wide: i128 = res as i128 + v as i128;
                    if wide > i64::MAX as i128 || wide < i64::MIN as i128 {
                        return None;
                    }
                    res = wide as i64;
                } else {
                    return None;
                }
                proof {
                    assert(spec_parse_i64(rs[k as int][i as int]) == Some(v));
                    assert(spec_row_val(rs[k as int], i as int, res_in) == spec_row_val(
                        rs[k as int],
                        i + 1,
                        res as int,
                    ));
                }
                i = i + 1;
            }
            let wide: i128 = total as i128 + res as i128;
            if wide > i64::MAX as i128 || wide < i64::MIN as i128 {
                return None;
            }
            total = wide as i64;
            k = k + 1;
        }
        Some(total)
    }

    /// First query: the worksheet sum of the simple column layout.
    /// `None` exactly where the evaluation fold fails.
    pub fn part1(&self, input: &str) -> (r: Option<String>)
        ensures
            match r {
                None => spec_rows_sum(spec_transpose(spec_word_rows(input@)), 0, 0) is None,
                Some(out) => spec_rows_sum(spec_transpose(spec_word_rows(input@)), 0, 0)
                    matches Some(v) && out@ == spec_int_string(v),
            },
    {
        let rows = Self::parse(input);
        proof {
            assert(Seq::new(
                rows@.len(),
                |i: int| Seq::new(rows@[i]@.len(), |j: int| rows@[i]@[j]@),
            ) =~~= spec_transpose(spec_word_rows(input@)));
        }
        match Self::compute_row_sum(&rows) {
            Some(v) => Some(i128_string(v as i128)),
            None => None,
        }
    }
}


/// Scanning one character column of the worksheet: digits of that
/// column gather into a number, `*` and `+` append to the running
/// operator, whitespace is skipped, and a fully empty column closes
/// the current group.
pub open spec fn spec_col_scan(
    lines: Seq<Seq<char>>,
    i: int,
    y: int,
    num: Seq<char>,
    ops: Seq<char>,
    empty: bool,
) -> (Seq<char>, Seq<char>, bool)
    decreases lines.len() - y,
{
    if y < 0 || y >= lines.len() {
        (num, ops, empty)
    } else if i >= lines[y].len() {
        spec_col_scan(lines, i, y + 1, num, ops, empty)
    } else {
        let c = lines[y][i];
        if crate::strutil::is_space(c) {
            spec_col_scan(lines, i, y + 1, num, ops, empty)
        } else if c == '*' || c == '+' {
            spec_col_scan(lines, i, y + 1, num, ops.push(c), false)
        } else {
            spec_col_scan(lines, i, y + 1, num.push(c), ops, false)
        }
    }
}

/// An all-empty column scan leaves the gathered state untouched.
proof fn lemma_scan_empty(
    lines: Seq<Seq<char>>,
    i: int,
    y: int,
    num: Seq<char>,
    ops: Seq<char>,
    empty: bool,
)
    ensures
        spec_col_scan(lines, i, y, num, ops, empty).2 ==> spec_col_scan(lines, i, y, num, ops, empty)
            == (num, ops, empty),
    decreases lines.len() - y,
{
    if 0 <= y < lines.len() {
        if i >= lines[y].len() {
            lemma_scan_empty(lines, i, y + 1, num, ops, empty);
        } else {
            let c = lines[y][i];
            if crate::strutil::is_space(c) {
                lemma_scan_empty(lines, i, y + 1, num, ops, empty);
            } else if c == '*' || c == '+' {
                lemma_scan_empty(lines, i, y + 1, num, ops.push(c), false);
            } else {
                lemma_scan_empty(lines, i, y + 1, num.push(c), ops, false);
            }
        }
    }
}

/// Folding the columns into groups: a non-empty column prepends its
/// number to the open group, an empty column closes the group by
/// prepending the gathered operator.
pub open spec fn spec_p2_fold(
    lines: Seq<Seq<char>>,
    i: int,
    done: Seq<Seq<Seq<char>>>,
    cur: Seq<Seq<char>>,
    op: Seq<char>,
) -> Seq<Seq<Seq<char>>>
    decreases lines[0].len() - i,
{
    if i < 0 || i >= lines[0].len() {
        done.push(seq![op] + cur)
    } else {
        let r = spec_col_scan(lines, i, 0, Seq::empty(), op, true);
        if r.2 {
            spec_p2_fold(lines, i + 1, done.push(seq![op] + cur), Seq::empty(), Seq::empty())
        } else {
            spec_p2_fold(lines, i + 1, done, seq![r.0] + cur, r.1)
        }
    }
}

/// The rows of the vertically-drawn worksheet.
pub open spec fn spec_parse_2(s: Seq<char>) -> Seq<Seq<Seq<char>>> {
    spec_p2_fold(spec_lines(s), 0, Seq::empty(), Seq::empty(), Seq::empty())
}

impl Day06 {
    /// Parses the vertically-drawn worksheet, where each group of
    /// columns between fully blank columns forms one evaluated row.
    /// Requires a first line to measure the width, as the walk does.
    pub fn parse_2(input: &str) -> (r: Option<Vec<Vec<String>>>)
        ensures
            match r {
                None => spec_lines(input@).len() == 0,
                Some(rows) => {
                    &&& spec_lines(input@).len() > 0
                    &&& ({
                        let rs = spec_parse_2(input@);
                        rows@.len() == rs.len() && forall|t: int|
                            0 <= t < rs.len() ==> {
                                let rv = #[trigger] rows@[t];
                                rv@.len() == rs[t].len() && forall|q: int|
                                    0 <= q < rs[t].len() ==> (#[trigger] rv@[q])@ == rs[t][q]
                            }
                    })
                },
            },
    {
        let cs = to_chars(input);
        let lns = lines_of(&cs);
        let ghost lseq = spec_lines(input@);
        if lns.len() == 0 {
            return None;
        }
        let width = lns[0].len();
        let rows_n = lns.len();
        let mut done: Vec<Vec<String>> = Vec::new();
        let mut cur: Vec<String> = Vec::new();
        let mut op: Vec<char> = Vec::new();
        proof {
            assert(Seq::new(done@.len(), |t: int| {
                let g = done@[t];
                Seq::new(g@.len(), |q: int| g@[q]@)
            }) =~= Seq::<Seq<Seq<char>>>::empty());
            assert(Seq::new(cur@.len(), |q: int| cur@[q]@) =~= Seq::<Seq<char>>::empty());
        }
        let mut i: usize = 0;
        while i < width
            invariant
                lseq == spec_lines(input@),
                lns@.len() == lseq.len(),
                lseq.len() > 0,
                forall|t: int| 0 <= t < lns@.len() ==> (#[trigger] lns@[t])@ == lseq[t],
                rows_n == lseq.len(),
                width == lseq[0].len(),
                i <= width,
                spec_parse_2(input@) == spec_p2_fold(
                    lseq,
                    i as int,
                    Seq::new(done@.len(), |t: int| {
                        let g = done@[t];
                        Seq::new(g@.len(), |q: int| g@[q]@)
                    }),
                    Seq::new(cur@.len(), |q: int| cur@[q]@),
                    op@,
                ),
            decreases width - i,
        {
            let ghost done0 = Seq::new(done@.len(), |t: int| {
                let g = done@[t];
                Seq::new(g@.len(), |q: int| g@[q]@)
            });
            let ghost cur0 = Seq::new(cur@.len(), |q: int| cur@[q]@);
            let ghost op0 = op@;
            let mut num: Vec<char> = Vec::new();
            let mut all_empty = true;
            let mut y: usize = 0;
            while y < rows_n
                invariant
                    lseq == spec_lines(input@),
                    lns@.len() == lseq.len(),
                    forall|t: int| 0 <= t < lns@.len() ==> (#[trigger] lns@[t])@ == lseq[t],
                    rows_n == lseq.len(),
                    y <= rows_n,
                    spec_col_scan(lseq, i as int, 0, Seq::empty(), op0, true) == spec_col_scan(
                        lseq,
                        i as int,
                        y as int,
                        num@,
                        op@,
                        all_empty,
                    ),
                decreases rows_n - y,
            {
                let line = &lns[y];
                if i < line.len() {
                    let c = line[i];
                    if crate::strutil::is_space_exec(c) {
                    } else if c == '*' || c == '+' {
                        op.push(c);
                        all_empty = false;
                    } else {
                        num.push(c);
                        all_empty = false;
                    }
                }
                y = y + 1;
            }
            if all_empty {
                let mut group = cur;
                group.insert(0, crate::strutil::string_from_chars(&op));
                let ghost donev0 = done@;
                done.push(group);
                cur = Vec::new();
                op = Vec::new();
                proof {
                    lemma_scan_empty(lseq, i as int, 0, Seq::empty(), op0, true);
                    assert(Seq::new(group@.len(), |q: int| group@[q]@) =~= seq![op0] + cur0);
                    assert forall|t: int| 0 <= t < done@.len() implies Seq::new(done@.len(), |t2: int| {
                        let g = done@[t2];
                        Seq::new(g@.len(), |q: int| g@[q]@)
                    })[t] == (done0.push(seq![op0] + cur0))[t] by {
                        if t < donev0.len() {
                            assert(done@[t] == donev0[t]);
                            assert(done0[t] == Seq::new(donev0[t]@.len(), |q: int| donev0[t]@[q]@));
                        } else {
                            assert(done@[t] == group);
                        }
                    }
                    assert(Seq::new(done@.len(), |t: int| {
                        let g = done@[t];
                        Seq::new(g@.len(), |q: int| g@[q]@)
                    }) =~= done0.push(seq![op0] + cur0));
                    assert(Seq::new(cur@.len(), |q: int| cur@[q]@) =~= Seq::<Seq<char>>::empty());
                }
            } else {
                let ghost curv0 = cur@;
                cur.insert(0, crate::strutil::string_from_chars(&num));
                proof {
                    let r = spec_col_scan(lseq, i as int, 0, Seq::empty(), op0, true);
                    assert(num@ == r.0);
                    assert forall|q: int| 0 <= q < cur@.len() implies Seq::new(
                        cur@.len(),
                        |q2: int| cur@[q2]@,
                    )[q] == (seq![r.0] + cur0)[q] by {
                        if q > 0 {
                            assert(cur@[q] == curv0[q - 1]);
                            assert(cur0[q - 1] == Seq::new(curv0.len(), |q3: int| curv0[q3]@)[q
                                - 1]);
                        }
                    }
                    assert(Seq::new(cur@.len(), |q: int| cur@[q]@) =~= seq![r.0] + cur0);
                }
            }
            i = i + 1;
        }
        let ghost donef0 = Seq::new(done@.len(), |t: int| {
            let g = done@[t];
            Seq::new(g@.len(), |q: int| g@[q]@)
        });
        let ghost curf0 = Seq::new(cur@.len(), |q: int| cur@[q]@);
        let ghost opf0 = op@;
        let mut group = cur;
        group.insert(0, crate::strutil::string_from_chars(&op));
        let ghost donevf = done@;
        done.push(group);
        proof {
            let rs = spec_parse_2(input@);
            assert(Seq::new(group@.len(), |q: int| group@[q]@) =~= seq![opf0] + curf0);
            assert forall|t: int| 0 <= t < done@.len() implies Seq::new(done@.len(), |t2: int| {
                let g = done@[t2];
                Seq::new(g@.len(), |q: int| g@[q]@)
            })[t] == (donef0.push(seq![opf0] + curf0))[t] by {
                if t < donevf.len() {
                    assert(done@[t] == donevf[t]);
                    assert(donef0[t] == Seq::new(donevf[t]@.len(), |q: int| donevf[t]@[q]@));
                } else {
                    assert(done@[t] == group);
                }
            }
            assert(Seq::new(done@.len(), |t: int| {
                let g = done@[t];
                Seq::new(g@.len(), |q: int| g@[q]@)
            }) =~= donef0.push(seq![opf0] + curf0));
            assert(Seq::new(done@.len(), |t: int| {
                let g = done@[t];
                Seq::new(g@.len(), |q: int| g@[q]@)
            }) =~~= rs);
            assert forall|t: int| 0 <= t < rs.len() implies {
                let rv = #[trigger] done@[t];
                rv@.len() == rs[t].len() && forall|q: int|
                    0 <= q < rs[t].len() ==> (#[trigger] rv@[q])@ == rs[t][q]
            } by {
                assert(Seq::new(done@.len(), |t2: int| {
                    let g = done@[t2];
                    Seq::new(g@.len(), |q: int| g@[q]@)
                })[t] == Seq::new(done@[t]@.len(), |q: int| done@[t]@[q]@));
            }
        }
        Some(done)
    }

    /// Second query: the worksheet sum of the vertically-drawn layout.
    /// `None` exactly on an empty input or where the evaluation fold
    /// fails.
    pub fn part2(&self, input: &str) -> (r: Option<String>)
        ensures
            match r {
                None => spec_lines(input@).len() == 0 || spec_rows_sum(
                    spec_parse_2(input@),
                    0,
                    0,
                ) is None,
                Some(out) => {
                    &&& spec_lines(input@).len() > 0
                    &&& spec_rows_sum(spec_parse_2(input@), 0, 0) matches Some(v) && out@
                        == spec_int_string(v)
                },
            },
    {
        let rows = match Self::parse_2(input) {
            Some(rs) => rs,
            None => {
                return None;
            },
        };
        proof {
            assert(Seq::new(
                rows@.len(),
                |i: int| Seq::new(rows@[i]@.len(), |j: int| rows@[i]@[j]@),
            ) =~~= spec_parse_2(input@));
        }
        match Self::compute_row_sum(&rows) {
            Some(v) => Some(i128_string(v as i128)),
            None => None,
        }
    }
}

/// The product of two 64-bit values stays within 128 bits.
proof fn lemma_mul_i64_range(a: int, b: int)
    requires
        i64::MIN <= a <= i64::MAX,
        i64::MIN <= b <= i64::MAX,
    ensures
        -0x80000000000000000000000000000000 <= a * b <= 0x7fffffffffffffffffffffffffffffff,
{
    assert(-0x80000000000000000000000000000000 <= a * b
        <= 0x7fffffffffffffffffffffffffffffff) by (nonlinear_arith)
        requires
            -0x8000000000000000 <= a <= 0x7fffffffffffffff && -0x8000000000000000 <= b
                <= 0x7fffffffffffffff,
    ;
}

} // verus!
