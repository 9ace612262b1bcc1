//! Grid puzzle: cells marked `@` form a binary grid; a ring kernel
//! counts each cell's neighbors, and the query counts marked cells
//! with fewer than four marked neighbors.

use vstd::prelude::*;

use crate::strutil::{lines_of, spec_lines, spec_uint_string, to_chars, u128_string};

verus! {

pub struct Day04;

/// A rectangular grid with the given dimensions.
pub open spec fn rect(g: Seq<Vec<u8>>, rows: int, cols: int) -> bool {
    &&& g.len() == rows
    &&& forall|i: int| 0 <= i < rows ==> (#[trigger] g[i])@.len() == cols
}

/// All entries at or below `limit`.
pub open spec fn entries_le(g: Seq<Vec<u8>>, limit: u8) -> bool {
    forall|i: int, j: int|
        0 <= i < g.len() && 0 <= j < (#[trigger] g[i])@.len() ==> (#[trigger] g[i]@[j]) <= limit
}

/// The cell of the zero-padded grid: inside the core it is the grid
/// cell, outside it is zero. `p` is the border width.
pub open spec fn padded_cell(g: Seq<Vec<u8>>, p: int, rows: int, cols: int, a: int, b: int) -> u8 {
    if p <= a < p + rows && p <= b < p + cols {
        g[a - p]@[b - p]
    } else {
        0
    }
}

/// One row of the kernel window sum at output cell `(i, j)`.
pub open spec fn spec_conv_row(
    g: Seq<Vec<u8>>,
    kernel: Seq<Vec<u8>>,
    p: int,
    rows: int,
    cols: int,
    i: int,
    j: int,
    ki: int,
    kj: int,
) -> int
    decreases kernel[ki]@.len() - kj,
{
    if kj < 0 || kj >= kernel[ki]@.len() {
        0
    } else {
        kernel[ki]@[kj] * padded_cell(g, p, rows, cols, i + ki, j + kj) + spec_conv_row(
            g,
            kernel,
            p,
            rows,
            cols,
            i,
            j,
            ki,
            kj + 1,
        )
    }
}

/// The kernel window sum at output cell `(i, j)` of the convolution.
pub open spec fn spec_conv_cell_from(
    g: Seq<Vec<u8>>,
    kernel: Seq<Vec<u8>>,
    p: int,
    rows: int,
    cols: int,
    i: int,
    j: int,
    ki: int,
) -> int
    decreases kernel.len() - ki,
{
    if ki < 0 || ki >= kernel.len() {
        0
    } else {
        spec_conv_row(g, kernel, p, rows, cols, i, j, ki, 0) + spec_conv_cell_from(
            g,
            kernel,
            p,
            rows,
            cols,
            i,
            j,
            ki + 1,
        )
    }
}

/// The neighbor-ring kernel: eight ones around a zero.
pub fn ring_kernel() -> (k: Vec<Vec<u8>>)
    ensures
        rect(k@, 3, 3),
        entries_le(k@, 1),
        k@[0]@ == seq![1u8, 1u8, 1u8],
        k@[1]@ == seq![1u8, 0u8, 1u8],
        k@[2]@ == seq![1u8, 1u8, 1u8],
{
    let mut k: Vec<Vec<u8>> = Vec::new();
    let mut r0: Vec<u8> = Vec::new();
    r0.push(1);
    r0.push(1);
    r0.push(1);
    let mut r1: Vec<u8> = Vec::new();
    r1.push(1);
    r1.push(0);
    r1.push(1);
    let mut r2: Vec<u8> = Vec::new();
    r2.push(1);
    r2.push(1);
    r2.push(1);
    proof {
        assert(r0@ =~= seq![1u8, 1u8, 1u8]);
        assert(r1@ =~= seq![1u8, 0u8, 1u8]);
        assert(r2@ =~= seq![1u8, 1u8, 1u8]);
    }
    k.push(r0);
    k.push(r1);
    k.push(r2);
    k
}

impl Day04 {
    /// Parses the grid: `@` marks a cell, anything else is empty.
    pub fn parse(input: &str) -> (g: Vec<Vec<u8>>)
        ensures
            g@.len() == spec_lines(input@).len(),
            forall|i: int|
                0 <= i < g@.len() ==> {
                    let line = spec_lines(input@)[i];
                    let row = #[trigger] g@[i];
                    row@.len() == line.len() && forall|j: int|
                        0 <= j < line.len() ==> (#[trigger] row@[j]) == (if line[j] == '@' {
                            1u8
                        } else {
                            0u8
                        })
                },
            entries_le(g@, 1),
    {
        let cs = to_chars(input);
        let lns = lines_of(&cs);
        let ghost lseq = spec_lines(input@);
        let mut g: Vec<Vec<u8>> = Vec::new();
        let mut k: usize = 0;
        while k < lns.len()
            invariant
                lseq == spec_lines(input@),
                lns@.len() == lseq.len(),
                forall|t: int| 0 <= t < lns@.len() ==> (#[trigger] lns@[t])@ == lseq[t],
                k <= lns@.len(),
                g@.len() == k,
                forall|i: int|
                    0 <= i < k ==> {
                        let line = lseq[i];
                        let row = #[trigger] g@[i];
                        row@.len() == line.len() && forall|j: int|
                            0 <= j < line.len() ==> (#[trigger] row@[j]) == (if line[j] == '@' {
                                1u8
                            } else {
                                0u8
                            })
                    },
                entries_le(g@, 1),
            decreases lns@.len() - k,
        {
            let line = &lns[k];
            let mut row: Vec<u8> = Vec::new();
            let mut q: usize = 0;
            while q < line.len()
                invariant
                    q <= line@.len(),
                    row@.len() == q,
                    forall|j: int|
                        0 <= j < q ==> (#[trigger] row@[j]) == (if line@[j] == '@' {
                            1u8
                        } else {
                            0u8
                        }),
                decreases line@.len() - q,
            {
                if line[q] == '@' {
                    row.push(1);
                } else {
                    row.push(0);
                }
                q = q + 1;
            }
            g.push(row);
            k = k + 1;
        }
        g
    }

    /// Checks that a parsed grid is non-empty and rectangular.
    pub fn grid_ok(g: &Vec<Vec<u8>>) -> (ok: bool)
        ensures
            ok == (g@.len() >= 1 && rect(g@, g@.len() as int, g@[0]@.len() as int)),
    {
        if g.len() == 0 {
            return false;
        }
        let cols = g[0].len();
        let mut i: usize = 0;
        while i < g.len()
            invariant
                g@.len() >= 1,
                cols == g@[0]@.len(),
                i <= g@.len(),
                forall|t: int| 0 <= t < i ==> (#[trigger] g@[t])@.len() == cols,
            decreases g@.len() - i,
        {
            if g[i].len() != cols {
                return false;
            }
            i = i + 1;
        }
        true
    }

    /// The padded grid: the input surrounded by a zero border of width
    /// `kernel_size / 2` on every side.
    pub fn pad(grid: &Vec<Vec<u8>>, kernel_size: usize) -> (out: Vec<Vec<u8>>)
        requires
            grid@.len() >= 1,
            rect(grid@, grid@.len() as int, grid@[0]@.len() as int),
            grid@.len() + kernel_size <= usize::MAX,
            grid@[0]@.len() + kernel_size <= usize::MAX,
        ensures
            ({
                let p = kernel_size as int / 2;
                let rows = grid@.len() as int;
                let cols = grid@[0]@.len() as int;
                &&& rect(out@, rows + 2 * p, cols + 2 * p)
                &&& forall|a: int, b: int|
                    0 <= a < rows + 2 * p && 0 <= b < cols + 2 * p ==> (#[trigger] out@[a]@[b])
                        == padded_cell(grid@, p, rows, cols, a, b)
            }),
    {
        let p = kernel_size / 2;
        let rows = grid.len();
        let cols = grid[0].len();
        let mut out: Vec<Vec<u8>> = Vec::new();
        let mut a: usize = 0;
        while a < rows + 2 * p
            invariant
                p == kernel_size as int / 2,
                rows == grid@.len(),
                cols == grid@[0]@.len(),
                rect(grid@, rows as int, cols as int),
                rows + 2 * p <= usize::MAX,
                cols + 2 * p <= usize::MAX,
                a <= rows + 2 * p,
                out@.len() == a,
                forall|t: int| 0 <= t < a ==> (#[trigger] out@[t])@.len() == cols + 2 * p,
                forall|t: int, b: int|
                    0 <= t < a && 0 <= b < cols + 2 * p ==> (#[trigger] out@[t]@[b])
                        == padded_cell(grid@, p as int, rows as int, cols as int, t, b),
            decreases rows + 2 * p - a,
        {
            let mut rowv: Vec<u8> = Vec::new();
            let mut b: usize = 0;
            while b < cols + 2 * p
                invariant
                    p == kernel_size as int / 2,
                    rows == grid@.len(),
                    cols == grid@[0]@.len(),
                    rect(grid@, rows as int, cols as int),
                    cols + 2 * p <= usize::MAX,
                    rows + 2 * p <= usize::MAX,
                    b <= cols + 2 * p,
                    rowv@.len() == b,
                    forall|t: int|
                        0 <= t < b ==> (#[trigger] rowv@[t]) == padded_cell(
                            grid@,
                            p as int,
                            rows as int,
                            cols as int,
                            a as int,
                            t,
                        ),
                decreases cols + 2 * p - b,
            {
                let v: u8 = if a >= p && a < p + rows && b >= p && b < p + cols {
                    grid[a - p][b - p]
                } else {
                    0
                };
                rowv.push(v);
                b = b + 1;
            }
            out.push(rowv);
            a = a + 1;
        }
        out
    }

    /// The window sum at one output cell, read from the padded grid.
    fn window_sum(
        padded: &Vec<Vec<u8>>,
        kernel: &Vec<Vec<u8>>,
        i: usize,
        j: usize,
        Ghost(grid): Ghost<Seq<Vec<u8>>>,
        Ghost(p): Ghost<int>,
        Ghost(rows): Ghost<int>,
        Ghost(cols): Ghost<int>,
    ) -> (d: u8)
        requires
            rect(kernel@, 3, 3),
            entries_le(kernel@, 1),
            entries_le(grid, 1),
            p == 1,
            rows == grid.len(),
            rows >= 1,
            cols == grid[0]@.len(),
            rect(grid, rows, cols),
            rect(padded@, rows + 2, cols + 2),
            rows + 2 <= usize::MAX,
            cols + 2 <= usize::MAX,
            forall|a: int, b: int|
                0 <= a < rows + 2 && 0 <= b < cols + 2 ==> (#[trigger] padded@[a]@[b])
                    == padded_cell(grid, 1, rows, cols, a, b),
            i < rows,
            j < cols,
        ensures
            d == spec_conv_cell_from(grid, kernel@, 1, rows, cols, i as int, j as int, 0),
            d <= 9,
    {
        let mut d: u8 = 0;
        let mut ki: usize = 3;
        while ki > 0
            invariant
                rect(kernel@, 3, 3),
                entries_le(kernel@, 1),
                entries_le(grid, 1),
                rows == grid.len(),
                rows >= 1,
                cols == grid[0]@.len(),
                rect(grid, rows, cols),
                rect(padded@, rows + 2, cols + 2),
                rows + 2 <= usize::MAX,
                cols + 2 <= usize::MAX,
                forall|a: int, b: int|
                    0 <= a < rows + 2 && 0 <= b < cols + 2 ==> (#[trigger] padded@[a]@[b])
                        == padded_cell(grid, 1, rows, cols, a, b),
                i < rows,
                j < cols,
                ki <= 3,
                d as int == spec_conv_cell_from(
                    grid,
                    kernel@,
                    1,
                    rows,
                    cols,
                    i as int,
                    j as int,
                    ki as int,
                ),
                d <= 3 * (3 - ki),
            decreases ki,
        {
            ki = ki - 1;
            let mut rowsum: u8 = 0;
            let mut kj: usize = 3;
            while kj > 0
                invariant
                    rect(kernel@, 3, 3),
                    entries_le(kernel@, 1),
                    entries_le(grid, 1),
                    rows == grid.len(),
                    rows >= 1,
                    cols == grid[0]@.len(),
                    rect(grid, rows, cols),
                    rect(padded@, rows + 2, cols + 2),
                    rows + 2 <= usize::MAX,
                    cols + 2 <= usize::MAX,
                    forall|a: int, b: int|
                        0 <= a < rows + 2 && 0 <= b < cols + 2 ==> (#[trigger] padded@[a]@[b])
                            == padded_cell(grid, 1, rows, cols, a, b),
                    i < rows,
                    j < cols,
                    ki < 3,
                    kj <= 3,
                    rowsum as int == spec_conv_row(
                        grid,
                        kernel@,
                        1,
                        rows,
                        cols,
                        i as int,
                        j as int,
                        ki as int,
                        kj as int,
                    ),
                    rowsum <= 3 - kj,
                decreases kj,
            {
                kj = kj - 1;
                let kv = kernel[ki][kj];
                let pv = padded[i + ki][j + kj];
                proof {
                    assert(padded@[i + ki]@[j + kj] == padded_cell(
                        grid,
                        1,
                        rows,
                        cols,
                        i + ki,
                        j + kj,
                    ));
                    assert(pv <= 1);
                    assert(kv <= 1);
                    assert(kv * pv <= 1) by (nonlinear_arith)
                        requires
                            kv <= 1 && pv <= 1,
                    ;
                }
                rowsum = rowsum + kv * pv;
            }
            d = d + rowsum;
        }
        d
    }

    /// The convolution of the grid with the kernel: each output cell
    /// is the kernel window sum around that cell of the zero-padded
    /// grid.
    pub fn direct_conv(grid: &Vec<Vec<u8>>, kernel: &Vec<Vec<u8>>) -> (out: Vec<Vec<u8>>)
        requires
            rect(kernel@, 3, 3),
            entries_le(kernel@, 1),
            entries_le(grid@, 1),
            grid@.len() >= 1,
            rect(grid@, grid@.len() as int, grid@[0]@.len() as int),
            grid@.len() + 3 <= usize::MAX,
            grid@[0]@.len() + 3 <= usize::MAX,
        ensures
            ({
                let rows = grid@.len() as int;
                let cols = grid@[0]@.len() as int;
                &&& rect(out@, rows, cols)
                &&& forall|a: int, b: int|
                    0 <= a < rows && 0 <= b < cols ==> (#[trigger] out@[a]@[b]) as int
                        == spec_conv_cell_from(grid@, kernel@, 1, rows, cols, a, b, 0)
            }),
    {
        let rows = grid.len();
        let cols = grid[0].len();
        let padded = Self::pad(grid, 3);
        let mut out: Vec<Vec<u8>> = Vec::new();
        let mut a: usize = 0;
        while a < rows
            invariant
                rect(kernel@, 3, 3),
                entries_le(kernel@, 1),
                entries_le(grid@, 1),
                rows == grid@.len(),
                rows >= 1,
                cols == grid@[0]@.len(),
                rows + 3 <= usize::MAX,
                cols + 3 <= usize::MAX,
                rect(grid@, rows as int, cols as int),
                rect(padded@, rows + 2, cols + 2),
                forall|t: int, b: int|
                    0 <= t < rows + 2 && 0 <= b < cols + 2 ==> (#[trigger] padded@[t]@[b])
                        == padded_cell(grid@, 1, rows as int, cols as int, t, b),
                a <= rows,
                out@.len() == a,
                forall|t: int| 0 <= t < a ==> (#[trigger] out@[t])@.len() == cols,
                forall|t: int, b: int|
                    0 <= t < a && 0 <= b < cols ==> (#[trigger] out@[t]@[b]) as int
                        == spec_conv_cell_from(
                        grid@,
                        kernel@,
                        1,
                        rows as int,
                        cols as int,
                        t,
                        b,
                        0,
                    ),
            decreases rows - a,
        {
            let mut rowv: Vec<u8> = Vec::new();
            let mut b: usize = 0;
            while b < cols
                invariant
                    rect(kernel@, 3, 3),
                    entries_le(kernel@, 1),
                    entries_le(grid@, 1),
                    rows == grid@.len(),
                    rows >= 1,
                    cols == grid@[0]@.len(),
                    rows + 3 <= usize::MAX,
                    cols + 3 <= usize::MAX,
                    rect(grid@, rows as int, cols as int),
                    rect(padded@, rows + 2, cols + 2),
                    forall|t: int, bb: int|
                        0 <= t < rows + 2 && 0 <= bb < cols + 2 ==> (#[trigger] padded@[t]@[bb])
                            == padded_cell(grid@, 1, rows as int, cols as int, t, bb),
                    a < rows,
                    b <= cols,
                    rowv@.len() == b,
                    forall|bb: int|
                        0 <= bb < b ==> (#[trigger] rowv@[bb]) as int == spec_conv_cell_from(
                            grid@,
                            kernel@,
                            1,
                            rows as int,
                            cols as int,
                            a as int,
                            bb,
                            0,
                        ),
                decreases cols - b,
            {
                let d = Self::window_sum(
                    &padded,
                    kernel,
                    a,
                    b,
                    Ghost(grid@),
                    Ghost(1),
                    Ghost(rows as int),
                    Ghost(cols as int),
                );
                rowv.push(d);
                b = b + 1;
            }
            out.push(rowv);
            a = a + 1;
        }
        out
    }

    /// Zeroes every result cell whose grid cell is unmarked.
    pub fn mask_result(grid: &Vec<Vec<u8>>, result: &mut Vec<Vec<u8>>)
        requires
            grid@.len() == old(result)@.len(),
            forall|i: int|
                0 <= i < grid@.len() ==> (#[trigger] grid@[i])@.len() == old(result)@[i]@.len(),
        ensures
            final(result)@.len() == old(result)@.len(),
            forall|i: int|
                0 <= i < grid@.len() ==> (#[trigger] final(result)@[i])@.len()
                    == old(result)@[i]@.len(),
            forall|i: int, j: int|
                0 <= i < grid@.len() && 0 <= j < (#[trigger] grid@[i])@.len() ==> (
                #[trigger] final(result)@[i]@[j]) == (if grid@[i]@[j] == 0 {
                    0u8
                } else {
                    old(result)@[i]@[j]
                }),
    {
        let ghost r0 = result@;
        let mut i: usize = 0;
        while i < grid.len()
            invariant
                grid@.len() == r0.len(),
                forall|t: int| 0 <= t < grid@.len() ==> (#[trigger] grid@[t])@.len()
                    == r0[t]@.len(),
                i <= grid@.len(),
                result@.len() == r0.len(),
                forall|t: int| 0 <= t < r0.len() ==> (#[trigger] result@[t])@.len()
                    == r0[t]@.len(),
                forall|t: int| i <= t < r0.len() ==> (#[trigger] result@[t]) == r0[t],
                forall|t: int, j: int|
                    0 <= t < i && 0 <= j < (#[trigger] grid@[t])@.len() ==> (
                    #[trigger] result@[t]@[j]) == (if grid@[t]@[j] == 0 {
                        0u8
                    } else {
                        r0[t]@[j]
                    }),
            decreases grid@.len() - i,
        {
            let cols = grid[i].len();
            let mut j: usize = 0;
            while j < cols
                invariant
                    grid@.len() == r0.len(),
                    i < grid@.len(),
                    cols == grid@[i as int]@.len(),
                    cols == r0[i as int]@.len(),
                    j <= cols,
                    result@.len() == r0.len(),
                    forall|t: int| 0 <= t < r0.len() ==> (#[trigger] result@[t])@.len()
                        == r0[t]@.len(),
                    forall|t: int| i < t < r0.len() ==> (#[trigger] result@[t]) == r0[t],
                    forall|t: int, q: int|
                        0 <= t < i && 0 <= q < (#[trigger] grid@[t])@.len() ==> (
                        #[trigger] result@[t]@[q]) == (if grid@[t]@[q] == 0 {
                            0u8
                        } else {
                            r0[t]@[q]
                        }),
                    forall|q: int|
                        0 <= q < j ==> (#[trigger] result@[i as int]@[q]) == (if grid@[
                            i as int]@[q] == 0 {
                            0u8
                        } else {
                            r0[i as int]@[q]
                        }),
                    forall|q: int|
                        j <= q < cols ==> (#[trigger] result@[i as int]@[q]) == r0[i as int]@[q],
                decreases cols - j,
            {
                if grid[i][j] == 0 {
                    let cell = &mut result[i];
                    cell[j] = 0;
                }
                j = j + 1;
            }
            i = i + 1;
        }
    }

    /// Counts the marked cells whose masked neighbor count is below
    /// four.
    pub open spec fn spec_low_cells(g: Seq<Vec<u8>>, r: Seq<Vec<u8>>, i: int) -> int
        decreases g.len() - i,
    {
        if i < 0 || i >= g.len() {
            0
        } else {
            Self::spec_low_row(g, r, i, 0) + Self::spec_low_cells(g, r, i + 1)
        }
    }

    pub open spec fn spec_low_row(g: Seq<Vec<u8>>, r: Seq<Vec<u8>>, i: int, j: int) -> int
        decreases g[i]@.len() - j,
    {
        if j < 0 || j >= g[i]@.len() {
            0
        } else {
            (if g[i]@[j] != 0 && r[i]@[j] < 4 {
                1int
            } else {
                0int
            }) + Self::spec_low_row(g, r, i, j + 1)
        }
    }

    /// Counts cells that are marked in `grid` and below four in
    /// `result`.
    pub fn count_cells(grid: &Vec<Vec<u8>>, result: &Vec<Vec<u8>>) -> (count: u128)
        requires
            grid@.len() == result@.len(),
            forall|i: int|
                0 <= i < grid@.len() ==> (#[trigger] grid@[i])@.len() == result@[i]@.len(),
        ensures
            count as int == Self::spec_low_cells(grid@, result@, 0),
    {
        let mut count: u128 = 0;
        let n = grid.len();
        let mut i: usize = n;
        while i > 0
            invariant
                grid@.len() == result@.len(),
                n == grid@.len(),
                forall|t: int|
                    0 <= t < grid@.len() ==> (#[trigger] grid@[t])@.len() == result@[t]@.len(),
                i <= n,
                count as int == Self::spec_low_cells(grid@, result@, i as int),
                count <= (n - i) * 0xffffffffffffffffu128,
            decreases i,
        {
            i = i - 1;
            let cols = grid[i].len();
            let mut rowcount: u128 = 0;
            let mut j: usize = cols;
            while j > 0
                invariant
                    grid@.len() == result@.len(),
                    i < grid@.len(),
                    cols == grid@[i as int]@.len(),
                    cols == result@[i as int]@.len(),
                    j <= cols,
                    rowcount as int == Self::spec_low_row(grid@, result@, i as int, j as int),
                    rowcount <= cols - j,
                decreases j,
            {
                j = j - 1;
                if grid[i][j] != 0 && result[i][j] < 4 {
                    rowcount = rowcount + 1;
                }
            }
            proof {
                assert((n - i - 1) * 0xffffffffffffffffu128 + 0xffffffffffffffffu128 == (n
                    - i) * 0xffffffffffffffffu128) by (nonlinear_arith);
                assert(rowcount <= 0xffffffffffffffffu128);
            }
            count = count + rowcount;
        }
        count
    }


    /// Removes a border of width `pad_size` from every side.
    pub fn unpad(grid: Vec<Vec<u8>>, pad_size: usize) -> (out: Vec<Vec<u8>>)
        requires
            grid@.len() >= 2 * pad_size,
            forall|i: int| 0 <= i < grid@.len() ==> (#[trigger] grid@[i])@.len() >= 2 * pad_size,
        ensures
            out@.len() == grid@.len() - 2 * pad_size,
            forall|i: int|
                0 <= i < out@.len() ==> (#[trigger] out@[i])@.len() == grid@[i
                    + pad_size]@.len() - 2 * pad_size,
            forall|i: int, j: int|
                0 <= i < out@.len() && 0 <= j < out@[i]@.len() ==> (#[trigger] out@[i]@[j])
                    == grid@[i + pad_size]@[j + pad_size],
    {
        let p = pad_size;
        let rows = grid.len();
        let mut out: Vec<Vec<u8>> = Vec::new();
        let mut i: usize = p;
        while i < rows - p
            invariant
                rows == grid@.len(),
                rows >= 2 * p,
                forall|t: int| 0 <= t < grid@.len() ==> (#[trigger] grid@[t])@.len() >= 2 * p,
                p <= i <= rows - p,
                out@.len() == i - p,
                forall|t: int|
                    0 <= t < out@.len() ==> (#[trigger] out@[t])@.len() == grid@[t + p]@.len() - 2
                        * p,
                forall|t: int, j: int|
                    0 <= t < out@.len() && 0 <= j < out@[t]@.len() ==> (#[trigger] out@[t]@[j])
                        == grid@[t + p]@[j + p],
            decreases rows - p - i,
        {
            let cols = grid[i].len();
            let mut row: Vec<u8> = Vec::new();
            let mut j: usize = p;
            while j < cols - p
                invariant
                    rows == grid@.len(),
                    i < rows,
                    cols == grid@[i as int]@.len(),
                    cols >= 2 * p,
                    p <= j <= cols - p,
                    row@.len() == j - p,
                    forall|q: int|
                        0 <= q < row@.len() ==> (#[trigger] row@[q]) == grid@[i as int]@[q + p],
                decreases cols - p - j,
            {
                row.push(grid[i][j]);
                j = j + 1;
            }
            out.push(row);
            i = i + 1;
        }
        out
    }

    /// Takes one point's removal back out of the neighbor counts:
    /// every in-grid cell of the kernel window around `(i, j)` loses
    /// one from its count, stopping at zero.
    pub fn update_neighbors(
        grid: &Vec<Vec<u8>>,
        result: &mut Vec<Vec<u8>>,
        i: usize,
        j: usize,
        kernel: &Vec<Vec<u8>>,
    )
        requires
            grid@.len() >= 1,
            rect(grid@, grid@.len() as int, grid@[0]@.len() as int),
            old(result)@.len() == grid@.len(),
            forall|t: int|
                0 <= t < grid@.len() ==> (#[trigger] old(result)@[t])@.len()
                    == grid@[0]@.len(),
            i < grid@.len(),
            j < grid@[0]@.len(),
            kernel@.len() >= 1,
            grid@.len() + kernel@.len() <= usize::MAX,
            grid@[0]@.len() + kernel@.len() <= usize::MAX,
        ensures
            final(result)@.len() == old(result)@.len(),
            forall|t: int|
                0 <= t < final(result)@.len() ==> (#[trigger] final(result)@[t])@.len() == old(
                    result,
                )@[t]@.len(),
            ({
                let ks = kernel@.len() as int;
                let p = ks / 2;
                forall|a: int, b: int|
                    0 <= a < grid@.len() && 0 <= b < grid@[0]@.len()
                        ==> (#[trigger] final(result)@[a]@[b]) as int == (if i - p <= a <= i + ks
                        - 1 - p && j - p <= b <= j + ks - 1 - p && old(result)@[a]@[b] > 0 {
                        old(result)@[a]@[b] - 1
                    } else {
                        old(result)@[a]@[b] as int
                    })
            }),
    {
        let ghost r0 = result@;
        let kernel_size = kernel.len();
        let p = kernel_size / 2;
        let rows = grid.len();
        let cols = grid[0].len();
        let ghost ks = kernel_size as int;
        let mut ki: usize = 0;
        while ki < kernel_size
            invariant
                grid@.len() >= 1,
                rows == grid@.len(),
                cols == grid@[0]@.len(),
                rows + kernel_size <= usize::MAX,
                cols + kernel_size <= usize::MAX,
                i < rows,
                j < cols,
                ks == kernel_size as int,
                p == ks / 2,
                ki <= kernel_size,
                r0.len() == rows,
                forall|t: int| 0 <= t < r0.len() ==> (#[trigger] r0[t])@.len() == cols,
                result@.len() == r0.len(),
                forall|t: int|
                    0 <= t < result@.len() ==> (#[trigger] result@[t])@.len() == r0[t]@.len(),
                forall|a: int, b: int|
                    0 <= a < rows && 0 <= b < cols ==> (#[trigger] result@[a]@[b]) as int == (
                    if i - p <= a && a < i + ki - p && j - p <= b <= j + ks - 1 - p && r0[a]@[b]
                        > 0 {
                        r0[a]@[b] - 1
                    } else {
                        r0[a]@[b] as int
                    }),
            decreases kernel_size - ki,
        {
            let mut kj: usize = 0;
            while kj < kernel_size
                invariant
                    grid@.len() >= 1,
                    rows == grid@.len(),
                    cols == grid@[0]@.len(),
                    rows + kernel_size <= usize::MAX,
                    cols + kernel_size <= usize::MAX,
                    i < rows,
                    j < cols,
                    ks == kernel_size as int,
                    p == ks / 2,
                    ki < kernel_size,
                    kj <= kernel_size,
                    r0.len() == rows,
                    forall|t: int| 0 <= t < r0.len() ==> (#[trigger] r0[t])@.len() == cols,
                    result@.len() == r0.len(),
                    forall|t: int|
                        0 <= t < result@.len() ==> (#[trigger] result@[t])@.len() == r0[t]@.len(),
                    forall|a: int, b: int|
                        0 <= a < rows && 0 <= b < cols ==> (#[trigger] result@[a]@[b]) as int == (
                        if (i - p <= a && a < i + ki - p && j - p <= b <= j + ks - 1 - p && r0[
                            a]@[b] > 0) || (a == i + ki - p && j - p <= b && b < j + kj - p && r0[
                            a]@[b] > 0) {
                            r0[a]@[b] - 1
                        } else {
                            r0[a]@[b] as int
                        }),
                decreases kernel_size - kj,
            {
                if i + ki >= p && j + kj >= p {
                    let ni = i + ki - p;
                    let nj = j + kj - p;
                    if ni < rows && nj < cols {
                        let cur = result[ni][nj];
                        if cur > 0 {
                            let cell = &mut result[ni];
                            cell[nj] = cur - 1;
                        }
                    }
                }
                kj = kj + 1;
            }
            ki = ki + 1;
        }
    }

    /// First query: the number of marked cells with fewer than four
    /// marked neighbors under the ring kernel. `None` exactly when the
    /// parsed grid is empty or ragged.
    pub fn part1(&self, input: &str) -> (r: Option<String>)
        ensures
            ({
                let gr = spec_grid_of(input@);
                match r {
                    None => !(gr.len() >= 1 && grid_rect(gr) && gr.len() + 3 <= usize::MAX
                        && gr[0].len() + 3 <= usize::MAX),
                    Some(out) => {
                        &&& gr.len() >= 1 && grid_rect(gr)
                        &&& out@ == spec_uint_string(spec_lonely_count(gr, 0))
                    },
                }
            }),
    {
        let grid = Self::parse(input);
        proof {
            assert(grid@.map_values(|row: Vec<u8>| row@) =~~= spec_grid_of(input@));
            assert forall|i: int| 0 <= i < grid@.len() implies (#[trigger] grid@[i])@
                == spec_grid_of(input@)[i] by {
                assert(grid@.map_values(|row: Vec<u8>| row@)[i] == grid@[i]@);
            }
        }
        if !Self::grid_ok(&grid) {
            proof {
                let gr = spec_grid_of(input@);
                if gr.len() >= 1 && grid_rect(gr) {
                    assert(rect(grid@, grid@.len() as int, grid@[0]@.len() as int));
                }
            }
            return None;
        }
        if grid.len() > usize::MAX - 3 || grid[0].len() > usize::MAX - 3 {
            return None;
        }
        let kernel = ring_kernel();
        let mut result = Self::direct_conv(&grid, &kernel);
        Self::mask_result(&grid, &mut result);
        let count = Self::count_cells(&grid, &result);
        proof {
            lemma_low_cells_nonneg(grid@, result@, 0);
            lemma_count_link(spec_grid_of(input@), grid@, result@, kernel@, 0);
        }
        Some(u128_string(count))
    }
}

/// The parsed grid as a pure function of the input text.
pub open spec fn spec_grid_of(s: Seq<char>) -> Seq<Seq<u8>> {
    Seq::new(
        spec_lines(s).len(),
        |i: int| Seq::new(
            spec_lines(s)[i].len(),
            |j: int| if spec_lines(s)[i][j] == '@' {
                1u8
            } else {
                0u8
            },
        ),
    )
}

/// A rectangular pure grid.
pub open spec fn grid_rect(gr: Seq<Seq<u8>>) -> bool {
    forall|i: int| 0 <= i < gr.len() ==> (#[trigger] gr[i]).len() == gr[0].len()
}

/// The cell value, zero outside the grid.
pub open spec fn cell_at(gr: Seq<Seq<u8>>, a: int, b: int) -> u8 {
    if 0 <= a < gr.len() && 0 <= b < gr[a].len() {
        gr[a][b]
    } else {
        0
    }
}

/// The number of marked neighbors of a cell: the sum of the eight
/// surrounding cells, reading the border as unmarked.
pub open spec fn spec_neighbor_count(gr: Seq<Seq<u8>>, i: int, j: int) -> int {
    cell_at(gr, i - 1, j - 1) + cell_at(gr, i - 1, j) + cell_at(gr, i - 1, j + 1) + cell_at(
        gr,
        i,
        j - 1,
    ) + cell_at(gr, i, j + 1) + cell_at(gr, i + 1, j - 1) + cell_at(gr, i + 1, j) + cell_at(
        gr,
        i + 1,
        j + 1,
    )
}

/// The marked cells with fewer than four marked neighbors, from row
/// `i` on.
pub open spec fn spec_lonely_count(gr: Seq<Seq<u8>>, i: int) -> int
    decreases gr.len() - i,
{
    if i < 0 || i >= gr.len() {
        0
    } else {
        spec_lonely_row(gr, i, 0) + spec_lonely_count(gr, i + 1)
    }
}

pub open spec fn spec_lonely_row(gr: Seq<Seq<u8>>, i: int, j: int) -> int
    decreases gr[i].len() - j,
{
    if j < 0 || j >= gr[i].len() {
        0
    } else {
        (if gr[i][j] != 0 && spec_neighbor_count(gr, i, j) < 4 {
            1int
        } else {
            0int
        }) + spec_lonely_row(gr, i, j + 1)
    }
}

/// With the ring kernel, a masked window sum below four coincides with
/// a neighbor count below four on marked cells, so the two counts
/// agree.
proof fn lemma_count_link(
    gr: Seq<Seq<u8>>,
    g: Seq<Vec<u8>>,
    r: Seq<Vec<u8>>,
    kernel: Seq<Vec<u8>>,
    i: int,
)
    requires
        gr.len() == g.len(),
        forall|t: int| 0 <= t < g.len() ==> (#[trigger] g[t])@ == gr[t],
        g.len() >= 1,
        rect(g, g.len() as int, g[0]@.len() as int),
        g.len() == r.len(),
        forall|t: int| 0 <= t < g.len() ==> (#[trigger] r[t])@.len() == g[t]@.len(),
        rect(kernel, 3, 3),
        kernel[0]@ == seq![1u8, 1u8, 1u8],
        kernel[1]@ == seq![1u8, 0u8, 1u8],
        kernel[2]@ == seq![1u8, 1u8, 1u8],
        forall|a: int, b: int|
            0 <= a < g.len() && 0 <= b < g[0]@.len() ==> (#[trigger] r[a]@[b]) as int == (if g[
                a]@[b] == 0 {
                0int
            } else {
                spec_conv_cell_from(g, kernel, 1, g.len() as int, g[0]@.len() as int, a, b, 0)
            }),
        0 <= i,
    ensures
        Day04::spec_low_cells(g, r, i) == spec_lonely_count(gr, i),
    decreases g.len() - i,
{
    if i < g.len() {
        lemma_count_link(gr, g, r, kernel, i + 1);
        lemma_row_link(gr, g, r, kernel, i, 0);
    }
}

proof fn lemma_row_link(
    gr: Seq<Seq<u8>>,
    g: Seq<Vec<u8>>,
    r: Seq<Vec<u8>>,
    kernel: Seq<Vec<u8>>,
    i: int,
    j: int,
)
    requires
        gr.len() == g.len(),
        forall|t: int| 0 <= t < g.len() ==> (#[trigger] g[t])@ == gr[t],
        g.len() >= 1,
        rect(g, g.len() as int, g[0]@.len() as int),
        g.len() == r.len(),
        forall|t: int| 0 <= t < g.len() ==> (#[trigger] r[t])@.len() == g[t]@.len(),
        rect(kernel, 3, 3),
        kernel[0]@ == seq![1u8, 1u8, 1u8],
        kernel[1]@ == seq![1u8, 0u8, 1u8],
        kernel[2]@ == seq![1u8, 1u8, 1u8],
        forall|a: int, b: int|
            0 <= a < g.len() && 0 <= b < g[0]@.len() ==> (#[trigger] r[a]@[b]) as int == (if g[
                a]@[b] == 0 {
                0int
            } else {
                spec_conv_cell_from(g, kernel, 1, g.len() as int, g[0]@.len() as int, a, b, 0)
            }),
        0 <= i < g.len(),
        0 <= j,
    ensures
        Day04::spec_low_row(g, r, i, j) == spec_lonely_row(gr, i, j),
    decreases g[i]@.len() - j,
{
    if j < g[i]@.len() {
        lemma_row_link(gr, g, r, kernel, i, j + 1);
        if g[i]@[j] != 0 {
            lemma_conv_is_ring(gr, g, kernel, i, j);
        }
    }
}

/// Unfolding the three-row window of the ring kernel gives exactly the
/// eight-neighbor sum.
proof fn lemma_conv_is_ring(gr: Seq<Seq<u8>>, g: Seq<Vec<u8>>, kernel: Seq<Vec<u8>>, i: int, j: int)
    requires
        gr.len() == g.len(),
        forall|t: int| 0 <= t < g.len() ==> (#[trigger] g[t])@ == gr[t],
        g.len() >= 1,
        rect(g, g.len() as int, g[0]@.len() as int),
        rect(kernel, 3, 3),
        kernel[0]@ == seq![1u8, 1u8, 1u8],
        kernel[1]@ == seq![1u8, 0u8, 1u8],
        kernel[2]@ == seq![1u8, 1u8, 1u8],
        0 <= i < g.len(),
        0 <= j < g[0]@.len(),
    ensures
        spec_conv_cell_from(g, kernel, 1, g.len() as int, g[0]@.len() as int, i, j, 0)
            == spec_neighbor_count(gr, i, j),
{
    let rows = g.len() as int;
    let cols = g[0]@.len() as int;
    assert forall|a: int, b: int| true implies #[trigger] padded_cell(g, 1, rows, cols, a, b)
        == cell_at(gr, a - 1, b - 1) by {
        if 1 <= a < rows + 1 && 1 <= b < cols + 1 {
            assert(g[a - 1]@ == gr[a - 1]);
        } else {
            if 0 <= a - 1 < gr.len() {
                assert(g[a - 1]@ == gr[a - 1]);
                assert(gr[a - 1].len() == cols);
            }
        }
    }
    assert(kernel[0]@[0] == 1 && kernel[0]@[1] == 1 && kernel[0]@[2] == 1);
    assert(kernel[1]@[0] == 1 && kernel[1]@[1] == 0 && kernel[1]@[2] == 1);
    assert(kernel[2]@[0] == 1 && kernel[2]@[1] == 1 && kernel[2]@[2] == 1);
    assert forall|kr: int| 0 <= kr < 3 implies spec_conv_row(g, kernel, 1, rows, cols, i, j, kr, 3)
        == 0 by {}
    assert(spec_conv_row(g, kernel, 1, rows, cols, i, j, 0, 2) == padded_cell(
        g,
        1,
        rows,
        cols,
        i,
        j + 2,
    ) + spec_conv_row(g, kernel, 1, rows, cols, i, j, 0, 3));
    assert(spec_conv_row(g, kernel, 1, rows, cols, i, j, 0, 1) == padded_cell(
        g,
        1,
        rows,
        cols,
        i,
        j + 1,
    ) + spec_conv_row(g, kernel, 1, rows, cols, i, j, 0, 2));
    assert(spec_conv_row(g, kernel, 1, rows, cols, i, j, 0, 0) == padded_cell(g, 1, rows, cols, i, j)
        + spec_conv_row(g, kernel, 1, rows, cols, i, j, 0, 1));
    assert(spec_conv_row(g, kernel, 1, rows, cols, i, j, 1, 2) == padded_cell(
        g,
        1,
        rows,
        cols,
        i + 1,
        j + 2,
    ) + spec_conv_row(g, kernel, 1, rows, cols, i, j, 1, 3));
    assert(spec_conv_row(g, kernel, 1, rows, cols, i, j, 1, 1) == spec_conv_row(
        g,
        kernel,
        1,
        rows,
        cols,
        i,
        j,
        1,
        2,
    ));
    assert(spec_conv_row(g, kernel, 1, rows, cols, i, j, 1, 0) == padded_cell(
        g,
        1,
        rows,
        cols,
        i + 1,
        j,
    ) + spec_conv_row(g, kernel, 1, rows, cols, i, j, 1, 1));
    assert(spec_conv_row(g, kernel, 1, rows, cols, i, j, 2, 2) == padded_cell(
        g,
        1,
        rows,
        cols,
        i + 2,
        j + 2,
    ) + spec_conv_row(g, kernel, 1, rows, cols, i, j, 2, 3));
    assert(spec_conv_row(g, kernel, 1, rows, cols, i, j, 2, 1) == padded_cell(
        g,
        1,
        rows,
        cols,
        i + 2,
        j + 1,
    ) + spec_conv_row(g, kernel, 1, rows, cols, i, j, 2, 2));
    assert(spec_conv_row(g, kernel, 1, rows, cols, i, j, 2, 0) == padded_cell(
        g,
        1,
        rows,
        cols,
        i + 2,
        j,
    ) + spec_conv_row(g, kernel, 1, rows, cols, i, j, 2, 1));
    assert(spec_conv_cell_from(g, kernel, 1, rows, cols, i, j, 3) == 0);
    assert(spec_conv_cell_from(g, kernel, 1, rows, cols, i, j, 2) == spec_conv_row(
        g,
        kernel,
        1,
        rows,
        cols,
        i,
        j,
        2,
        0,
    ) + spec_conv_cell_from(g, kernel, 1, rows, cols, i, j, 3));
    assert(spec_conv_cell_from(g, kernel, 1, rows, cols, i, j, 1) == spec_conv_row(
        g,
        kernel,
        1,
        rows,
        cols,
        i,
        j,
        1,
        0,
    ) + spec_conv_cell_from(g, kernel, 1, rows, cols, i, j, 2));
    assert(spec_conv_cell_from(g, kernel, 1, rows, cols, i, j, 0) == spec_conv_row(
        g,
        kernel,
        1,
        rows,
        cols,
        i,
        j,
        0,
        0,
    ) + spec_conv_cell_from(g, kernel, 1, rows, cols, i, j, 1));
}


/// One row of an elementwise kernel product.
pub open spec fn spec_dot_row(kernel: Seq<Vec<u8>>, slice: Seq<Vec<u8>>, i: int, j: int) -> int
    decreases kernel[i]@.len() - j,
{
    if j < 0 || j >= kernel[i]@.len() {
        0
    } else {
        kernel[i]@[j] * slice[i]@[j] + spec_dot_row(kernel, slice, i, j + 1)
    }
}

/// The elementwise product sum of a kernel against a grid slice.
pub open spec fn spec_dot(kernel: Seq<Vec<u8>>, slice: Seq<Vec<u8>>, i: int) -> int
    decreases kernel.len() - i,
{
    if i < 0 || i >= kernel.len() {
        0
    } else {
        spec_dot_row(kernel, slice, i, 0) + spec_dot(kernel, slice, i + 1)
    }
}

impl Day04 {
    /// The elementwise product sum of a binary kernel and an
    /// equally-sized binary grid slice.
    pub fn dot_product(kernel: &Vec<Vec<u8>>, grid_slice: &Vec<Vec<u8>>) -> (d: u8)
        requires
            kernel@.len() >= 1,
            rect(kernel@, kernel@.len() as int, kernel@[0]@.len() as int),
            rect(grid_slice@, kernel@.len() as int, kernel@[0]@.len() as int),
            entries_le(kernel@, 1),
            entries_le(grid_slice@, 1),
            kernel@.len() * kernel@[0]@.len() <= 255,
        ensures
            d as int == spec_dot(kernel@, grid_slice@, 0),
    {
        let rows = kernel.len();
        let cols = kernel[0].len();
        proof {
            lemma_rows_cols_bound(rows as int, cols as int);
        }
        let mut d: u8 = 0;
        let mut i: usize = rows;
        while i > 0
            invariant
                rows == kernel@.len(),
                cols == kernel@[0]@.len(),
                rect(kernel@, rows as int, cols as int),
                rect(grid_slice@, rows as int, cols as int),
                entries_le(kernel@, 1),
                entries_le(grid_slice@, 1),
                rows * cols <= 255,
                cols <= 255,
                i <= rows,
                d as int == spec_dot(kernel@, grid_slice@, i as int),
                d as int <= (rows - i) * cols,
            decreases i,
        {
            i = i - 1;
            let mut rowsum: u8 = 0;
            let mut j: usize = cols;
            while j > 0
                invariant
                    rows == kernel@.len(),
                    cols == kernel@[0]@.len(),
                    rect(kernel@, rows as int, cols as int),
                    rect(grid_slice@, rows as int, cols as int),
                    entries_le(kernel@, 1),
                    entries_le(grid_slice@, 1),
                    cols <= 255,
                    i < rows,
                    j <= cols,
                    rowsum as int == spec_dot_row(kernel@, grid_slice@, i as int, j as int),
                    rowsum as int <= cols - j,
                decreases j,
            {
                j = j - 1;
                let kv = kernel[i][j];
                let sv = grid_slice[i][j];
                proof {
                    assert(kv <= 1 && sv <= 1);
                    assert(kv * sv <= 1) by (nonlinear_arith)
                        requires
                            kv <= 1 && sv <= 1,
                    ;
                }
                rowsum = rowsum + kv * sv;
            }
            proof {
                assert((rows - i - 1) * cols + cols == (rows - i) * cols) by (nonlinear_arith);
                assert((rows - i) * cols <= rows * cols) by (nonlinear_arith)
                    requires
                        0 <= i && 0 <= cols && i <= rows,
                ;
            }
            d = d + rowsum;
        }
        d
    }
}

/// A row of a rectangle never exceeds the whole rectangle.
proof fn lemma_rows_cols_bound(rows: int, cols: int)
    requires
        rows >= 1,
        0 <= cols,
        rows * cols <= 255,
    ensures
        cols <= 255,
{
    assert(cols <= rows * cols) by (nonlinear_arith)
        requires
            rows >= 1 && cols >= 0,
    ;
}

proof fn lemma_low_cells_nonneg(g: Seq<Vec<u8>>, r: Seq<Vec<u8>>, i: int)
    ensures
        Day04::spec_low_cells(g, r, i) >= 0,
    decreases g.len() - i,
{
    if 0 <= i < g.len() {
        lemma_low_row_nonneg(g, r, i, 0);
        lemma_low_cells_nonneg(g, r, i + 1);
    }
}

proof fn lemma_low_row_nonneg(g: Seq<Vec<u8>>, r: Seq<Vec<u8>>, i: int, j: int)
    ensures
        Day04::spec_low_row(g, r, i, j) >= 0,
    decreases g[i]@.len() - j,
{
    if 0 <= j < g[i]@.len() {
        lemma_low_row_nonneg(g, r, i, j + 1);
    }
}

} // verus!
