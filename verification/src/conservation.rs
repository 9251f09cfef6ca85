//! Whole-board conservation laws of a shift: movement and merging keep
//! the summed tile value unchanged, and exactly one tile disappears per
//! merge. A shift treats the board as independent scan rows, so these
//! laws lift the per-line facts of `lemma_merge_conservation` to the
//! whole grid by re-summing the board along the scan order of each
//! direction.

use vstd::prelude::*;
use crate::grid::GridState;
use crate::grid::count_nonzero;
use crate::grid::lemma_count_full;
use crate::grid::sum_values;
use crate::shift::BoardShift;
use crate::shift::lemma_cell_at_inverse;
use crate::shift::lemma_line_prefix_len;
use crate::shift::lemma_line_prefix_nonzero;
use crate::shift::lemma_merge_conservation;
use crate::shift::lemma_merged_line_len;
use crate::shift::lemma_merged_line_pos;
use crate::shift::line_of;
use crate::shift::line_prefix;
use crate::shift::merged_count;
use crate::shift::merged_line;
use crate::shift::merges_prefix;
use crate::shift::shift_merges;
use crate::shift::shifted_cell;
use crate::shift::sum_ints;

verus! {

/// Sum of `f(i)` over `0 <= i < n`.
spec fn sum_below(f: spec_fn(int) -> int, n: int) -> int
    decreases n,
{
    if n <= 0 {
        0
    } else {
        sum_below(f, n - 1) + f(n - 1)
    }
}

/// Sum of `a(r, c)` over `0 <= c < cols`, for the fixed row `r`.
spec fn sum_row(a: spec_fn(int, int) -> int, r: int, cols: int) -> int
    decreases cols,
{
    if cols <= 0 {
        0
    } else {
        sum_row(a, r, cols - 1) + a(r, cols - 1)
    }
}

/// Sum of `a(r, c)` over `0 <= r < rows`, for the fixed column `c`.
spec fn sum_col(a: spec_fn(int, int) -> int, c: int, rows: int) -> int
    decreases rows,
{
    if rows <= 0 {
        0
    } else {
        sum_col(a, c, rows - 1) + a(rows - 1, c)
    }
}

/// Sum of `a(r, c)` over the whole `rows` by `cols` rectangle.
spec fn sum_grid(a: spec_fn(int, int) -> int, rows: int, cols: int) -> int
    decreases rows,
{
    if rows <= 0 {
        0
    } else {
        sum_grid(a, rows - 1, cols) + sum_row(a, rows - 1, cols)
    }
}

proof fn lemma_sum_below_congruence(f: spec_fn(int) -> int, g: spec_fn(int) -> int, n: int)
    requires
        forall|i: int| 0 <= i < n ==> #[trigger] f(i) == g(i),
    ensures
        sum_below(f, n) == sum_below(g, n),
    decreases n,
{
    if n > 0 {
        lemma_sum_below_congruence(f, g, n - 1);
    }
}

proof fn lemma_sum_below_add(
    f: spec_fn(int) -> int,
    g: spec_fn(int) -> int,
    h: spec_fn(int) -> int,
    n: int,
)
    requires
        forall|i: int| 0 <= i < n ==> #[trigger] h(i) == f(i) + g(i),
    ensures
        sum_below(h, n) == sum_below(f, n) + sum_below(g, n),
    decreases n,
{
    if n > 0 {
        lemma_sum_below_add(f, g, h, n - 1);
    }
}

proof fn lemma_sum_row_congruence(
    a: spec_fn(int, int) -> int,
    b: spec_fn(int, int) -> int,
    r: int,
    cols: int,
)
    requires
        forall|c: int| 0 <= c < cols ==> #[trigger] a(r, c) == b(r, c),
    ensures
        sum_row(a, r, cols) == sum_row(b, r, cols),
    decreases cols,
{
    if cols > 0 {
        lemma_sum_row_congruence(a, b, r, cols - 1);
    }
}

proof fn lemma_sum_grid_congruence(
    a: spec_fn(int, int) -> int,
    b: spec_fn(int, int) -> int,
    rows: int,
    cols: int,
)
    requires
        forall|r: int, c: int| 0 <= r < rows && 0 <= c < cols ==> #[trigger] a(r, c) == b(r, c),
    ensures
        sum_grid(a, rows, cols) == sum_grid(b, rows, cols),
    decreases rows,
{
    if rows > 0 {
        lemma_sum_grid_congruence(a, b, rows - 1, cols);
        lemma_sum_row_congruence(a, b, rows - 1, cols);
    }
}

proof fn lemma_sum_row_shift(
    a: spec_fn(int, int) -> int,
    a1: spec_fn(int, int) -> int,
    r: int,
    cols: int,
)
    requires
        cols > 0,
        forall|c: int| 0 <= c < cols - 1 ==> #[trigger] a1(r, c) == a(r, c + 1),
    ensures
        sum_row(a, r, cols) == a(r, 0) + sum_row(a1, r, cols - 1),
    decreases cols,
{
    if cols == 1 {
        assert(sum_row(a, r, 1) == sum_row(a, r, 0) + a(r, 0));
        assert(sum_row(a1, r, 0) == 0);
    } else {
        lemma_sum_row_shift(a, a1, r, cols - 1);
        assert(a1(r, cols - 2) == a(r, cols - 1));
        assert(sum_row(a, r, cols) == sum_row(a, r, cols - 1) + a(r, cols - 1));
        assert(sum_row(a1, r, cols - 1) == sum_row(a1, r, cols - 2) + a1(r, cols - 2));
    }
}

/// Summing a row backwards gives the same total.
proof fn lemma_sum_row_reverse(
    a: spec_fn(int, int) -> int,
    b: spec_fn(int, int) -> int,
    r: int,
    cols: int,
)
    requires
        forall|c: int| 0 <= c < cols ==> #[trigger] b(r, c) == a(r, cols - 1 - c),
    ensures
        sum_row(b, r, cols) == sum_row(a, r, cols),
    decreases cols,
{
    if cols > 0 {
        let a1 = |rr: int, c: int| a(rr, c + 1);
        assert forall|c: int| 0 <= c < cols - 1 implies #[trigger] b(r, c) == a1(
            r,
            cols - 2 - c,
        ) by {
            assert(b(r, c) == a(r, cols - 1 - c));
            assert(a1(r, cols - 2 - c) == a(r, cols - 1 - c));
        }
        lemma_sum_row_reverse(a1, b, r, cols - 1);
        lemma_sum_row_shift(a, a1, r, cols);
        assert(b(r, cols - 1) == a(r, 0));
        assert(sum_row(b, r, cols) == sum_row(b, r, cols - 1) + b(r, cols - 1));
    }
}

proof fn lemma_sum_grid_reverse_rows(
    a: spec_fn(int, int) -> int,
    b: spec_fn(int, int) -> int,
    rows: int,
    cols: int,
)
    requires
        forall|r: int, c: int|
            0 <= r < rows && 0 <= c < cols ==> #[trigger] b(r, c) == a(r, cols - 1 - c),
    ensures
        sum_grid(b, rows, cols) == sum_grid(a, rows, cols),
    decreases rows,
{
    if rows > 0 {
        lemma_sum_grid_reverse_rows(a, b, rows - 1, cols);
        lemma_sum_row_reverse(a, b, rows - 1, cols);
    }
}

/// Peeling the last column off a rectangle.
proof fn lemma_sum_grid_peel_col(a: spec_fn(int, int) -> int, rows: int, cols: int)
    requires
        cols > 0,
    ensures
        sum_grid(a, rows, cols) == sum_grid(a, rows, cols - 1) + sum_col(a, cols - 1, rows),
    decreases rows,
{
    if rows <= 0 {
    } else {
        lemma_sum_grid_peel_col(a, rows - 1, cols);
        assert(sum_row(a, rows - 1, cols) == sum_row(a, rows - 1, cols - 1) + a(
            rows - 1,
            cols - 1,
        ));
        assert(sum_col(a, cols - 1, rows) == sum_col(a, cols - 1, rows - 1) + a(
            rows - 1,
            cols - 1,
        ));
    }
}

proof fn lemma_sum_grid_empty(a: spec_fn(int, int) -> int, rows: int, cols: int)
    requires
        cols <= 0,
    ensures
        sum_grid(a, rows, cols) == 0,
    decreases rows,
{
    if rows > 0 {
        lemma_sum_grid_empty(a, rows - 1, cols);
    }
}

proof fn lemma_sum_col_as_row(
    a: spec_fn(int, int) -> int,
    b: spec_fn(int, int) -> int,
    c: int,
    rows: int,
)
    requires
        forall|r: int| 0 <= r < rows ==> #[trigger] b(c, r) == a(r, c),
    ensures
        sum_col(a, c, rows) == sum_row(b, c, rows),
    decreases rows,
{
    if rows > 0 {
        lemma_sum_col_as_row(a, b, c, rows - 1);
    }
}

/// Exchanging the order of summation over a rectangle.
proof fn lemma_sum_grid_swap(
    a: spec_fn(int, int) -> int,
    b: spec_fn(int, int) -> int,
    rows: int,
    cols: int,
)
    requires
        forall|r: int, c: int| 0 <= r < rows && 0 <= c < cols ==> #[trigger] b(c, r) == a(r, c),
    ensures
        sum_grid(a, rows, cols) == sum_grid(b, cols, rows),
    decreases cols,
{
    if cols <= 0 {
        lemma_sum_grid_empty(a, rows, cols);
    } else {
        lemma_sum_grid_swap(a, b, rows, cols - 1);
        lemma_sum_grid_peel_col(a, rows, cols);
        assert(sum_grid(b, cols, rows) == sum_grid(b, cols - 1, rows) + sum_row(
            b,
            cols - 1,
            rows,
        ));
        lemma_sum_col_as_row(a, b, cols - 1, rows);
    }
}

/// A rectangle summed row by row, as a one-dimensional sum of row totals.
proof fn lemma_sum_grid_as_below(
    a: spec_fn(int, int) -> int,
    f: spec_fn(int) -> int,
    rows: int,
    cols: int,
)
    requires
        forall|r: int| 0 <= r < rows ==> #[trigger] f(r) == sum_row(a, r, cols),
    ensures
        sum_grid(a, rows, cols) == sum_below(f, rows),
    decreases rows,
{
    if rows > 0 {
        lemma_sum_grid_as_below(a, f, rows - 1, cols);
    }
}

/// Weighted sum of a sequence of cell values.
spec fn seq_wsum(s: Seq<u32>, w: spec_fn(u32) -> int) -> int
    decreases s.len(),
{
    if s.len() == 0 {
        0
    } else {
        seq_wsum(s.drop_last(), w) + w(s.last())
    }
}

proof fn lemma_seq_wsum_concat(a: Seq<u32>, b: Seq<u32>, w: spec_fn(u32) -> int)
    ensures
        seq_wsum(a + b, w) == seq_wsum(a, w) + seq_wsum(b, w),
    decreases b.len(),
{
    if b.len() == 0 {
        assert(a + b =~= a);
    } else {
        lemma_seq_wsum_concat(a, b.drop_last(), w);
        assert((a + b).drop_last() =~= a + b.drop_last());
        assert((a + b).last() == b.last());
    }
}

/// With the identity weight, the weighted sum is the value sum.
proof fn lemma_seq_wsum_value(s: Seq<u32>, w: spec_fn(u32) -> int)
    requires
        forall|v: u32| #[trigger] w(v) == v as int,
    ensures
        seq_wsum(s, w) == sum_values(s),
    decreases s.len(),
{
    if s.len() > 0 {
        lemma_seq_wsum_value(s.drop_last(), w);
    }
}

/// With the occupancy weight, the weighted sum is the occupancy count.
proof fn lemma_seq_wsum_count(s: Seq<u32>, w: spec_fn(u32) -> int)
    requires
        forall|v: u32|
            #[trigger] w(v) == (if v != 0 {
                1int
            } else {
                0int
            }),
    ensures
        seq_wsum(s, w) == count_nonzero(s),
    decreases s.len(),
{
    if s.len() > 0 {
        lemma_seq_wsum_count(s.drop_last(), w);
    }
}

/// A value sum over `u32`s equals the sum of a pointwise-equal sequence
/// of mathematical integers.
proof fn lemma_sum_values_cast(s: Seq<u32>, m: Seq<int>)
    requires
        s.len() == m.len(),
        forall|i: int| 0 <= i < s.len() ==> (#[trigger] s[i]) as int == m[i],
    ensures
        sum_values(s) == sum_ints(m),
    decreases s.len(),
{
    if s.len() > 0 {
        lemma_sum_values_cast(s.drop_last(), m.drop_last());
        assert(s[s.len() - 1] as int == m[m.len() - 1]);
    }
}

/// The cells of a well-formed board, summed under `w`, equal the
/// row-by-row rectangle sum of `w` over the cell values.
proof fn lemma_cells_as_grid(g: GridState, w: spec_fn(u32) -> int, axy: spec_fn(int, int) -> int)
    requires
        g.wf(),
        forall|y: int, x: int|
            0 <= y < g.side() && 0 <= x < g.side() ==> #[trigger] axy(y, x) == w(g.cell(x, y)),
    ensures
        seq_wsum(g.cells@, w) == sum_grid(axy, g.side(), g.side()),
{
    let n = g.side();
    lemma_cells_prefix(g, w, axy, n);
    assert(g.cells@.subrange(0, n * n) =~= g.cells@);
}

proof fn lemma_cells_prefix(
    g: GridState,
    w: spec_fn(u32) -> int,
    axy: spec_fn(int, int) -> int,
    k: int,
)
    requires
        g.wf(),
        0 <= k <= g.side(),
        forall|y: int, x: int|
            0 <= y < g.side() && 0 <= x < g.side() ==> #[trigger] axy(y, x) == w(g.cell(x, y)),
    ensures
        seq_wsum(g.cells@.subrange(0, k * g.side()), w) == sum_grid(axy, k, g.side()),
    decreases k,
{
    let n = g.side();
    if k <= 0 {
        assert(g.cells@.subrange(0, 0) =~= Seq::<u32>::empty());
        assert(k * n == 0) by (nonlinear_arith)
            requires
                k == 0,
        ;
        assert(seq_wsum(g.cells@.subrange(0, k * n), w) == 0);
        assert(sum_grid(axy, k, n) == 0);
    } else {
        lemma_cells_prefix(g, w, axy, k - 1);
        assert(0 <= (k - 1) * n && (k - 1) * n + n == k * n && k * n <= n * n) by (
        nonlinear_arith)
            requires
                1 <= k <= n,
        ;
        let whole = g.cells@.subrange(0, k * n);
        let init = g.cells@.subrange(0, (k - 1) * n);
        let seg = g.cells@.subrange((k - 1) * n, k * n);
        assert(whole =~= init + seg);
        lemma_seq_wsum_concat(init, seg, w);
        lemma_segment_row(g, w, axy, k - 1, n);
        assert(sum_grid(axy, k, n) == sum_grid(axy, k - 1, n) + sum_row(axy, k - 1, n));
        assert(seq_wsum(seg, w) == sum_row(axy, k - 1, n));
    }
}

/// One row-major segment of the cell store, summed under `w`, is the row
/// sum of `w` over that row's cells.
proof fn lemma_segment_row(
    g: GridState,
    w: spec_fn(u32) -> int,
    axy: spec_fn(int, int) -> int,
    y: int,
    j: int,
)
    requires
        g.wf(),
        0 <= y < g.side(),
        0 <= j <= g.side(),
        forall|y0: int, x0: int|
            0 <= y0 < g.side() && 0 <= x0 < g.side() ==> #[trigger] axy(y0, x0) == w(
                g.cell(x0, y0),
            ),
    ensures
        seq_wsum(g.cells@.subrange(y * g.side(), y * g.side() + j), w) == sum_row(axy, y, j),
    decreases j,
{
    let n = g.side();
    assert(0 <= y * n && y * n + n <= n * n) by (nonlinear_arith)
        requires
            0 <= y < n,
    ;
    if j <= 0 {
        assert(g.cells@.subrange(y * n, y * n) =~= Seq::<u32>::empty());
    } else {
        lemma_segment_row(g, w, axy, y, j - 1);
        let s = g.cells@.subrange(y * n, y * n + j);
        assert(s.drop_last() =~= g.cells@.subrange(y * n, y * n + (j - 1)));
        assert(s.last() == g.cells@[y * n + (j - 1)]);
        assert(g.cell(j - 1, y) == g.cells@[y * n + (j - 1)]);
        assert(axy(y, j - 1) == w(g.cell(j - 1, y)));
    }
}

/// A scan row's occupied values, summed under a weight that ignores
/// empty cells, equal the sum of the weight over all the row's slots.
proof fn lemma_row_line(
    g: GridState,
    dir: BoardShift,
    w: spec_fn(u32) -> int,
    atd: spec_fn(int, int) -> int,
    row: int,
    k: int,
)
    requires
        g.wf(),
        w(0) == 0,
        0 <= row < g.side(),
        0 <= k <= g.side(),
        forall|r: int, d: int|
            0 <= r < g.side() && 0 <= d < g.side() ==> #[trigger] atd(r, d) == w(
                g.cell(dir.spec_cell_at(g.side(), r, d).0, dir.spec_cell_at(g.side(), r, d).1),
            ),
    ensures
        sum_row(atd, row, k) == seq_wsum(line_prefix(g, dir, row, k), w),
    decreases k,
{
    if k > 0 {
        lemma_row_line(g, dir, w, atd, row, k - 1);
        let p = dir.spec_cell_at(g.side(), row, k - 1);
        let prev = line_prefix(g, dir, row, k - 1);
        if g.cell(p.0, p.1) == 0 {
            assert(atd(row, k - 1) == 0);
        } else {
            assert(prev.push(g.cell(p.0, p.1)).drop_last() =~= prev);
            assert(prev.push(g.cell(p.0, p.1)).last() == g.cell(p.0, p.1));
        }
    }
}

/// The whole board, summed under a weight that ignores empty cells,
/// equals the sum of the weighted lines of any one direction: the scan
/// order enumerates every cell of the board exactly once.
proof fn lemma_grid_lines_cover(
    g: GridState,
    dir: BoardShift,
    w: spec_fn(u32) -> int,
    linef: spec_fn(int) -> int,
)
    requires
        g.wf(),
        w(0) == 0,
        forall|row: int|
            0 <= row < g.side() ==> #[trigger] linef(row) == seq_wsum(line_of(g, dir, row), w),
    ensures
        seq_wsum(g.cells@, w) == sum_below(linef, g.side()),
{
    let n = g.side();
    let axy = |y: int, x: int| w(g.cell(x, y));
    let atd = |r: int, d: int|
        w(g.cell(dir.spec_cell_at(n, r, d).0, dir.spec_cell_at(n, r, d).1));
    lemma_cells_as_grid(g, w, axy);
    match dir {
        BoardShift::Left => {
            assert forall|r: int, c: int| 0 <= r < n && 0 <= c < n implies #[trigger] atd(r, c)
                == axy(r, c) by {
                assert(dir.spec_cell_at(n, r, c) == (c, r));
            }
            lemma_sum_grid_congruence(atd, axy, n, n);
        },
        BoardShift::Right => {
            assert forall|r: int, c: int| 0 <= r < n && 0 <= c < n implies #[trigger] atd(r, c)
                == axy(r, n - 1 - c) by {
                assert(dir.spec_cell_at(n, r, c) == (n - 1 - c, r));
            }
            lemma_sum_grid_reverse_rows(axy, atd, n, n);
        },
        BoardShift::Up => {
            let tr = |r: int, yy: int| axy(yy, r);
            assert forall|r: int, c: int| 0 <= r < n && 0 <= c < n implies #[trigger] atd(r, c)
                == tr(r, n - 1 - c) by {
                assert(dir.spec_cell_at(n, r, c) == (r, n - 1 - c));
                assert(tr(r, n - 1 - c) == axy(n - 1 - c, r));
            }
            lemma_sum_grid_reverse_rows(tr, atd, n, n);
            assert forall|r: int, c: int| 0 <= r < n && 0 <= c < n implies #[trigger] tr(c, r)
                == axy(r, c) by {}
            lemma_sum_grid_swap(axy, tr, n, n);
        },
        BoardShift::Down => {
            assert forall|r: int, c: int| 0 <= r < n && 0 <= c < n implies #[trigger] atd(c, r)
                == axy(r, c) by {
                assert(dir.spec_cell_at(n, c, r) == (c, r));
            }
            lemma_sum_grid_swap(axy, atd, n, n);
        },
    }
    let rowtot = |r: int| sum_row(atd, r, n);
    lemma_sum_grid_as_below(atd, rowtot, n, n);
    assert forall|row: int| 0 <= row < n implies #[trigger] rowtot(row) == linef(row) by {
        lemma_row_line(g, dir, w, atd, row, n);
    }
    lemma_sum_below_congruence(rowtot, linef, n);
}

/// The lines of the shifted board are exactly the compacted lines of the
/// board before the shift.
proof fn lemma_shifted_line(g: GridState, g2: GridState, dir: BoardShift, row: int, k: int)
    requires
        g.wf(),
        g2.wf(),
        g2.size == g.size,
        forall|x: int, y: int|
            g.in_bounds(x, y) ==> (#[trigger] g2.cell(x, y)) as int == shifted_cell(g, dir, x, y),
        0 <= row < g.side(),
        0 <= k <= g.side(),
    ensures
        ({
            let m = merged_line(line_of(g, dir, row));
            let cut = if k <= m.len() {
                k
            } else {
                m.len() as int
            };
            line_prefix(g2, dir, row, k).len() == cut && (forall|i: int|
                0 <= i < cut ==> (#[trigger] line_prefix(g2, dir, row, k)[i]) as int == m[i])
        }),
    decreases k,
{
    let n = g.side();
    let m = merged_line(line_of(g, dir, row));
    lemma_merged_line_len(line_of(g, dir, row));
    lemma_line_prefix_len(g, dir, row, n);
    lemma_line_prefix_nonzero(g, dir, row, n);
    lemma_merged_line_pos(line_of(g, dir, row));
    if k > 0 {
        lemma_shifted_line(g, g2, dir, row, k - 1);
        lemma_cell_at_inverse(dir, n, row, k - 1);
        let p = dir.spec_cell_at(n, row, k - 1);
        assert(g2.cell(p.0, p.1) as int == shifted_cell(g, dir, p.0, p.1));
        assert(dir.spec_row_of(p.0, p.1) == row && dir.spec_dist_of(n, p.0, p.1) == k - 1);
        if k - 1 < m.len() {
            assert(g2.cell(p.0, p.1) as int == m[k - 1]);
            assert(m[k - 1] > 0);
            assert(g2.cell(p.0, p.1) != 0);
        } else {
            assert(g2.cell(p.0, p.1) as int == 0);
        }
    }
}

proof fn lemma_merges_as_below(g: GridState, dir: BoardShift, mc: spec_fn(int) -> int, rows: int)
    requires
        forall|row: int|
            0 <= row < rows ==> #[trigger] mc(row) == merged_count(line_of(g, dir, row)) as int,
    ensures
        sum_below(mc, rows) == merges_prefix(g, dir, rows),
    decreases rows,
{
    if rows > 0 {
        lemma_merges_as_below(g, dir, mc, rows - 1);
    }
}

/// Whole-board merge conservation: a shift neither creates nor destroys
/// tile value — the summed value of the shifted board equals that of the
/// board before — and the tile count drops by exactly the number of
/// merges the shift performs (`shift_merges`). Here `g2` is any board
/// holding the shifted cells of `g`, as `apply` produces them.
pub proof fn lemma_shift_conservation(g: GridState, g2: GridState, dir: BoardShift)
    requires
        g.wf(),
        g2.wf(),
        g2.size == g.size,
        forall|x: int, y: int|
            g.in_bounds(x, y) ==> (#[trigger] g2.cell(x, y)) as int == shifted_cell(g, dir, x, y),
    ensures
        sum_values(g2.cells@) == sum_values(g.cells@),
        g2.tile_count() + shift_merges(g, dir) == g.tile_count(),
{
    let n = g.side();
    let wval = |v: u32| v as int;
    let wcnt = |v: u32|
        if v != 0 {
            1int
        } else {
            0int
        };
    let val_g = |row: int| seq_wsum(line_of(g, dir, row), wval);
    let val_g2 = |row: int| seq_wsum(line_of(g2, dir, row), wval);
    let cnt_g = |row: int| seq_wsum(line_of(g, dir, row), wcnt);
    let cnt_g2 = |row: int| seq_wsum(line_of(g2, dir, row), wcnt);
    let mc = |row: int| merged_count(line_of(g, dir, row)) as int;
    lemma_grid_lines_cover(g, dir, wval, val_g);
    lemma_grid_lines_cover(g2, dir, wval, val_g2);
    lemma_grid_lines_cover(g, dir, wcnt, cnt_g);
    lemma_grid_lines_cover(g2, dir, wcnt, cnt_g2);
    assert forall|row: int| 0 <= row < n implies #[trigger] val_g2(row) == val_g(row) && cnt_g(
        row,
    ) == cnt_g2(row) + mc(row) by {
        let line = line_of(g, dir, row);
        let line2 = line_of(g2, dir, row);
        let m = merged_line(line);
        lemma_shifted_line(g, g2, dir, row, n);
        lemma_merged_line_len(line);
        lemma_line_prefix_len(g, dir, row, n);
        assert(line2.len() == m.len());
        // summed value: the compacted line keeps the line's value
        lemma_sum_values_cast(line2, m);
        lemma_merge_conservation(line);
        lemma_seq_wsum_value(line2, wval);
        lemma_seq_wsum_value(line, wval);
        // tile count: the compacted line loses one tile per merge
        lemma_seq_wsum_count(line2, wcnt);
        lemma_seq_wsum_count(line, wcnt);
        lemma_line_prefix_nonzero(g, dir, row, n);
        lemma_line_prefix_nonzero(g2, dir, row, n);
        lemma_count_full(line2);
        lemma_count_full(line);
        assert(count_nonzero(line2) == line2.len());
        assert(count_nonzero(line) == line.len());
    }
    lemma_sum_below_congruence(val_g2, val_g, n);
    assert forall|row: int| 0 <= row < n implies #[trigger] cnt_g(row) == cnt_g2(row) + mc(
        row,
    ) by {
        assert(val_g2(row) == val_g(row) && cnt_g(row) == cnt_g2(row) + mc(row));
    }
    lemma_sum_below_add(cnt_g2, mc, cnt_g, n);
    lemma_merges_as_below(g, dir, mc, n);
    lemma_seq_wsum_value(g.cells@, wval);
    lemma_seq_wsum_value(g2.cells@, wval);
    lemma_seq_wsum_count(g.cells@, wcnt);
    lemma_seq_wsum_count(g2.cells@, wcnt);
}

} // verus!
