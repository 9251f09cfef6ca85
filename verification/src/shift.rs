//! The shift engine: one directional move slides every tile toward the
//! chosen edge and merges equal neighbours pairwise, nearest pair first.
//!
//! The board decomposes into independent scan rows (the coordinate
//! orthogonal to the motion axis); within a row the occupied cells are
//! visited nearest the target edge first, which is exactly the total order
//! `BoardShift::sort` describes. One compaction pass over such a row is
//! `merged_line`, and the whole shift is pinned down cell by cell by
//! `shifted_cell`, so the result is a function of the board and the
//! direction alone.

use vstd::prelude::*;
use crate::grid::GridState;
use crate::grid::Position;
use crate::grid::sum_values;

verus! {

/// A directional move command.
#[derive(Clone, Copy, Debug, PartialEq, Eq, Structural)]
pub enum BoardShift {
    Left,
    Right,
    Up,
    Down,
}

/// Lexicographic order on coordinate pairs.
pub open spec fn lex_lt(a0: int, a1: int, b0: int, b1: int) -> bool {
    a0 < b0 || (a0 == b0 && a1 < b1)
}

impl BoardShift {
    /// The scan row a cell belongs to: the coordinate orthogonal to the
    /// motion axis.
    pub open spec fn spec_row_of(self, x: int, y: int) -> int {
        match self {
            BoardShift::Left | BoardShift::Right => y,
            BoardShift::Up | BoardShift::Down => x,
        }
    }

    /// Distance of a cell from the edge the tiles move toward.
    pub open spec fn spec_dist_of(self, size: int, x: int, y: int) -> int {
        match self {
            BoardShift::Left => x,
            BoardShift::Right => size - 1 - x,
            BoardShift::Up => size - 1 - y,
            BoardShift::Down => y,
        }
    }

    /// The cell of scan row `row` at distance `d` from the target edge;
    /// inverse of `spec_row_of` paired with `spec_dist_of`.
    pub open spec fn spec_cell_at(self, size: int, row: int, d: int) -> (int, int) {
        match self {
            BoardShift::Left => (d, row),
            BoardShift::Right => (size - 1 - d, row),
            BoardShift::Up => (row, size - 1 - d),
            BoardShift::Down => (row, d),
        }
    }

    /// The two lexicographic keys `sort` compares, first the one for `a`.
    pub open spec fn spec_sort_keys(self, a: Position, b: Position) -> ((int, int), (int, int)) {
        match self {
            BoardShift::Left => (((a.y as int), (a.x as int)), ((b.y as int), (b.x as int))),
            BoardShift::Right => (((b.y as int), (b.x as int)), ((a.y as int), (a.x as int))),
            BoardShift::Up => (((b.x as int), (b.y as int)), ((a.x as int), (a.y as int))),
            BoardShift::Down => (((a.x as int), (a.y as int)), ((b.x as int), (b.y as int))),
        }
    }

    /// The visit order of a shift: tiles sort by scan row, and within a
    /// row the tile nearest the target edge comes first.
    pub fn sort(&self, a: &Position, b: &Position) -> (r: core::cmp::Ordering)
        ensures
            ({
                let k = self.spec_sort_keys(*a, *b);
                &&& (r == core::cmp::Ordering::Less <==> lex_lt(k.0.0, k.0.1, k.1.0, k.1.1))
                &&& (r == core::cmp::Ordering::Equal <==> k.0 == k.1)
                &&& (r == core::cmp::Ordering::Greater <==> lex_lt(k.1.0, k.1.1, k.0.0, k.0.1))
            }),
    {
        match self {
            BoardShift::Left => lex_cmp(a.y, a.x, b.y, b.x),
            BoardShift::Right => lex_cmp(b.y, b.x, a.y, a.x),
            BoardShift::Up => lex_cmp(b.x, b.y, a.x, a.y),
            BoardShift::Down => lex_cmp(a.x, a.y, b.x, b.y),
        }
    }

    /// The scan row of `position`, as the engine walks the board.
    pub fn get_row_position(&self, position: &Position) -> (r: u8)
        ensures
            r as int == self.spec_row_of(position.x as int, position.y as int),
    {
        match self {
            BoardShift::Left | BoardShift::Right => position.y,
            BoardShift::Up | BoardShift::Down => position.x,
        }
    }

    /// Move `position` to the slot `index` places from the target edge,
    /// leaving its scan row unchanged.
    pub fn set_column_position(&self, board_size: u8, position: &mut Position, index: u8)
        requires
            index < board_size,
        ensures
            ({
                let row = self.spec_row_of(old(position).x as int, old(position).y as int);
                let p = self.spec_cell_at(board_size as int, row, index as int);
                final(position).x as int == p.0 && final(position).y as int == p.1
            }),
    {
        match self {
            BoardShift::Left => {
                position.x = index;
            }
            BoardShift::Right => {
                position.x = board_size - 1 - index;
            }
            BoardShift::Up => {
                position.y = board_size - 1 - index;
            }
            BoardShift::Down => {
                position.y = index;
            }
        }
    }

    /// The board cell of scan row `row` at distance `d` from the target
    /// edge.
    fn cell_at(self, size: u8, row: u8, d: u8) -> (p: Position)
        requires
            row < size,
            d < size,
        ensures
            p.x as int == self.spec_cell_at(size as int, row as int, d as int).0,
            p.y as int == self.spec_cell_at(size as int, row as int, d as int).1,
    {
        match self {
            BoardShift::Left => Position { x: d, y: row },
            BoardShift::Right => Position { x: size - 1 - d, y: row },
            BoardShift::Up => Position { x: row, y: size - 1 - d },
            BoardShift::Down => Position { x: row, y: d },
        }
    }
}

/// Lexicographic comparison of `(a0, a1)` against `(b0, b1)`.
fn lex_cmp(a0: u8, a1: u8, b0: u8, b1: u8) -> (r: core::cmp::Ordering)
    ensures
        (r == core::cmp::Ordering::Less <==> lex_lt(a0 as int, a1 as int, b0 as int, b1 as int)),
        (r == core::cmp::Ordering::Equal <==> (a0 == b0 && a1 == b1)),
        (r == core::cmp::Ordering::Greater <==> lex_lt(
            b0 as int,
            b1 as int,
            a0 as int,
            a1 as int,
        )),
{
    if a0 < b0 {
        core::cmp::Ordering::Less
    } else if a0 > b0 {
        core::cmp::Ordering::Greater
    } else if a1 < b1 {
        core::cmp::Ordering::Less
    } else if a1 > b1 {
        core::cmp::Ordering::Greater
    } else {
        core::cmp::Ordering::Equal
    }
}

/// The values of the occupied cells of scan row `row` among the first `n`
/// slots counted from the target edge, nearest first.
pub open spec fn line_prefix(g: GridState, dir: BoardShift, row: int, n: int) -> Seq<u32>
    decreases n,
{
    if n <= 0 {
        Seq::empty()
    } else {
        let p = dir.spec_cell_at(g.side(), row, n - 1);
        let prev = line_prefix(g, dir, row, n - 1);
        if g.cell(p.0, p.1) == 0 {
            prev
        } else {
            prev.push(g.cell(p.0, p.1))
        }
    }
}

/// The whole scan row `row` in compaction order.
pub open spec fn line_of(g: GridState, dir: BoardShift, row: int) -> Seq<u32> {
    line_prefix(g, dir, row, g.side())
}

/// One compaction pass over a line of tile values, nearest the target edge
/// first: equal neighbours merge pairwise, nearest pair first, and a tile
/// produced by a merge is never a candidate for another merge in the same
/// pass. Results are mathematical integers, so a merge cannot wrap here.
pub open spec fn merged_line(s: Seq<u32>) -> Seq<int>
    decreases s.len(),
{
    if s.len() == 0 {
        Seq::empty()
    } else if s.len() >= 2 && s[0] == s[1] {
        seq![2 * (s[0] as int)] + merged_line(s.skip(2))
    } else {
        seq![s[0] as int] + merged_line(s.skip(1))
    }
}

/// The score one pass over a line yields: the summed post-merge values.
pub open spec fn merged_score(s: Seq<u32>) -> int
    decreases s.len(),
{
    if s.len() == 0 {
        0
    } else if s.len() >= 2 && s[0] == s[1] {
        2 * (s[0] as int) + merged_score(s.skip(2))
    } else {
        merged_score(s.skip(1))
    }
}

/// How many merges one pass over a line performs.
pub open spec fn merged_count(s: Seq<u32>) -> nat
    decreases s.len(),
{
    if s.len() == 0 {
        0
    } else if s.len() >= 2 && s[0] == s[1] {
        1 + merged_count(s.skip(2))
    } else {
        merged_count(s.skip(1))
    }
}

/// Every value one pass over `s` produces fits a `u32`.
pub open spec fn line_fits(s: Seq<u32>) -> bool {
    forall|i: int| 0 <= i < merged_line(s).len() ==> merged_line(s)[i] <= u32::MAX
}

/// Every line of the board can be shifted without a merged value
/// overflowing a `u32`.
pub open spec fn shift_fits(g: GridState, dir: BoardShift) -> bool {
    forall|row: int| 0 <= row < g.side() ==> line_fits(#[trigger] line_of(g, dir, row))
}

/// The value the shifted board holds at `(x, y)`: the compacted line the
/// cell's scan row produces, read at the cell's distance from the target
/// edge.
pub open spec fn shifted_cell(g: GridState, dir: BoardShift, x: int, y: int) -> int {
    let row = dir.spec_row_of(x, y);
    let d = dir.spec_dist_of(g.side(), x, y);
    let m = merged_line(line_of(g, dir, row));
    if d < m.len() {
        m[d]
    } else {
        0
    }
}

/// The shift moves or merges something: some cell ends up different.
pub open spec fn shift_changes(g: GridState, dir: BoardShift) -> bool {
    exists|x: int, y: int|
        g.in_bounds(x, y) && shifted_cell(g, dir, x, y) != (#[trigger] g.cell(x, y)) as int
}

/// The shifted board is completely full.
pub open spec fn shift_fills(g: GridState, dir: BoardShift) -> bool {
    forall|x: int, y: int| g.in_bounds(x, y) ==> shifted_cell(g, dir, x, y) != 0
}

/// The summed merge score of scan rows `0..rows`.
pub open spec fn score_prefix(g: GridState, dir: BoardShift, rows: int) -> int
    decreases rows,
{
    if rows <= 0 {
        0
    } else {
        score_prefix(g, dir, rows - 1) + merged_score(line_of(g, dir, rows - 1))
    }
}

/// The total score one shift of the board yields.
pub open spec fn shift_score(g: GridState, dir: BoardShift) -> int {
    score_prefix(g, dir, g.side())
}

/// The number of merges scan rows `0..rows` perform.
pub open spec fn merges_prefix(g: GridState, dir: BoardShift, rows: int) -> int
    decreases rows,
{
    if rows <= 0 {
        0
    } else {
        merges_prefix(g, dir, rows - 1) + merged_count(line_of(g, dir, rows - 1))
    }
}

/// The total number of merges one shift of the board performs.
pub open spec fn shift_merges(g: GridState, dir: BoardShift) -> int {
    merges_prefix(g, dir, g.side())
}

/// An arithmetic failure: a merged tile value or an updated score would
/// exceed its numeric range instead of wrapping.
#[derive(Clone, Copy, Debug, PartialEq, Eq, Structural)]
pub enum EngineError {
    Overflow,
}

/// What one shift produced: the slid board, whether anything moved or
/// merged, and the score the merges yield.
#[derive(Debug)]
pub struct ShiftResult {
    pub grid: GridState,
    pub changed: bool,
    pub score_delta: u64,
}

/// A compacted line is never longer than its input.
pub proof fn lemma_merged_line_len(s: Seq<u32>)
    ensures
        merged_line(s).len() <= s.len(),
    decreases s.len(),
{
    if s.len() == 0 {
    } else if s.len() >= 2 && s[0] == s[1] {
        lemma_merged_line_len(s.skip(2));
    } else {
        lemma_merged_line_len(s.skip(1));
    }
}

/// A line's merge score is non-negative and at most twice the largest
/// `u32` per input value.
pub proof fn lemma_merged_score_bounds(s: Seq<u32>)
    ensures
        0 <= merged_score(s) <= s.len() * 0x2_0000_0000,
    decreases s.len(),
{
    if s.len() == 0 {
    } else if s.len() >= 2 && s[0] == s[1] {
        lemma_merged_score_bounds(s.skip(2));
    } else {
        lemma_merged_score_bounds(s.skip(1));
    }
}

/// A line holds at most `n` values.
pub proof fn lemma_line_prefix_len(g: GridState, dir: BoardShift, row: int, n: int)
    ensures
        line_prefix(g, dir, row, n).len() <= (if n >= 0 {
            n
        } else {
            0
        }),
    decreases n,
{
    if n > 0 {
        lemma_line_prefix_len(g, dir, row, n - 1);
    }
}

/// A compaction pass over occupied values yields only positive values.
pub proof fn lemma_merged_line_pos(s: Seq<u32>)
    requires
        forall|i: int| 0 <= i < s.len() ==> s[i] != 0,
    ensures
        forall|i: int| 0 <= i < merged_line(s).len() ==> #[trigger] merged_line(s)[i] > 0,
    decreases s.len(),
{
    if s.len() == 0 {
    } else if s.len() >= 2 && s[0] == s[1] {
        assert forall|i: int| 0 <= i < s.skip(2).len() implies s.skip(2)[i] != 0 by {
            assert(s.skip(2)[i] == s[i + 2]);
        }
        lemma_merged_line_pos(s.skip(2));
        assert forall|i: int| 0 <= i < merged_line(s).len() implies #[trigger] merged_line(s)[i]
            > 0 by {
            if i > 0 {
                assert(merged_line(s)[i] == merged_line(s.skip(2))[i - 1]);
            }
        }
    } else {
        assert forall|i: int| 0 <= i < s.skip(1).len() implies s.skip(1)[i] != 0 by {
            assert(s.skip(1)[i] == s[i + 1]);
        }
        lemma_merged_line_pos(s.skip(1));
        assert forall|i: int| 0 <= i < merged_line(s).len() implies #[trigger] merged_line(s)[i]
            > 0 by {
            if i > 0 {
                assert(merged_line(s)[i] == merged_line(s.skip(1))[i - 1]);
            }
        }
    }
}

/// A line holds only occupied (non-zero) values.
pub proof fn lemma_line_prefix_nonzero(g: GridState, dir: BoardShift, row: int, n: int)
    ensures
        forall|i: int| 0 <= i < line_prefix(g, dir, row, n).len() ==> line_prefix(
            g,
            dir,
            row,
            n,
        )[i] != 0,
    decreases n,
{
    if n > 0 {
        lemma_line_prefix_nonzero(g, dir, row, n - 1);
        let p = dir.spec_cell_at(g.side(), row, n - 1);
        let prev = line_prefix(g, dir, row, n - 1);
        assert forall|i: int| 0 <= i < line_prefix(g, dir, row, n).len() implies line_prefix(
            g,
            dir,
            row,
            n,
        )[i] != 0 by {
            if g.cell(p.0, p.1) != 0 {
                if i < prev.len() {
                    assert(line_prefix(g, dir, row, n)[i] == prev[i]);
                } else {
                    assert(line_prefix(g, dir, row, n)[i] == g.cell(p.0, p.1));
                }
            } else {
                assert(line_prefix(g, dir, row, n)[i] == prev[i]);
            }
        }
    }
}

/// The cell of scan row `row` at distance `d` is in bounds, lies on that
/// row, and at that distance.
pub(crate) proof fn lemma_cell_at_inverse(dir: BoardShift, size: int, row: int, d: int)
    requires
        0 <= row < size,
        0 <= d < size,
    ensures
        ({
            let p = dir.spec_cell_at(size, row, d);
            &&& 0 <= p.0 < size
            &&& 0 <= p.1 < size
            &&& dir.spec_row_of(p.0, p.1) == row
            &&& dir.spec_dist_of(size, p.0, p.1) == d
        }),
{
}

/// Compact-and-merge one line of values, nearest the target edge first.
/// Fails, without partial effect, if a merged value would not fit a `u32`.
fn merge_line(vals: &Vec<u32>) -> (r: Result<(Vec<u32>, u64), EngineError>)
    requires
        vals@.len() <= 255,
        forall|k: int| 0 <= k < vals@.len() ==> vals@[k] != 0,
    ensures
        r is Ok <==> line_fits(vals@),
        r is Ok ==> {
            let m = r->Ok_0.0;
            let sc = r->Ok_0.1;
            &&& m@.len() == merged_line(vals@).len()
            &&& forall|i: int| 0 <= i < m@.len() ==> (#[trigger] m@[i]) as int == merged_line(
                vals@,
            )[i] && m@[i] != 0
            &&& sc as int == merged_score(vals@)
            &&& sc <= 0x1FE_0000_0000u64
        },
{
    let ghost s = vals@;
    let n = vals.len();
    let mut out: Vec<u32> = Vec::new();
    let mut sc: u64 = 0;
    let mut i: usize = 0;
    proof {
        assert(s.skip(0) =~= s);
    }
    while i < n
        invariant
            s == vals@,
            n == s.len(),
            n <= 255,
            i <= n,
            forall|k: int| 0 <= k < s.len() ==> s[k] != 0,
            out@.len() + merged_line(s.skip(i as int)).len() == merged_line(s).len(),
            forall|k: int| 0 <= k < out@.len() ==> (#[trigger] out@[k]) as int == merged_line(s)[k]
                && out@[k] != 0,
            forall|k: int| 0 <= k < merged_line(s.skip(i as int)).len() ==> #[trigger] merged_line(
                s.skip(i as int),
            )[k] == merged_line(s)[out@.len() + k],
            sc as int + merged_score(s.skip(i as int)) == merged_score(s),
            sc as int <= (i as int) * 0x2_0000_0000,
        decreases n - i,
    {
        let v = vals[i];
        let ghost i0 = i as int;
        let ghost len0 = out@.len() as int;
        proof {
            assert(s.skip(i0)[0] == s[i0]);
            if i + 1 < n {
                assert(s.skip(i0)[1] == s[i0 + 1]);
            }
        }
        if i + 1 < n && vals[i + 1] == v {
            let sum = v as u64 + v as u64;
            proof {
                assert(s.skip(i0).skip(2) =~= s.skip(i0 + 2));
                assert(merged_line(s.skip(i0)) == seq![2 * (s[i0] as int)] + merged_line(
                    s.skip(i0 + 2),
                ));
                assert(merged_score(s.skip(i0)) == 2 * (s[i0] as int) + merged_score(
                    s.skip(i0 + 2),
                ));
            }
            if sum > 0xffff_ffffu64 {
                proof {
                    assert(merged_line(s.skip(i0))[0] == 2 * (v as int));
                    assert(merged_line(s)[len0] == 2 * (v as int));
                    assert(!line_fits(s));
                }
                return Err(EngineError::Overflow);
            }
            let mv = sum as u32;
            proof {
                lemma_merged_score_bounds(s.skip(i0 + 2));
                lemma_merged_score_bounds(s);
                assert(mv as u64 == sum);
            }
            out.push(mv);
            sc = sc + sum;
            i = i + 2;
            proof {
                assert(merged_line(s)[len0] == merged_line(s.skip(i0))[0]);
                assert forall|k: int| 0 <= k < out@.len() implies (#[trigger] out@[k]) as int
                    == merged_line(s)[k] && out@[k] != 0 by {
                    if k == len0 {
                        assert(out@[k] == mv);
                    }
                }
                assert forall|k: int| 0 <= k < merged_line(s.skip(i as int)).len()
                    implies #[trigger] merged_line(s.skip(i as int))[k] == merged_line(s)[
                    out@.len() + k] by {
                    assert(merged_line(s.skip(i as int))[k] == merged_line(s.skip(i0))[k + 1]);
                    assert(merged_line(s.skip(i0))[k + 1] == merged_line(s)[len0 + k + 1]);
                }
            }
        } else {
            proof {
                assert(s.skip(i0).skip(1) =~= s.skip(i0 + 1));
                assert(merged_line(s.skip(i0)) == seq![s[i0] as int] + merged_line(
                    s.skip(i0 + 1),
                ));
                assert(merged_score(s.skip(i0)) == merged_score(s.skip(i0 + 1)));
            }
            out.push(v);
            i = i + 1;
            proof {
                assert(merged_line(s)[len0] == merged_line(s.skip(i0))[0]);
                assert forall|k: int| 0 <= k < out@.len() implies (#[trigger] out@[k]) as int
                    == merged_line(s)[k] && out@[k] != 0 by {
                    if k == len0 {
                        assert(out@[k] == v);
                    }
                }
                assert forall|k: int| 0 <= k < merged_line(s.skip(i as int)).len()
                    implies #[trigger] merged_line(s.skip(i as int))[k] == merged_line(s)[
                    out@.len() + k] by {
                    assert(merged_line(s.skip(i as int))[k] == merged_line(s.skip(i0))[k + 1]);
                    assert(merged_line(s.skip(i0))[k + 1] == merged_line(s)[len0 + k + 1]);
                }
            }
        }
    }
    proof {
        assert(s.skip(n as int) =~= Seq::<u32>::empty());
        assert(merged_line(s.skip(n as int)) =~= Seq::<int>::empty());
        assert(merged_score(s.skip(n as int)) == 0);
        assert(line_fits(s)) by {
            assert forall|k: int| 0 <= k < merged_line(s).len() implies merged_line(s)[k]
                <= u32::MAX by {
                assert(merged_line(s)[k] == out@[k] as int);
            }
        }
        lemma_merged_score_bounds(s);
    }
    Ok((out, sc))
}

/// Apply one directional shift. On success the new board and the score
/// delta are pinned down, cell by cell, as a function of the old board and
/// the direction alone; the old board is untouched either way. The shift
/// fails only when a merged tile value would overflow a `u32`.
pub fn apply(dir: BoardShift, grid: &GridState) -> (r: Result<ShiftResult, EngineError>)
    requires
        grid.wf(),
    ensures
        r is Ok <==> shift_fits(*grid, dir),
        r is Ok ==> ({
            let res = r->Ok_0;
            &&& res.grid.wf()
            &&& res.grid.size == grid.size
            &&& forall|x: int, y: int|
                grid.in_bounds(x, y) ==> (#[trigger] res.grid.cell(x, y)) as int == shifted_cell(
                    *grid,
                    dir,
                    x,
                    y,
                )
            &&& res.score_delta as int == shift_score(*grid, dir)
            &&& (res.changed <==> shift_changes(*grid, dir))
        }),
{
    let size = grid.size;
    let n = size as usize;
    let mut out = GridState::new(size);
    let mut delta: u64 = 0;
    let mut row: usize = 0;
    proof {
        assert forall|x: int, y: int| grid.in_bounds(x, y) implies #[trigger] out.cell(x, y)
            == 0 by {
            assert(0 <= y * out.side() + x < out.side() * out.side()) by (nonlinear_arith)
                requires
                    0 <= x < out.side(),
                    0 <= y < out.side(),
            ;
        }
    }
    while row < n
        invariant
            grid.wf(),
            size == grid.size,
            n == grid.side(),
            row <= n,
            out.wf(),
            out.size == size,
            delta as int == score_prefix(*grid, dir, row as int),
            delta as int <= (row as int) * 0x1FE_0000_0000,
            forall|r0: int| 0 <= r0 < row ==> line_fits(#[trigger] line_of(*grid, dir, r0)),
            forall|x: int, y: int|
                grid.in_bounds(x, y) && dir.spec_row_of(x, y) < row ==> (#[trigger] out.cell(
                    x,
                    y,
                )) as int == shifted_cell(*grid, dir, x, y),
            forall|x: int, y: int|
                grid.in_bounds(x, y) && dir.spec_row_of(x, y) >= row ==> #[trigger] out.cell(x, y)
                    == 0,
        decreases n - row,
    {
        // gather the row's occupied values, nearest the target edge first
        let mut vals: Vec<u32> = Vec::new();
        let mut d: usize = 0;
        while d < n
            invariant
                grid.wf(),
                size == grid.size,
                n == grid.side(),
                row < n,
                d <= n,
                vals@ == line_prefix(*grid, dir, row as int, d as int),
                vals@.len() <= d,
                forall|k: int| 0 <= k < vals@.len() ==> vals@[k] != 0,
            decreases n - d,
        {
            proof {
                lemma_cell_at_inverse(dir, n as int, row as int, d as int);
            }
            let p = dir.cell_at(size, row as u8, d as u8);
            match grid.tile_at(p) {
                Some(t) => { vals.push(t.value) },
                None => {},
            }
            d = d + 1;
        }
        let ghost line = line_of(*grid, dir, row as int);
        proof {
            assert(vals@ == line);
        }
        // merge the row
        let (mvals, msc) = match merge_line(&vals) {
            Ok(m) => m,
            Err(e) => {
                proof {
                    assert(!line_fits(line_of(*grid, dir, row as int)));
                }
                return Err(e);
            },
        };
        proof {
            lemma_merged_line_len(line);
        }
        // place the compacted values back, nearest the target edge first
        let mut d2: usize = 0;
        while d2 < mvals.len()
            invariant
                grid.wf(),
                size == grid.size,
                n == grid.side(),
                row < n,
                out.wf(),
                out.size == size,
                d2 <= mvals@.len(),
                mvals@.len() == merged_line(line).len(),
                mvals@.len() <= n,
                line == line_of(*grid, dir, row as int),
                forall|k: int| 0 <= k < mvals@.len() ==> (#[trigger] mvals@[k]) as int
                    == merged_line(line)[k] && mvals@[k] != 0,
                forall|x: int, y: int|
                    grid.in_bounds(x, y) && dir.spec_row_of(x, y) < row ==> (#[trigger] out.cell(
                        x,
                        y,
                    )) as int == shifted_cell(*grid, dir, x, y),
                forall|x: int, y: int|
                    grid.in_bounds(x, y) && dir.spec_row_of(x, y) > row ==> #[trigger] out.cell(
                        x,
                        y,
                    ) == 0,
                forall|x: int, y: int|
                    grid.in_bounds(x, y) && dir.spec_row_of(x, y) == row && dir.spec_dist_of(
                        n as int,
                        x,
                        y,
                    ) < d2 ==> (#[trigger] out.cell(x, y)) as int == merged_line(line)[
                        dir.spec_dist_of(n as int, x, y)],
                forall|x: int, y: int|
                    grid.in_bounds(x, y) && dir.spec_row_of(x, y) == row && dir.spec_dist_of(
                        n as int,
                        x,
                        y,
                    ) >= d2 ==> #[trigger] out.cell(x, y) == 0,
            decreases mvals@.len() - d2,
        {
            proof {
                lemma_cell_at_inverse(dir, n as int, row as int, d2 as int);
            }
            let p = dir.cell_at(size, row as u8, d2 as u8);
            let v = mvals[d2];
            out.insert(p, v);
            d2 = d2 + 1;
        }
        proof {
            lemma_merged_score_bounds(line);
            lemma_line_prefix_len(*grid, dir, row as int, n as int);
            assert forall|x: int, y: int|
                grid.in_bounds(x, y) && dir.spec_row_of(x, y) == row implies (#[trigger] out.cell(
                x,
                y,
            )) as int == shifted_cell(*grid, dir, x, y) by {
                assert(dir.spec_dist_of(n as int, x, y) == dir.spec_dist_of(grid.side(), x, y));
            }
        }
        delta = delta + msc;
        row = row + 1;
    }
    proof {
        assert forall|x: int, y: int| grid.in_bounds(x, y) implies (#[trigger] out.cell(
            x,
            y,
        )) as int == shifted_cell(*grid, dir, x, y) by {
            assert(dir.spec_row_of(x, y) < n as int);
        }
    }
    // detect whether anything moved or merged
    let mut changed = false;
    let mut yc: usize = 0;
    let mut ic: usize = 0;
    while yc < n
        invariant
            grid.wf(),
            out.wf(),
            out.size == grid.size,
            n == grid.side(),
            yc <= n,
            ic == yc * n,
            forall|x: int, y: int|
                grid.in_bounds(x, y) ==> (#[trigger] out.cell(x, y)) as int == shifted_cell(
                    *grid,
                    dir,
                    x,
                    y,
                ),
            changed <==> exists|x0: int, y0: int|
                grid.in_bounds(x0, y0) && y0 * grid.side() + x0 < ic && (#[trigger] out.cell(
                    x0,
                    y0,
                )) != grid.cell(x0, y0),
        decreases n - yc,
    {
        let mut xc: usize = 0;
        while xc < n
            invariant
                grid.wf(),
                out.wf(),
                out.size == grid.size,
                n == grid.side(),
                yc < n,
                xc <= n,
                ic == yc * n + xc,
                forall|x: int, y: int|
                    grid.in_bounds(x, y) ==> (#[trigger] out.cell(x, y)) as int == shifted_cell(
                        *grid,
                        dir,
                        x,
                        y,
                    ),
                changed <==> exists|x0: int, y0: int|
                    grid.in_bounds(x0, y0) && y0 * grid.side() + x0 < ic && (#[trigger] out.cell(
                        x0,
                        y0,
                    )) != grid.cell(x0, y0),
            decreases n - xc,
        {
            proof {
                assert((yc as int) * (n as int) + (xc as int) < (n as int) * (n as int) && (n
                    as int) * (n as int) <= 65025) by (nonlinear_arith)
                    requires
                        0 <= (xc as int) < (n as int),
                        0 <= (yc as int) < (n as int),
                        (n as int) <= 255,
                ;
            }
            if out.cells[ic] != grid.cells[ic] {
                changed = true;
                proof {
                    assert(out.cell(xc as int, yc as int) != grid.cell(xc as int, yc as int));
                }
            } else {
                proof {
                    assert forall|x0: int, y0: int|
                        grid.in_bounds(x0, y0) && y0 * grid.side() + x0 < ic + 1
                            && (#[trigger] out.cell(x0, y0)) != grid.cell(x0, y0) implies y0
                        * grid.side() + x0 < ic by {
                        if y0 * grid.side() + x0 == ic {
                            assert(x0 == xc as int && y0 == yc as int) by (nonlinear_arith)
                                requires
                                    0 <= x0 < (n as int),
                                    0 <= y0 < (n as int),
                                    0 <= (xc as int) < (n as int),
                                    0 <= (yc as int) < (n as int),
                                    y0 * (n as int) + x0 == (yc as int) * (n as int) + (xc as int),
                            ;
                        }
                    }
                }
            }
            xc = xc + 1;
            ic = ic + 1;
        }
        proof {
            assert(((yc as int) + 1) * (n as int) == (yc as int) * (n as int) + (n as int)) by (
            nonlinear_arith);
        }
        yc = yc + 1;
    }
    proof {
        assert forall|x0: int, y0: int| grid.in_bounds(x0, y0) implies y0 * grid.side() + x0
            < ic by {
            assert(y0 * grid.side() + x0 < grid.side() * grid.side()) by (nonlinear_arith)
                requires
                    0 <= x0 < grid.side(),
                    0 <= y0 < grid.side(),
            ;
        }
        if changed {
            let (x0, y0) = choose|x0: int, y0: int|
                grid.in_bounds(x0, y0) && y0 * grid.side() + x0 < ic && (#[trigger] out.cell(
                    x0,
                    y0,
                )) != grid.cell(x0, y0);
            assert(shifted_cell(*grid, dir, x0, y0) != (grid.cell(x0, y0)) as int);
            assert(shift_changes(*grid, dir));
        } else {
            if shift_changes(*grid, dir) {
                let (x0, y0) = choose|x0: int, y0: int|
                    grid.in_bounds(x0, y0) && shifted_cell(*grid, dir, x0, y0) != (
                    #[trigger] grid.cell(x0, y0)) as int;
                assert(out.cell(x0, y0) != grid.cell(x0, y0));
                assert(false);
            }
        }
    }
    Ok(ShiftResult { grid: out, changed, score_delta: delta })
}

/// Sum of a sequence of mathematical integers.
pub open spec fn sum_ints(s: Seq<int>) -> int
    decreases s.len(),
{
    if s.len() == 0 {
        0
    } else {
        sum_ints(s.drop_last()) + s.last()
    }
}

proof fn lemma_sum_values_front(s: Seq<u32>)
    requires
        s.len() > 0,
    ensures
        sum_values(s) == s[0] + sum_values(s.skip(1)),
    decreases s.len(),
{
    if s.len() == 1 {
        assert(s.drop_last() =~= Seq::<u32>::empty());
        assert(s.skip(1) =~= Seq::<u32>::empty());
    } else {
        lemma_sum_values_front(s.drop_last());
        assert(s.skip(1).drop_last() =~= s.drop_last().skip(1));
        assert(s.skip(1).last() == s.last());
        assert(s.drop_last()[0] == s[0]);
    }
}

proof fn lemma_sum_ints_front(s: Seq<int>)
    requires
        s.len() > 0,
    ensures
        sum_ints(s) == s[0] + sum_ints(s.skip(1)),
    decreases s.len(),
{
    if s.len() == 1 {
        assert(s.drop_last() =~= Seq::<int>::empty());
        assert(s.skip(1) =~= Seq::<int>::empty());
    } else {
        lemma_sum_ints_front(s.drop_last());
        assert(s.skip(1).drop_last() =~= s.drop_last().skip(1));
        assert(s.skip(1).last() == s.last());
        assert(s.drop_last()[0] == s[0]);
    }
}

/// Merge conservation: one compaction pass keeps the summed tile value of
/// a line unchanged (a merge of two tiles of value `v` yields one tile of
/// value `2v`) and removes exactly one tile per merge. The score a pass
/// yields, `merged_score`, is by construction the sum of the post-merge
/// values, `2v` for each merge.
pub proof fn lemma_merge_conservation(s: Seq<u32>)
    ensures
        sum_ints(merged_line(s)) == sum_values(s),
        merged_line(s).len() + merged_count(s) == s.len(),
    decreases s.len(),
{
    if s.len() == 0 {
    } else if s.len() >= 2 && s[0] == s[1] {
        lemma_merge_conservation(s.skip(2));
        lemma_sum_values_front(s);
        lemma_sum_values_front(s.skip(1));
        assert(s.skip(1).skip(1) =~= s.skip(2));
        assert(s.skip(1)[0] == s[1]);
        lemma_sum_ints_front(merged_line(s));
        assert(merged_line(s)[0] == 2 * (s[0] as int));
        assert(merged_line(s).skip(1) =~= merged_line(s.skip(2)));
    } else {
        lemma_merge_conservation(s.skip(1));
        lemma_sum_values_front(s);
        lemma_sum_ints_front(merged_line(s));
        assert(merged_line(s)[0] == s[0] as int);
        assert(merged_line(s).skip(1) =~= merged_line(s.skip(1)));
    }
}

/// No double merge: the tile a merge produces is never a candidate for a
/// further merge in the same pass. A run of three equal tiles leaves
/// `[2v, v]` — the pair nearest the target edge merges, the third tile
/// does not chain — and a run of four leaves `[2v, 2v]`, never `4v`.
pub proof fn lemma_no_double_merge(v: u32)
    requires
        v != 0,
    ensures
        merged_line(seq![v, v, v]) == seq![2 * (v as int), v as int],
        merged_line(seq![v, v, v, v]) == seq![2 * (v as int), 2 * (v as int)],
{
    let s3 = seq![v, v, v];
    assert(s3.skip(2) =~= seq![v]);
    assert(seq![v].skip(1) =~= Seq::<u32>::empty());
    assert(merged_line(seq![v]) == seq![v as int] + merged_line(seq![v].skip(1)));
    assert(merged_line(s3) =~= seq![2 * (v as int), v as int]);
    let s4 = seq![v, v, v, v];
    assert(s4.skip(2) =~= seq![v, v]);
    assert(seq![v, v].skip(2) =~= Seq::<u32>::empty());
    assert(merged_line(seq![v, v]) == seq![2 * (v as int)] + merged_line(seq![v, v].skip(2)));
    assert(merged_line(s4) =~= seq![2 * (v as int), 2 * (v as int)]);
}

/// A run of equal tiles merges strictly pairwise, nearest pair first: a
/// run of length `k` leaves `k / 2` doubled tiles, and, for odd `k`, the
/// last tile unmerged. No tile the pass produces ever merges again.
pub proof fn lemma_equal_run_merges_pairwise(s: Seq<u32>, v: u32)
    requires
        v != 0,
        forall|i: int| 0 <= i < s.len() ==> s[i] == v,
    ensures
        merged_line(s).len() == (s.len() + 1) / 2,
        forall|i: int| 0 <= i < s.len() / 2 ==> merged_line(s)[i] == 2 * (v as int),
        s.len() % 2 == 1 ==> merged_line(s)[(s.len() / 2) as int] == v as int,
    decreases s.len(),
{
    if s.len() == 0 {
    } else if s.len() == 1 {
        assert(s.skip(1) =~= Seq::<u32>::empty());
        assert(merged_line(s) == seq![s[0] as int] + merged_line(s.skip(1)));
    } else {
        assert(s[0] == v && s[1] == v);
        assert forall|i: int| 0 <= i < s.skip(2).len() implies s.skip(2)[i] == v by {
            assert(s.skip(2)[i] == s[i + 2]);
        }
        lemma_equal_run_merges_pairwise(s.skip(2), v);
        assert(merged_line(s) == seq![2 * (s[0] as int)] + merged_line(s.skip(2)));
        assert forall|i: int| 0 <= i < s.len() / 2 implies merged_line(s)[i] == 2 * (
        v as int) by {
            if i > 0 {
                assert(merged_line(s)[i] == merged_line(s.skip(2))[i - 1]);
            }
        }
        if s.len() % 2 == 1 {
            assert(merged_line(s)[(s.len() / 2) as int] == merged_line(s.skip(2))[(s.skip(2).len() / 2) as int]);
        }
    }
}

proof fn lemma_line_prefix_same(g1: GridState, g2: GridState, dir: BoardShift, row: int, n: int)
    requires
        g1.size == g2.size,
        g1.cells@ == g2.cells@,
    ensures
        line_prefix(g1, dir, row, n) == line_prefix(g2, dir, row, n),
    decreases n,
{
    if n > 0 {
        lemma_line_prefix_same(g1, g2, dir, row, n - 1);
    }
}

proof fn lemma_score_prefix_same(g1: GridState, g2: GridState, dir: BoardShift, rows: int)
    requires
        g1.size == g2.size,
        g1.cells@ == g2.cells@,
    ensures
        score_prefix(g1, dir, rows) == score_prefix(g2, dir, rows),
    decreases rows,
{
    if rows > 0 {
        lemma_score_prefix_same(g1, g2, dir, rows - 1);
        lemma_line_prefix_same(g1, g2, dir, rows - 1, g1.side());
    }
}

/// Compaction determinism: the outcome of a shift — every resulting cell
/// and the score — is a function of the board's size and cell values and
/// of the direction alone; no randomness is involved.
pub proof fn lemma_shift_deterministic(g1: GridState, g2: GridState, dir: BoardShift)
    requires
        g1.size == g2.size,
        g1.cells@ == g2.cells@,
    ensures
        forall|x: int, y: int| shifted_cell(g1, dir, x, y) == shifted_cell(g2, dir, x, y),
        shift_score(g1, dir) == shift_score(g2, dir),
{
    assert forall|x: int, y: int| shifted_cell(g1, dir, x, y) == shifted_cell(g2, dir, x, y) by {
        lemma_line_prefix_same(g1, g2, dir, dir.spec_row_of(x, y), g1.side());
    }
    lemma_score_prefix_same(g1, g2, dir, g1.side());
}

} // verus!
