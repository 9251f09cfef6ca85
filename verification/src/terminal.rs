//! Terminal detection: a legal move remains while some cell is empty or
//! two orthogonally adjacent tiles carry the same value; otherwise the
//! session is over.

use vstd::prelude::*;
use crate::grid::GridState;

verus! {

/// A merge is available at `(x, y)`: the tile there equals its right or
/// its upper neighbour. Checking these two directions at every cell
/// covers every orthogonally adjacent pair of the board.
pub open spec fn pair_at(g: GridState, x: int, y: int) -> bool {
    g.cell(x, y) != 0 && ((x + 1 < g.side() && g.cell(x + 1, y) == g.cell(x, y)) || (y + 1
        < g.side() && g.cell(x, y + 1) == g.cell(x, y)))
}

/// A legal move exists: some cell is empty, or some orthogonally adjacent
/// pair of tiles shares a value.
pub open spec fn move_available(g: GridState) -> bool {
    (exists|x: int, y: int| g.in_bounds(x, y) && #[trigger] g.cell(x, y) == 0) || (exists|
        x: int,
        y: int,
    | g.in_bounds(x, y) && pair_at(g, x, y))
}

/// Terminal correctness: a board with an empty cell always has a legal
/// move available; a full board has one exactly when two orthogonally
/// adjacent tiles share a value, and none otherwise.
pub proof fn lemma_terminal_correctness(g: GridState)
    ensures
        !g.is_full() ==> move_available(g),
        g.is_full() ==> (move_available(g) <==> exists|x: int, y: int|
            g.in_bounds(x, y) && pair_at(g, x, y)),
{
    if !g.is_full() {
        let (x, y) = choose|x: int, y: int|
            g.in_bounds(x, y) && !(#[trigger] g.cell(x, y) != 0);
        assert(g.in_bounds(x, y) && g.cell(x, y) == 0);
        assert(move_available(g));
    } else {
        if move_available(g) {
            if !(exists|x: int, y: int| g.in_bounds(x, y) && pair_at(g, x, y)) {
                let (x, y) = choose|x: int, y: int|
                    g.in_bounds(x, y) && #[trigger] g.cell(x, y) == 0;
                assert(g.cell(x, y) != 0);
                assert(false);
            }
        }
    }
}

/// Decide whether a legal move remains. A board with an empty cell always
/// has one; a full board has one exactly when two orthogonally adjacent
/// tiles share a value.
pub fn has_legal_move(grid: &GridState) -> (r: bool)
    requires
        grid.wf(),
    ensures
        r == move_available(*grid),
{
    let n = grid.size as usize;
    let mut y: usize = 0;
    let mut i: usize = 0;
    while y < n
        invariant
            grid.wf(),
            n == grid.side(),
            y <= n,
            i == y * n,
            forall|x0: int, y0: int|
                grid.in_bounds(x0, y0) && y0 * grid.side() + x0 < i ==> #[trigger] grid.cell(
                    x0,
                    y0,
                ) != 0 && !pair_at(*grid, x0, y0),
        decreases n - y,
    {
        let mut x: usize = 0;
        while x < n
            invariant
                grid.wf(),
                n == grid.side(),
                y < n,
                x <= n,
                i == y * n + x,
                forall|x0: int, y0: int|
                    grid.in_bounds(x0, y0) && y0 * grid.side() + x0 < i ==> #[trigger] grid.cell(
                        x0,
                        y0,
                    ) != 0 && !pair_at(*grid, x0, y0),
            decreases n - x,
        {
            proof {
                assert((y as int) * (n as int) + (x as int) < (n as int) * (n as int) && (n
                    as int) * (n as int) <= 65025 && ((y as int) + 1) * (n as int) == (y
                    as int) * (n as int) + (n as int)) by (nonlinear_arith)
                    requires
                        0 <= (x as int) < (n as int),
                        0 <= (y as int) < (n as int),
                        (n as int) <= 255,
                ;
            }
            let v = grid.cells[i];
            proof {
                assert(grid.cell(x as int, y as int) == grid.cells@[i as int]);
            }
            if v == 0 {
                proof {
                    assert(grid.in_bounds(x as int, y as int) && grid.cell(x as int, y as int)
                        == 0);
                }
                return true;
            }
            if x + 1 < n {
                proof {
                    assert((y as int) * (n as int) + (x as int) + 1 < (n as int) * (n as int))
                        by (nonlinear_arith)
                        requires
                            0 <= (x as int) + 1 < (n as int),
                            0 <= (y as int) < (n as int),
                    ;
                }
                let vr = grid.cells[i + 1];
                proof {
                    assert(grid.cell(x as int + 1, y as int) == grid.cells@[i as int + 1]);
                }
                if vr == v {
                    proof {
                        assert(pair_at(*grid, x as int, y as int));
                    }
                    return true;
                }
            }
            if y + 1 < n {
                proof {
                    assert(((y as int) + 1) * (n as int) + (x as int) == (i as int) + (n as int))
                        by (nonlinear_arith)
                        requires
                            i as int == (y as int) * (n as int) + (x as int),
                    ;
                    assert(((y as int) + 1) * (n as int) + (x as int) < (n as int) * (n as int))
                        by (nonlinear_arith)
                        requires
                            0 <= (x as int) < (n as int),
                            0 <= (y as int) + 1 < (n as int),
                    ;
                }
                let vu = grid.cells[i + n];
                proof {
                    assert(grid.cell(x as int, y as int + 1) == grid.cells@[i as int + n as int]);
                }
                if vu == v {
                    proof {
                        assert(pair_at(*grid, x as int, y as int));
                    }
                    return true;
                }
            }
            proof {
                assert forall|x0: int, y0: int|
                    grid.in_bounds(x0, y0) && y0 * grid.side() + x0 < i + 1 implies #[trigger]
                grid.cell(x0, y0) != 0 && !pair_at(*grid, x0, y0) by {
                    if y0 * grid.side() + x0 == i {
                        assert(x0 == x as int && y0 == y as int) by (nonlinear_arith)
                            requires
                                0 <= x0 < (n as int),
                                0 <= y0 < (n as int),
                                0 <= (x as int) < (n as int),
                                0 <= (y as int) < (n as int),
                                y0 * (n as int) + x0 == (y as int) * (n as int) + (x as int),
                        ;
                    }
                }
            }
            x = x + 1;
            i = i + 1;
        }
        proof {
            assert(((y as int) + 1) * (n as int) == (y as int) * (n as int) + (n as int)) by (
            nonlinear_arith);
        }
        y = y + 1;
    }
    proof {
        assert forall|x0: int, y0: int| grid.in_bounds(x0, y0) implies y0 * grid.side() + x0
            < i by {
            assert(y0 * grid.side() + x0 < grid.side() * grid.side()) by (nonlinear_arith)
                requires
                    0 <= x0 < grid.side(),
                    0 <= y0 < grid.side(),
            ;
        }
    }
    false
}

} // verus!
