//! Spawn policy: after a move that changed the board, and twice when a new
//! game starts, a fresh minimum-value tile appears at an empty cell chosen
//! uniformly at random.

use vstd::prelude::*;
use crate::grid::GridState;
use crate::grid::Position;

verus! {

/// The value every newly spawned tile carries.
pub const SPAWN_VALUE: u32 = 2;

/// Relies on rand's `Rng::gen_range` over `thread_rng`: on the non-empty
/// range `0..n` it returns a uniformly chosen value of that range, so the
/// result is always below `n`. Nothing more is assumed of the outcome.
#[verifier::external_body]
fn rand_below(n: usize) -> (r: usize)
    requires
        n > 0,
    ensures
        r < n,
{
    let mut rng = rand::thread_rng();
    rand::Rng::gen_range(&mut rng, 0..n)
}

/// Insert one minimum-value tile at an empty cell chosen uniformly at
/// random; reports the chosen cell, or nothing when the board is full.
pub fn spawn(grid: &mut GridState) -> (r: Option<Position>)
    requires
        old(grid).wf(),
    ensures
        final(grid).wf(),
        final(grid).size == old(grid).size,
        r is None <==> old(grid).is_full(),
        r is None ==> *final(grid) == *old(grid),
        r is Some ==> ({
            let p = r->Some_0;
            &&& old(grid).in_bounds(p.x as int, p.y as int)
            &&& old(grid).cell(p.x as int, p.y as int) == 0
            &&& final(grid).cell(p.x as int, p.y as int) == SPAWN_VALUE
            &&& forall|x: int, y: int|
                final(grid).in_bounds(x, y) && !(x == p.x as int && y == p.y as int)
                    ==> final(grid).cell(x, y) == old(grid).cell(x, y)
            &&& final(grid).tile_count() == old(grid).tile_count() + 1
        }),
{
    let n = grid.size as usize;
    let mut empties: Vec<Position> = Vec::new();
    let mut y: usize = 0;
    let mut i: usize = 0;
    while y < n
        invariant
            grid.wf(),
            n == grid.side(),
            y <= n,
            i == y * n,
            forall|k: int|
                0 <= k < empties@.len() ==> grid.in_bounds(
                    #[trigger] empties@[k].x as int,
                    empties@[k].y as int,
                ) && grid.cell(empties@[k].x as int, empties@[k].y as int) == 0,
            empties@.len() == 0 ==> forall|x0: int, y0: int|
                grid.in_bounds(x0, y0) && y0 * grid.side() + x0 < i ==> #[trigger] grid.cell(
                    x0,
                    y0,
                ) != 0,
        decreases n - y,
    {
        let mut x: usize = 0;
        while x < n
            invariant
                grid.wf(),
                n == grid.side(),
                y < n,
                x <= n,
                i == y * n + x,
                forall|k: int|
                    0 <= k < empties@.len() ==> grid.in_bounds(
                        #[trigger] empties@[k].x as int,
                        empties@[k].y as int,
                    ) && grid.cell(empties@[k].x as int, empties@[k].y as int) == 0,
                empties@.len() == 0 ==> forall|x0: int, y0: int|
                    grid.in_bounds(x0, y0) && y0 * grid.side() + x0 < i ==> #[trigger] grid.cell(
                        x0,
                        y0,
                    ) != 0,
            decreases n - x,
        {
            proof {
                assert((y as int) * (n as int) + (x as int) < (n as int) * (n as int) && (n
                    as int) * (n as int) <= 65025 && ((y as int) + 1) * (n as int) == (y
                    as int) * (n as int) + (n as int)) by (nonlinear_arith)
                    requires
                        0 <= (x as int) < (n as int),
                        0 <= (y as int) < (n as int),
                        (n as int) <= 255,
                ;
            }
            let v = grid.cells[i];
            proof {
                assert(grid.cell(x as int, y as int) == grid.cells@[i as int]);
            }
            if v == 0 {
                empties.push(Position { x: x as u8, y: y as u8 });
            } else {
                proof {
                    assert forall|x0: int, y0: int|
                        grid.in_bounds(x0, y0) && y0 * grid.side() + x0 < i + 1
                            && empties@.len() == 0 implies #[trigger] grid.cell(x0, y0) != 0 by {
                        if y0 * grid.side() + x0 == i {
                            assert(x0 == x as int && y0 == y as int) by (nonlinear_arith)
                                requires
                                    0 <= x0 < (n as int),
                                    0 <= y0 < (n as int),
                                    0 <= (x as int) < (n as int),
                                    0 <= (y as int) < (n as int),
                                    y0 * (n as int) + x0 == (y as int) * (n as int) + (x as int),
                            ;
                        }
                    }
                }
            }
            x = x + 1;
            i = i + 1;
        }
        proof {
            assert(((y as int) + 1) * (n as int) == (y as int) * (n as int) + (n as int)) by (
            nonlinear_arith);
        }
        y = y + 1;
    }
    proof {
        assert forall|x0: int, y0: int| grid.in_bounds(x0, y0) implies y0 * grid.side() + x0
            < i by {
            assert(y0 * grid.side() + x0 < grid.side() * grid.side()) by (nonlinear_arith)
                requires
                    0 <= x0 < grid.side(),
                    0 <= y0 < grid.side(),
            ;
        }
    }
    if empties.len() == 0 {
        proof {
            assert(grid.is_full());
        }
        None
    } else {
        proof {
            assert(empties@[0].y as int * grid.side() + empties@[0].x as int >= 0);
            assert(!grid.is_full()) by {
                assert(grid.cell(empties@[0].x as int, empties@[0].y as int) == 0);
            }
        }
        let k = rand_below(empties.len());
        let p = empties[k];
        grid.insert(p, SPAWN_VALUE);
        Some(p)
    }
}

} // verus!
