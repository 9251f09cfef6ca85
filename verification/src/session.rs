//! The play session: the board together with the session score, the best
//! score seen this process, and the run state. One directional command is
//! processed as a whole — shift, score update, spawn, terminal check —
//! before the next is accepted.

use vstd::prelude::*;
use crate::grid::GridState;
use crate::grid::Position;
use crate::shift::BoardShift;
use crate::shift::EngineError;
use crate::shift::apply;
use crate::shift::shift_fits;
use crate::shift::shift_score;
use crate::shift::shift_changes;
use crate::shift::shift_fills;
use crate::shift::shifted_cell;
use crate::spawn::SPAWN_VALUE;
use crate::spawn::spawn;
use crate::terminal::has_legal_move;
use crate::terminal::move_available;

verus! {

/// The two-valued session phase.
#[derive(Clone, Copy, Debug, PartialEq, Eq, Structural)]
pub enum RunState {
    Playing,
    GameOver,
}

/// What one accepted command did: whether the board changed, the score it
/// gained, where a tile was spawned, and whether the session ended.
#[derive(Clone, Copy, Debug)]
pub struct MoveOutcome {
    pub changed: bool,
    pub score_delta: u32,
    pub spawned: Option<Position>,
    pub game_over: bool,
}

/// One play session.
pub struct Session {
    pub grid: GridState,
    pub score: u32,
    pub score_best: u32,
    pub state: RunState,
}

impl Session {
    /// Well-formedness: the board is well formed and the session score
    /// never exceeds the best score.
    pub open spec fn wf(self) -> bool {
        &&& self.grid.wf()
        &&& self.score <= self.score_best
    }

    /// Start a session: an empty board of the given side length with two
    /// freshly spawned minimum-value tiles, zero scores, playing.
    pub fn new(size: u8) -> (r: Session)
        requires
            2 <= size,
        ensures
            r.wf(),
            r.grid.size == size,
            r.score == 0,
            r.score_best == 0,
            r.state == RunState::Playing,
            r.grid.tile_count() == 2,
            forall|x: int, y: int|
                r.grid.in_bounds(x, y) ==> #[trigger] r.grid.cell(x, y) == 0 || r.grid.cell(x, y)
                    == SPAWN_VALUE,
    {
        let mut s = Session {
            grid: GridState::new(size),
            score: 0,
            score_best: 0,
            state: RunState::Playing,
        };
        s.new_game();
        s
    }

    /// Start a new game: clear the board, reset the session score, spawn
    /// two minimum-value tiles at two distinct cells, and resume playing.
    /// The best score is kept.
    pub fn new_game(&mut self)
        requires
            old(self).wf(),
        ensures
            final(self).wf(),
            final(self).grid.size == old(self).grid.size,
            final(self).score == 0,
            final(self).score_best == old(self).score_best,
            final(self).state == RunState::Playing,
            final(self).grid.tile_count() == 2,
            forall|x: int, y: int|
                final(self).grid.in_bounds(x, y) ==> #[trigger] final(self).grid.cell(x, y) == 0
                    || final(self).grid.cell(x, y) == SPAWN_VALUE,
    {
        self.grid.clear();
        self.score = 0;
        self.state = RunState::Playing;
        proof {
            assert forall|x: int, y: int| self.grid.in_bounds(x, y) implies #[trigger]
            self.grid.cell(x, y) == 0 by {
                assert(0 <= y * self.grid.side() + x < self.grid.side() * self.grid.side()) by (
                nonlinear_arith)
                    requires
                        0 <= x < self.grid.side(),
                        0 <= y < self.grid.side(),
                ;
            }
            assert(self.grid.in_bounds(0, 0));
            assert(self.grid.cell(0, 0) == 0);
            assert(!self.grid.is_full());
        }
        let first = spawn(&mut self.grid);
        proof {
            // a board of side at least two still has an empty cell among
            // its first two after one tile was placed
            let p = first->Some_0;
            assert(self.grid.in_bounds(0, 0) && self.grid.in_bounds(1, 0));
            if p.x as int == 0 && p.y as int == 0 {
                assert(self.grid.cell(1, 0) == 0);
            } else {
                assert(self.grid.cell(0, 0) == 0);
            }
            assert(!self.grid.is_full());
        }
        let second = spawn(&mut self.grid);
    }

    /// End the game by explicit action; the board and both scores are
    /// kept.
    pub fn end_game(&mut self)
        requires
            old(self).wf(),
        ensures
            final(self).wf(),
            final(self).state == RunState::GameOver,
            final(self).grid == old(self).grid,
            final(self).score == old(self).score,
            final(self).score_best == old(self).score_best,
    {
        self.state = RunState::GameOver;
    }

    /// Process one directional command. While playing, the board is
    /// shifted; the score grows by the merge total and the best score
    /// follows it upward; if anything moved or merged, one new tile is
    /// spawned at a random empty cell; the session ends when no legal
    /// move remains. A command in the game-over state is ignored, and on
    /// arithmetic overflow nothing is changed.
    #[verifier::rlimit(50)]
    pub fn handle_move(&mut self, dir: BoardShift) -> (r: Result<MoveOutcome, EngineError>)
        requires
            old(self).wf(),
        ensures
            final(self).wf(),
            final(self).score_best >= old(self).score_best,
            old(self).state == RunState::GameOver ==> ({
                &&& r is Ok
                &&& *final(self) == *old(self)
                &&& r->Ok_0.changed == false
                &&& r->Ok_0.score_delta == 0
                &&& r->Ok_0.spawned is None
                &&& r->Ok_0.game_over == true
            }),
            old(self).state == RunState::Playing ==> ({
                &&& (r is Err <==> !shift_fits(old(self).grid, dir) || old(self).score
                    + shift_score(old(self).grid, dir) > u32::MAX)
                &&& r is Err ==> *final(self) == *old(self)
                &&& r is Ok ==> ({
                    let o = r->Ok_0;
                    &&& o.score_delta as int == shift_score(old(self).grid, dir)
                    &&& final(self).score == old(self).score + o.score_delta
                    &&& final(self).score_best == (if final(self).score > old(self).score_best {
                        final(self).score
                    } else {
                        old(self).score_best
                    })
                    &&& final(self).grid.size == old(self).grid.size
                    &&& (o.changed <==> shift_changes(old(self).grid, dir))
                    &&& (o.spawned is None <==> (!o.changed || shift_fills(old(self).grid, dir)))
                    &&& (o.spawned is Some ==> ({
                        let p = o.spawned->Some_0;
                        &&& old(self).grid.in_bounds(p.x as int, p.y as int)
                        &&& shifted_cell(old(self).grid, dir, p.x as int, p.y as int) == 0
                        &&& final(self).grid.cell(p.x as int, p.y as int) == SPAWN_VALUE
                        &&& forall|x: int, y: int|
                            old(self).grid.in_bounds(x, y) && !(x == p.x as int && y == p.y as int)
                                ==> (#[trigger] final(self).grid.cell(x, y)) as int
                                == shifted_cell(old(self).grid, dir, x, y)
                    }))
                    &&& (o.spawned is None ==> forall|x: int, y: int|
                        old(self).grid.in_bounds(x, y) ==> (#[trigger] final(self).grid.cell(
                            x,
                            y,
                        )) as int == shifted_cell(old(self).grid, dir, x, y))
                    &&& (o.game_over <==> final(self).state == RunState::GameOver)
                    &&& (final(self).state == RunState::Playing <==> move_available(
                        final(self).grid,
                    ))
                })
            }),
    {
        match self.state {
            RunState::GameOver => {
                return Ok(
                    MoveOutcome { changed: false, score_delta: 0, spawned: None, game_over: true },
                );
            },
            RunState::Playing => {},
        }
        let sr = match apply(dir, &self.grid) {
            Ok(s) => s,
            Err(e) => {
                return Err(e);
            },
        };
        if sr.score_delta > (u32::MAX - self.score) as u64 {
            return Err(EngineError::Overflow);
        }
        let delta32: u32 = sr.score_delta as u32;
        proof {
            assert(delta32 as u64 == sr.score_delta);
        }
        self.score = self.score + delta32;
        if self.score > self.score_best {
            self.score_best = self.score;
        }
        let changed = sr.changed;
        let ghost mid = sr.grid;
        self.grid = sr.grid;
        let mut spawned: Option<Position> = None;
        if changed {
            spawned = spawn(&mut self.grid);
            proof {
                if spawned is None {
                    assert forall|x: int, y: int| old(self).grid.in_bounds(x, y)
                        implies shifted_cell(old(self).grid, dir, x, y) != 0 by {
                        assert(mid.cell(x, y) != 0);
                    }
                } else {
                    let p = spawned->Some_0;
                    assert(mid.cell(p.x as int, p.y as int) == 0);
                    assert(old(self).grid.in_bounds(p.x as int, p.y as int));
                    assert(shifted_cell(old(self).grid, dir, p.x as int, p.y as int) == 0);
                    assert(!shift_fills(old(self).grid, dir));
                }
            }
        }
        let legal = has_legal_move(&self.grid);
        self.state = if legal {
            RunState::Playing
        } else {
            RunState::GameOver
        };
        Ok(MoveOutcome { changed, score_delta: delta32, spawned, game_over: !legal })
    }
}

} // verus!
