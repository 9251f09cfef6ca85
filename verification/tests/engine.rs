use twenty48::grid::GridState;
use twenty48::grid::Position;
use twenty48::grid::Tile;
use twenty48::session::RunState;
use twenty48::session::Session;
use twenty48::shift::apply;
use twenty48::shift::BoardShift;
use twenty48::shift::EngineError;
use twenty48::spawn::spawn;
use twenty48::terminal::has_legal_move;
use std::cmp::Ordering;

fn grid_with(size: u8, tiles: &[(u8, u8, u32)]) -> GridState {
    let mut g = GridState::new(size);
    for &(x, y, v) in tiles {
        g.insert(Position { x, y }, v);
    }
    g
}

fn tiles_of(g: &GridState) -> Vec<(u8, u8, u32)> {
    g.tiles().iter().map(|t| (t.pos.x, t.pos.y, t.value)).collect()
}

/// A full board whose sixteen values are pairwise distinct, so no
/// orthogonal neighbours are equal and no legal move remains.
fn stuck_board() -> GridState {
    let mut vals: Vec<(u8, u8, u32)> = Vec::new();
    let mut v: u32 = 2;
    for y in 0..4u8 {
        for x in 0..4u8 {
            vals.push((x, y, v));
            v *= 2;
        }
    }
    grid_with(4, &vals)
}

#[test]
fn shift_left_merges_equal_pair() {
    let g = grid_with(4, &[(0, 0, 2), (1, 0, 2), (3, 0, 4)]);
    let r = apply(BoardShift::Left, &g).unwrap();
    assert_eq!(tiles_of(&r.grid), vec![(0, 0, 4), (1, 0, 4)]);
    assert_eq!(r.score_delta, 4);
    assert!(r.changed);
}

#[test]
fn shift_left_triple_merges_only_nearest_pair() {
    let g = grid_with(4, &[(0, 0, 2), (2, 0, 2), (3, 0, 2)]);
    let r = apply(BoardShift::Left, &g).unwrap();
    assert_eq!(tiles_of(&r.grid), vec![(0, 0, 4), (1, 0, 2)]);
    assert_eq!(r.score_delta, 4);
}

#[test]
fn shift_quadruple_merges_pairwise_not_chained() {
    let g = grid_with(4, &[(0, 0, 2), (1, 0, 2), (2, 0, 2), (3, 0, 2)]);
    let r = apply(BoardShift::Left, &g).unwrap();
    assert_eq!(tiles_of(&r.grid), vec![(0, 0, 4), (1, 0, 4)]);
    assert_eq!(r.score_delta, 8);
}

#[test]
fn merged_tile_does_not_merge_again_with_slid_equal() {
    // after 2+2 merges to 4, the existing 4 slides next to it but must
    // not merge with it in the same shift
    let g = grid_with(4, &[(0, 0, 2), (1, 0, 2), (3, 0, 4)]);
    let r = apply(BoardShift::Left, &g).unwrap();
    assert_eq!(tiles_of(&r.grid), vec![(0, 0, 4), (1, 0, 4)]);
}

#[test]
fn shift_right_compacts_to_right_edge() {
    let g = grid_with(4, &[(0, 0, 2), (1, 0, 2)]);
    let r = apply(BoardShift::Right, &g).unwrap();
    assert_eq!(tiles_of(&r.grid), vec![(3, 0, 4)]);
    assert_eq!(r.score_delta, 4);
}

#[test]
fn shift_up_compacts_to_top_edge() {
    let g = grid_with(4, &[(0, 0, 2), (0, 1, 2), (1, 2, 8)]);
    let r = apply(BoardShift::Up, &g).unwrap();
    assert_eq!(tiles_of(&r.grid), vec![(0, 3, 4), (1, 3, 8)]);
    assert_eq!(r.score_delta, 4);
}

#[test]
fn shift_down_compacts_to_bottom_edge() {
    let g = grid_with(4, &[(0, 2, 2), (0, 3, 2), (2, 1, 8)]);
    let r = apply(BoardShift::Down, &g).unwrap();
    assert_eq!(tiles_of(&r.grid), vec![(0, 0, 4), (2, 0, 8)]);
    assert_eq!(r.score_delta, 4);
}

#[test]
fn shift_moves_without_merge_scores_nothing() {
    let g = grid_with(4, &[(3, 0, 2), (2, 1, 4)]);
    let r = apply(BoardShift::Left, &g).unwrap();
    assert_eq!(tiles_of(&r.grid), vec![(0, 0, 2), (0, 1, 4)]);
    assert_eq!(r.score_delta, 0);
    assert!(r.changed);
}

#[test]
fn shift_with_nothing_to_move_reports_unchanged() {
    let g = grid_with(4, &[(0, 0, 2), (1, 0, 4)]);
    let r = apply(BoardShift::Left, &g).unwrap();
    assert!(!r.changed);
    assert_eq!(r.score_delta, 0);
    assert_eq!(tiles_of(&r.grid), tiles_of(&g));
}

#[test]
fn shift_conserves_summed_tile_value() {
    let g = grid_with(4, &[(0, 0, 2), (1, 0, 2), (3, 0, 4), (2, 2, 8), (2, 3, 8)]);
    let before: u64 = tiles_of(&g).iter().map(|&(_, _, v)| v as u64).sum();
    let r = apply(BoardShift::Down, &g).unwrap();
    let after: u64 = tiles_of(&r.grid).iter().map(|&(_, _, v)| v as u64).sum();
    assert_eq!(before, after);
}

#[test]
fn shift_is_deterministic() {
    let g = grid_with(4, &[(0, 0, 2), (2, 0, 2), (1, 3, 16), (3, 3, 16)]);
    let r1 = apply(BoardShift::Left, &g).unwrap();
    let r2 = apply(BoardShift::Left, &g).unwrap();
    assert_eq!(tiles_of(&r1.grid), tiles_of(&r2.grid));
    assert_eq!(r1.score_delta, r2.score_delta);
    assert_eq!(r1.changed, r2.changed);
}

#[test]
fn merge_overflow_is_reported_not_wrapped() {
    let g = grid_with(4, &[(0, 0, u32::MAX), (1, 0, u32::MAX)]);
    let r = apply(BoardShift::Left, &g);
    assert_eq!(r.unwrap_err(), EngineError::Overflow);
}

#[test]
fn spawn_fills_the_single_empty_cell() {
    let mut vals: Vec<(u8, u8, u32)> = Vec::new();
    let mut v: u32 = 2;
    for y in 0..4u8 {
        for x in 0..4u8 {
            if (x, y) != (2, 1) {
                vals.push((x, y, v));
            }
            v *= 2;
        }
    }
    let mut g = grid_with(4, &vals);
    let p = spawn(&mut g).unwrap();
    assert_eq!(p, Position { x: 2, y: 1 });
    assert_eq!(g.tile_at(p).unwrap(), Tile { pos: p, value: 2 });
    assert_eq!(g.tiles().len(), 16);
}

#[test]
fn spawn_on_full_board_does_nothing() {
    let mut g = stuck_board();
    assert!(spawn(&mut g).is_none());
    assert_eq!(g.tiles().len(), 16);
}

#[test]
fn spawned_tile_lands_in_bounds_on_empty_cell() {
    let mut g = GridState::new(4);
    let occupied_before = g.occupied_positions();
    assert!(occupied_before.is_empty());
    let p = spawn(&mut g).unwrap();
    assert!(p.x < 4 && p.y < 4);
    assert_eq!(g.tiles().len(), 1);
}

#[test]
fn legal_move_exists_with_empty_cell() {
    let g = grid_with(4, &[(0, 0, 2)]);
    assert!(has_legal_move(&g));
    assert!(has_legal_move(&GridState::new(4)));
}

#[test]
fn legal_move_exists_on_full_board_with_adjacent_pair() {
    let mut g = stuck_board();
    // overwrite two vertical neighbours with the same value
    g.clear();
    let mut v: u32 = 2;
    for y in 0..4u8 {
        for x in 0..4u8 {
            let w = if (x, y) == (1, 2) { 64 } else { v };
            g.insert(Position { x, y }, w);
            v *= 2;
        }
    }
    assert!(has_legal_move(&g));
}

#[test]
fn no_legal_move_on_full_distinct_board() {
    assert!(!has_legal_move(&stuck_board()));
}

#[test]
fn stuck_board_move_ends_the_session() {
    let mut s = Session {
        grid: stuck_board(),
        score: 10,
        score_best: 10,
        state: RunState::Playing,
    };
    let o = s.handle_move(BoardShift::Left).unwrap();
    assert!(!o.changed);
    assert!(o.spawned.is_none());
    assert!(o.game_over);
    assert_eq!(s.state, RunState::GameOver);
}

#[test]
fn new_game_spawns_two_minimum_tiles() {
    let s = Session::new(4);
    let tiles = s.grid.tiles();
    assert_eq!(tiles.len(), 2);
    assert!(tiles.iter().all(|t| t.value == 2));
    assert_ne!(tiles[0].pos, tiles[1].pos);
    assert_eq!(s.score, 0);
    assert_eq!(s.score_best, 0);
    assert_eq!(s.state, RunState::Playing);
}

#[test]
fn new_game_resets_score_but_keeps_best() {
    let mut s = Session {
        grid: grid_with(4, &[(0, 0, 2), (1, 0, 2)]),
        score: 40,
        score_best: 120,
        state: RunState::GameOver,
    };
    s.new_game();
    assert_eq!(s.score, 0);
    assert_eq!(s.score_best, 120);
    assert_eq!(s.state, RunState::Playing);
    assert_eq!(s.grid.tiles().len(), 2);
}

#[test]
fn end_game_keeps_board_and_scores() {
    let mut s = Session {
        grid: grid_with(4, &[(0, 0, 2)]),
        score: 4,
        score_best: 8,
        state: RunState::Playing,
    };
    s.end_game();
    assert_eq!(s.state, RunState::GameOver);
    assert_eq!(s.score, 4);
    assert_eq!(s.score_best, 8);
    assert_eq!(s.grid.tiles().len(), 1);
}

#[test]
fn command_in_game_over_state_is_ignored() {
    let mut s = Session {
        grid: grid_with(4, &[(0, 0, 2), (1, 0, 2)]),
        score: 0,
        score_best: 0,
        state: RunState::GameOver,
    };
    let o = s.handle_move(BoardShift::Left).unwrap();
    assert!(!o.changed);
    assert_eq!(o.score_delta, 0);
    assert!(o.spawned.is_none());
    assert!(o.game_over);
    assert_eq!(tiles_of(&s.grid), vec![(0, 0, 2), (1, 0, 2)]);
}

#[test]
fn move_updates_score_and_best_and_spawns() {
    let mut s = Session {
        grid: grid_with(4, &[(0, 0, 2), (1, 0, 2)]),
        score: 0,
        score_best: 0,
        state: RunState::Playing,
    };
    let o = s.handle_move(BoardShift::Left).unwrap();
    assert!(o.changed);
    assert_eq!(o.score_delta, 4);
    assert_eq!(s.score, 4);
    assert_eq!(s.score_best, 4);
    assert!(o.spawned.is_some());
    assert_eq!(s.grid.tiles().len(), 2);
    assert!(!o.game_over);
}

#[test]
fn best_score_never_decreases() {
    let mut s = Session {
        grid: grid_with(4, &[(0, 0, 2), (1, 0, 2)]),
        score: 0,
        score_best: 50,
        state: RunState::Playing,
    };
    let mut best = s.score_best;
    for dir in [BoardShift::Left, BoardShift::Right, BoardShift::Up, BoardShift::Down] {
        if s.handle_move(dir).is_ok() {
            assert!(s.score_best >= best);
            best = s.score_best;
        }
    }
    s.new_game();
    assert!(s.score_best >= best);
}

#[test]
fn no_op_move_spawns_nothing() {
    let mut s = Session {
        grid: grid_with(4, &[(0, 0, 2)]),
        score: 0,
        score_best: 0,
        state: RunState::Playing,
    };
    let o = s.handle_move(BoardShift::Left).unwrap();
    assert!(!o.changed);
    assert!(o.spawned.is_none());
    assert_eq!(s.grid.tiles().len(), 1);
    assert_eq!(s.score, 0);
}

#[test]
fn score_overflow_leaves_session_unchanged() {
    let mut s = Session {
        grid: grid_with(4, &[(0, 0, 2), (1, 0, 2)]),
        score: u32::MAX,
        score_best: u32::MAX,
        state: RunState::Playing,
    };
    let r = s.handle_move(BoardShift::Left);
    assert_eq!(r.unwrap_err(), EngineError::Overflow);
    assert_eq!(s.score, u32::MAX);
    assert_eq!(s.state, RunState::Playing);
    assert_eq!(tiles_of(&s.grid), vec![(0, 0, 2), (1, 0, 2)]);
}

#[test]
fn multi_row_merges_accumulate_score() {
    let g = grid_with(4, &[(0, 0, 2), (1, 0, 2), (0, 1, 4), (1, 1, 4)]);
    let r = apply(BoardShift::Left, &g).unwrap();
    assert_eq!(tiles_of(&r.grid), vec![(0, 0, 4), (0, 1, 8)]);
    assert_eq!(r.score_delta, 12);
}

#[test]
fn sort_visits_nearest_target_edge_first() {
    let a = Position { x: 0, y: 1 };
    let b = Position { x: 2, y: 1 };
    // leftward: smaller x first within a row
    assert_eq!(BoardShift::Left.sort(&a, &b), Ordering::Less);
    // rightward: larger x first
    assert_eq!(BoardShift::Right.sort(&a, &b), Ordering::Greater);
    // rows (y for horizontal shifts) dominate the comparison
    let c = Position { x: 3, y: 0 };
    assert_eq!(BoardShift::Left.sort(&c, &a), Ordering::Less);
    // upward: larger y first
    let d = Position { x: 1, y: 3 };
    let e = Position { x: 1, y: 0 };
    assert_eq!(BoardShift::Up.sort(&d, &e), Ordering::Less);
    // downward: smaller y first
    assert_eq!(BoardShift::Down.sort(&d, &e), Ordering::Greater);
    assert_eq!(BoardShift::Left.sort(&a, &a), Ordering::Equal);
}

#[test]
fn set_column_position_moves_along_motion_axis() {
    let mut p = Position { x: 2, y: 1 };
    BoardShift::Left.set_column_position(4, &mut p, 0);
    assert_eq!(p, Position { x: 0, y: 1 });
    BoardShift::Right.set_column_position(4, &mut p, 1);
    assert_eq!(p, Position { x: 2, y: 1 });
    BoardShift::Up.set_column_position(4, &mut p, 0);
    assert_eq!(p, Position { x: 2, y: 3 });
    BoardShift::Down.set_column_position(4, &mut p, 2);
    assert_eq!(p, Position { x: 2, y: 2 });
}

#[test]
fn get_row_position_is_the_orthogonal_coordinate() {
    let p = Position { x: 2, y: 3 };
    assert_eq!(BoardShift::Left.get_row_position(&p), 3);
    assert_eq!(BoardShift::Right.get_row_position(&p), 3);
    assert_eq!(BoardShift::Up.get_row_position(&p), 2);
    assert_eq!(BoardShift::Down.get_row_position(&p), 2);
}

#[test]
fn grid_tracks_inserts_and_clear() {
    let mut g = GridState::new(4);
    assert!(g.tile_at(Position { x: 1, y: 2 }).is_none());
    g.insert(Position { x: 1, y: 2 }, 8);
    assert_eq!(
        g.tile_at(Position { x: 1, y: 2 }),
        Some(Tile { pos: Position { x: 1, y: 2 }, value: 8 })
    );
    let occ = g.occupied_positions();
    assert_eq!(occ, vec![Position { x: 1, y: 2 }]);
    g.clear();
    assert!(g.tiles().is_empty());
    assert!(g.tile_at(Position { x: 1, y: 2 }).is_none());
}
