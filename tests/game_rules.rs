use crows_tetris::game::{CrowsTetris, GamePhase};
use crows_tetris::piece::{canonical_mask, PieceKind};

fn anchor(g: &CrowsTetris) -> (i32, i32) {
    g.active().as_ref().unwrap().anchor
}

fn board_snapshot(g: &CrowsTetris) -> Vec<Vec<bool>> {
    let b = g.board();
    (0..b.height() as i64)
        .map(|y| (0..b.width() as i64).map(|x| b.is_occupied(x, y)).collect())
        .collect()
}

#[test]
fn new_game_waits_to_start() {
    let g = CrowsTetris::new(10, 4);
    assert_eq!(g.phase(), GamePhase::NotStarted);
    assert_eq!(g.score(), 0);
    assert!(g.active().is_none());
}

#[test]
fn moves_and_ticks_do_nothing_before_start() {
    let mut g = CrowsTetris::new(10, 4);
    assert!(!g.try_move(1, 0));
    assert!(!g.rotate_block());
    g.move_block_down_with(PieceKind::I);
    assert_eq!(g.phase(), GamePhase::NotStarted);
    assert!(g.active().is_none());
}

#[test]
fn spawn_o_on_ten_wide_board_is_centred() {
    let mut g = CrowsTetris::new(10, 4);
    g.reset_game_with(PieceKind::O);
    assert_eq!(g.phase(), GamePhase::Playing);
    let p = g.active().as_ref().unwrap();
    assert_eq!(p.kind, PieceKind::O);
    assert_eq!(p.anchor, (4, 0));
    assert_eq!(p.shape, canonical_mask(PieceKind::O));
}

#[test]
fn spawn_i_and_t_columns() {
    let mut g = CrowsTetris::new(10, 20);
    g.reset_game_with(PieceKind::I);
    assert_eq!(anchor(&g), (3, 0));
    let mut g = CrowsTetris::new(40, 21);
    g.reset_game_with(PieceKind::T);
    assert_eq!(anchor(&g), (19, 0));
}

#[test]
fn start_draws_a_piece() {
    let mut g = CrowsTetris::new(10, 20);
    g.reset_game();
    assert_eq!(g.phase(), GamePhase::Playing);
    let p = g.active().as_ref().unwrap();
    assert_eq!(p.shape, canonical_mask(p.kind));
    assert_eq!(p.anchor.1, 0);
}

#[test]
fn try_move_stops_at_walls() {
    let mut g = CrowsTetris::new(10, 4);
    g.reset_game_with(PieceKind::O);
    assert!(g.try_move(-1, 0));
    assert_eq!(anchor(&g), (3, 0));
    assert!(g.try_move(-3, 0));
    assert_eq!(anchor(&g), (0, 0));
    assert!(!g.try_move(-1, 0));
    assert_eq!(anchor(&g), (0, 0));
    assert!(g.try_move(8, 0));
    assert!(!g.try_move(1, 0));
    assert!(g.try_move(0, 2));
    assert!(!g.try_move(0, 1));
    assert_eq!(anchor(&g), (8, 2));
}

#[test]
fn tick_moves_piece_down_one_row() {
    let mut g = CrowsTetris::new(10, 4);
    g.reset_game_with(PieceKind::O);
    g.move_block_down_with(PieceKind::T);
    assert_eq!(anchor(&g), (4, 1));
    assert_eq!(g.active().as_ref().unwrap().kind, PieceKind::O);
    assert_eq!(g.score(), 0);
}

#[test]
fn blocked_fall_locks_and_respawns() {
    // An I piece resting on the floor at (0, H-1): the step down would put
    // cells at y = H, so it locks instead of moving.
    let mut g = CrowsTetris::new(10, 4);
    g.reset_game_with(PieceKind::I);
    assert!(g.try_move(-3, 0));
    assert!(g.try_move(0, 3));
    assert_eq!(anchor(&g), (0, 3));
    assert!(!g.try_move(0, 1));
    assert_eq!(anchor(&g), (0, 3));
    g.move_block_down_with(PieceKind::O);
    let rows = board_snapshot(&g);
    assert_eq!(
        rows[3],
        vec![true, true, true, true, false, false, false, false, false, false]
    );
    assert!(rows[0..3].iter().all(|r| r.iter().all(|c| !c)));
    assert_eq!(g.score(), 0);
    assert_eq!(g.phase(), GamePhase::Playing);
    let p = g.active().as_ref().unwrap();
    assert_eq!(p.kind, PieceKind::O);
    assert_eq!(p.anchor, (4, 0));
}

#[test]
fn filled_bottom_row_scores_and_clears() {
    let mut g = CrowsTetris::new(8, 4);
    g.reset_game_with(PieceKind::I);
    assert!(g.try_move(-2, 0));
    assert!(g.try_move(0, 3));
    g.move_block_down_with(PieceKind::I);
    assert_eq!(anchor(&g), (2, 0));
    assert!(g.try_move(2, 0));
    for _ in 0..3 {
        g.move_block_down_with(PieceKind::O);
    }
    assert_eq!(anchor(&g), (4, 3));
    g.move_block_down_with(PieceKind::O);
    assert_eq!(g.score(), 100);
    assert!(board_snapshot(&g).iter().all(|r| r.iter().all(|c| !c)));
    assert_eq!(g.active().as_ref().unwrap().kind, PieceKind::O);
}

#[test]
fn two_rows_cleared_at_once_score_two_bonuses() {
    let mut g = CrowsTetris::new(4, 4);
    g.reset_game_with(PieceKind::O);
    assert_eq!(anchor(&g), (1, 0));
    assert!(g.try_move(-1, 2));
    g.move_block_down_with(PieceKind::O);
    assert!(g.try_move(1, 2));
    g.move_block_down_with(PieceKind::T);
    assert_eq!(g.score(), 200);
    assert!(board_snapshot(&g).iter().all(|r| r.iter().all(|c| !c)));
}

#[test]
fn rotation_is_rejected_where_it_would_collide() {
    let mut g = CrowsTetris::new(10, 3);
    g.reset_game_with(PieceKind::I);
    // Upright the I piece needs four rows; the board has three.
    assert!(!g.rotate_block());
    assert_eq!(g.active().as_ref().unwrap().shape, canonical_mask(PieceKind::I));
    let mut g = CrowsTetris::new(10, 4);
    g.reset_game_with(PieceKind::I);
    assert!(g.rotate_block());
    assert_eq!(
        g.active().as_ref().unwrap().shape,
        vec![vec![true], vec![true], vec![true], vec![true]]
    );
    assert_eq!(anchor(&g), (3, 0));
}

#[test]
fn four_rotations_of_active_piece_restore_it() {
    let mut g = CrowsTetris::new(10, 20);
    g.reset_game_with(PieceKind::S);
    for _ in 0..4 {
        assert!(g.rotate_block());
    }
    assert_eq!(g.active().as_ref().unwrap().shape, canonical_mask(PieceKind::S));
}

fn game_over_on_five_wide() -> CrowsTetris {
    let mut g = CrowsTetris::new(5, 2);
    g.reset_game_with(PieceKind::I);
    assert_eq!(anchor(&g), (0, 0));
    g.move_block_down_with(PieceKind::I);
    assert_eq!(anchor(&g), (0, 1));
    g.move_block_down_with(PieceKind::I);
    assert_eq!(g.phase(), GamePhase::Playing);
    g.move_block_down_with(PieceKind::I);
    g
}

#[test]
fn spawn_collision_ends_the_game() {
    let g = game_over_on_five_wide();
    assert_eq!(g.phase(), GamePhase::Over);
    assert!(g.active().is_none());
}

#[test]
fn nothing_changes_once_over() {
    let mut g = game_over_on_five_wide();
    let rows = board_snapshot(&g);
    let score = g.score();
    for _ in 0..5 {
        g.move_block_down_with(PieceKind::O);
        g.move_block_down();
        assert!(!g.try_move(0, 1));
        assert!(!g.try_move(-1, 0));
        assert!(!g.rotate_block());
        assert!(g.tick_if_due(10, 5));
    }
    assert_eq!(g.phase(), GamePhase::Over);
    assert_eq!(g.score(), score);
    assert_eq!(board_snapshot(&g), rows);
    assert!(g.active().is_none());
}

#[test]
fn restart_after_game_over_resets() {
    let mut g = game_over_on_five_wide();
    g.reset_game_with(PieceKind::O);
    assert_eq!(g.phase(), GamePhase::Playing);
    assert_eq!(g.score(), 0);
    assert!(board_snapshot(&g).iter().all(|r| r.iter().all(|c| !c)));
    assert_eq!(anchor(&g), (1, 0));
}

#[test]
fn gravity_waits_for_the_interval() {
    let mut g = CrowsTetris::new(10, 20);
    g.reset_game_with(PieceKind::O);
    assert!(!g.tick_if_due(124, 125));
    assert_eq!(anchor(&g), (4, 0));
    assert!(g.tick_if_due(125, 125));
    assert_eq!(anchor(&g), (4, 1));
}

#[test]
fn collision_check_uses_the_falling_piece() {
    let mut g = CrowsTetris::new(10, 4);
    assert!(!g.check_collision_with_position((-5, 0)));
    g.reset_game_with(PieceKind::O);
    assert!(!g.check_collision_with_position((0, 2)));
    assert!(g.check_collision_with_position((0, 3)));
    assert!(g.check_collision_with_position((-1, 0)));
    assert!(g.check_collision_with_position((9, 0)));
    assert!(!g.check_collision_with_position((8, -1)));
}

#[test]
fn lock_block_copies_cells_and_discards_piece() {
    let mut g = CrowsTetris::new(10, 4);
    g.reset_game_with(PieceKind::T);
    assert_eq!(anchor(&g), (4, 0));
    g.lock_block();
    assert!(g.active().is_none());
    let rows = board_snapshot(&g);
    assert_eq!(rows[0], vec![false, false, false, false, false, true, false, false, false, false]);
    assert_eq!(rows[1], vec![false, false, false, false, true, true, true, false, false, false]);
    assert!(!rows[2].iter().any(|c| *c));
}

#[test]
fn clear_lines_scores_each_row() {
    let mut g = CrowsTetris::new(2, 3);
    g.reset_game_with(PieceKind::O);
    assert!(g.try_move(0, 1));
    g.lock_block();
    assert_eq!(g.clear_lines(), 2);
    assert_eq!(g.score(), 200);
    assert_eq!(g.clear_lines(), 0);
    assert_eq!(g.score(), 200);
    g.spawn_with(PieceKind::O);
    assert_eq!(g.phase(), GamePhase::Playing);
    assert_eq!(anchor(&g), (0, 0));
}

#[test]
fn grid_with_block_overlays_the_falling_piece() {
    let mut g = CrowsTetris::new(6, 3);
    assert_eq!(g.grid_with_block(), vec![vec![false; 6]; 3]);
    g.reset_game_with(PieceKind::S);
    assert_eq!(anchor(&g), (2, 0));
    assert!(g.try_move(0, 1));
    g.move_block_down_with(PieceKind::I);
    // The S piece settled on rows 1 and 2; the I piece falls on row 0.
    assert_eq!(
        g.grid_with_block(),
        vec![
            vec![false, true, true, true, true, false],
            vec![false, false, false, true, true, false],
            vec![false, false, true, true, false, false],
        ]
    );
    assert_eq!(board_snapshot(&g)[0], vec![false; 6]);
}

#[test]
fn grid_with_block_skips_cells_above_the_top() {
    let mut g = CrowsTetris::new(4, 4);
    g.reset_game_with(PieceKind::O);
    assert!(g.try_move(0, -1));
    assert_eq!(anchor(&g), (1, -1));
    let rows = g.grid_with_block();
    assert_eq!(rows.len(), 4);
    assert_eq!(rows[0], vec![false, true, true, false]);
    assert!(rows[1..].iter().all(|r| r.iter().all(|c| !c)));
}
