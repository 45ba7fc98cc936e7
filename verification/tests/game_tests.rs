use blockfall::board::init_board;
use blockfall::game::Game;
use blockfall::game::block_down_with;
use blockfall::game::spawn_piece;
use blockfall::game::spawn_random;
use blockfall::game::tick;
use blockfall::game::user_input_proceed;
use blockfall::place::Status;
use blockfall::place::put_block;
use blockfall::shapes::BlockType;
use blockfall::shapes::blocks_table;

fn new_game() -> Game {
    Game::new(blocks_table(), init_board())
}

fn piece_cells_of(board: &Vec<Vec<Option<u8>>>, m: u8) -> Vec<(i32, i32)> {
    let mut v = Vec::new();
    for y in 1..25 {
        for x in 1..11 {
            if board[y][x] == Some(m) {
                v.push((x as i32, y as i32));
            }
        }
    }
    v.sort();
    v
}

#[test]
fn game_new_has_default_initial_status() {
    let g = new_game();
    assert!(!g.game_over);
    assert_eq!(g.status.x, 6);
    assert_eq!(g.status.y, 11);
    assert_eq!(g.status.rotate, 2);
    assert_eq!(g.status.counter, 0);
}

#[test]
fn spawn_places_piece_at_fixed_coordinates() {
    let mut g = new_game();
    assert!(spawn_piece(&mut g, BlockType::I));
    assert_eq!(g.status.x, 5);
    assert_eq!(g.status.y, 21);
    assert_eq!(g.status.rotate, 0);
    assert_eq!(piece_cells_of(&g.board, 1), vec![(5, 20), (5, 21), (5, 22), (5, 23)]);
}

#[test]
fn spawn_random_places_some_playable_piece() {
    let mut g = new_game();
    assert!(spawn_random(&mut g));
    assert_eq!(g.status.x, 5);
    assert_eq!(g.status.y, 21);
    assert_eq!(g.status.rotate, 0);
    // The drawn type is one of the seven playable shapes.
    assert!(!matches!(g.status.block_type, BlockType::B));
}

#[test]
fn user_input_applies_one_delta_with_priority() {
    let mut s = Status::new(5, 10, BlockType::T, 0);
    user_input_proceed(&mut s, true, true, true);
    assert_eq!(s.x, 4);
    let mut s = Status::new(5, 10, BlockType::T, 0);
    user_input_proceed(&mut s, false, true, true);
    assert_eq!(s.x, 6);
    let mut s = Status::new(5, 10, BlockType::T, 0);
    s.counter = 7;
    user_input_proceed(&mut s, false, false, true);
    assert_eq!(s.counter, 0);
    assert_eq!(s.x, 5);
}

#[test]
fn gravity_tick_moves_piece_down() {
    let mut g = new_game();
    assert!(spawn_piece(&mut g, BlockType::I));
    // Counter 0: gravity applies on this tick.
    tick(&mut g, 0, false, false, false);
    assert_eq!(g.status.y, 20);
    assert_eq!(g.status.counter, 1);
    assert_eq!(piece_cells_of(&g.board, 1), vec![(5, 19), (5, 20), (5, 21), (5, 22)]);
    // Counter 1: no gravity, no lateral input sampled on odd counters.
    tick(&mut g, 0, false, true, false);
    assert_eq!(g.status.y, 20);
    assert_eq!(g.status.x, 5);
    assert_eq!(g.status.counter, 2);
}

#[test]
fn lateral_tick_moves_piece_right() {
    let mut g = new_game();
    assert!(spawn_piece(&mut g, BlockType::I));
    tick(&mut g, 0, false, true, false);
    // Right was sampled (counter 0 is even) and gravity applied together.
    assert_eq!(g.status.x, 6);
    assert_eq!(g.status.y, 20);
    assert_eq!(piece_cells_of(&g.board, 1), vec![(6, 19), (6, 20), (6, 21), (6, 22)]);
}

#[test]
fn rotation_tick_turns_piece() {
    let mut g = new_game();
    assert!(spawn_piece(&mut g, BlockType::I));
    tick(&mut g, 1, false, false, false);
    assert_eq!(g.status.rotate, 1);
    assert_eq!(g.status.y, 20);
    assert_eq!(piece_cells_of(&g.board, 1), vec![(3, 20), (4, 20), (5, 20), (6, 20)]);
}

#[test]
fn blocked_lateral_move_is_reverted_but_gravity_kept() {
    let mut g = new_game();
    let st = Status::new(1, 10, BlockType::I, 0);
    put_block(&mut g.board, &g.blocks, &st).unwrap();
    g.status = st;
    // Left would hit the wall column; the move reverts, gravity still runs.
    tick(&mut g, 0, true, false, false);
    assert_eq!(g.status.x, 1);
    assert_eq!(g.status.y, 9);
    assert_eq!(piece_cells_of(&g.board, 1), vec![(1, 8), (1, 9), (1, 10), (1, 11)]);
}

#[test]
fn lock_restores_position_and_respawns() {
    let mut g = new_game();
    let st = Status::new(2, 2, BlockType::I, 0);
    put_block(&mut g.board, &g.blocks, &st).unwrap();
    g.status = st;
    // A gravity step to y == 1 would cross the floor: the piece locks.
    let cand = Status::new(2, 1, BlockType::I, 0);
    block_down_with(&mut g, &cand, BlockType::O);
    assert!(!g.game_over);
    // The prior committed position was restored exactly.
    assert_eq!(piece_cells_of(&g.board, 1), vec![(2, 1), (2, 2), (2, 3), (2, 4)]);
    // The fresh piece spawned at the fixed coordinates with rotation 0.
    assert_eq!(g.status.x, 5);
    assert_eq!(g.status.y, 21);
    assert_eq!(g.status.rotate, 0);
    assert_eq!(g.status.counter, 0);
    assert!(matches!(g.status.block_type, BlockType::O));
    assert_eq!(piece_cells_of(&g.board, 2), vec![(5, 21), (5, 22), (6, 21), (6, 22)]);
}

#[test]
fn lock_clears_completed_row() {
    let mut g = new_game();
    for x in 1..11 {
        g.board[1][x] = Some(3);
    }
    let st = Status::new(2, 3, BlockType::I, 0);
    put_block(&mut g.board, &g.blocks, &st).unwrap();
    g.status = st;
    let cand = Status::new(2, 2, BlockType::I, 0);
    block_down_with(&mut g, &cand, BlockType::T);
    assert!(!g.game_over);
    // The full bottom row vanished, so the locked piece shifted down one.
    assert_eq!(piece_cells_of(&g.board, 1), vec![(2, 1), (2, 2), (2, 3), (2, 4)]);
    assert_eq!(piece_cells_of(&g.board, 3), Vec::<(i32, i32)>::new());
}

#[test]
fn blocked_respawn_triggers_game_over_with_flattening() {
    let mut g = new_game();
    let st = Status::new(5, 21, BlockType::I, 0);
    put_block(&mut g.board, &g.blocks, &st).unwrap();
    g.status = st;
    // Gravity fails against an obstacle just below the piece.
    g.board[19][5] = Some(4);
    let cand = Status::new(5, 20, BlockType::I, 0);
    block_down_with(&mut g, &cand, BlockType::O);
    // The fresh O overlaps the restored I: terminal state.
    assert!(g.game_over);
    assert_eq!(g.status.x, 5);
    assert_eq!(g.status.y, 21);
    // Occupancy is preserved but every occupied cell is flattened.
    let mut expect = vec![(5, 19), (5, 20), (5, 21), (5, 22), (5, 23)];
    expect.sort();
    assert_eq!(piece_cells_of(&g.board, 0), expect);
    assert_eq!(piece_cells_of(&g.board, 1), Vec::<(i32, i32)>::new());
}

#[test]
fn finished_game_ignores_ticks() {
    let mut g = new_game();
    g.game_over = true;
    let status_before = g.status;
    let board_before = g.board.clone();
    tick(&mut g, 3, true, false, true);
    assert_eq!(g.status, status_before);
    assert_eq!(g.board, board_before);
    assert!(g.game_over);
}
