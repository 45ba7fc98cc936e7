use blockfall::board::delete_line;
use blockfall::board::flatten_board;
use blockfall::board::init_board;
use blockfall::board::is_row_full;
use blockfall::board::render_cells;

fn fill_row(board: &mut Vec<Vec<Option<u8>>>, y: usize, m: u8) {
    for x in 1..11 {
        board[y][x] = Some(m);
    }
}

#[test]
fn init_board_has_walls_and_empty_interior() {
    let board = init_board();
    assert_eq!(board.len(), 25);
    for y in 0..25 {
        assert_eq!(board[y].len(), 12);
        for x in 0..12 {
            if x == 0 || x == 11 || y == 0 {
                assert_eq!(board[y][x], Some(0));
            } else {
                assert_eq!(board[y][x], None);
            }
        }
    }
}

#[test]
fn row_fullness_is_detected() {
    let mut board = init_board();
    assert!(is_row_full(&board, 0));
    assert!(!is_row_full(&board, 1));
    fill_row(&mut board, 1, 5);
    assert!(is_row_full(&board, 1));
    board[1][7] = None;
    assert!(!is_row_full(&board, 1));
}

#[test]
fn single_line_clear_shifts_row_above_down() {
    let mut board = init_board();
    fill_row(&mut board, 1, 5);
    board[2][3] = Some(7);
    board[2][9] = Some(2);
    delete_line(&mut board);
    // The partially occupied row landed on the cleared index.
    assert_eq!(board[1][3], Some(7));
    assert_eq!(board[1][9], Some(2));
    for x in 1..11 {
        if x != 3 && x != 9 {
            assert_eq!(board[1][x], None);
        }
        assert_eq!(board[2][x], None);
    }
}

#[test]
fn double_line_clear_collapses_in_one_pass() {
    let mut board = init_board();
    fill_row(&mut board, 4, 5);
    fill_row(&mut board, 5, 6);
    board[6][2] = Some(3);
    delete_line(&mut board);
    // Both full rows vanished; the row two above landed at their index.
    assert_eq!(board[4][2], Some(3));
    for x in 1..11 {
        if x != 2 {
            assert_eq!(board[4][x], None);
        }
        assert_eq!(board[5][x], None);
        assert_eq!(board[6][x], None);
    }
}

#[test]
fn clear_leaves_lower_rows_in_place() {
    let mut board = init_board();
    board[1][4] = Some(9);
    fill_row(&mut board, 2, 5);
    board[3][8] = Some(6);
    delete_line(&mut board);
    assert_eq!(board[1][4], Some(9));
    assert_eq!(board[2][8], Some(6));
    assert_eq!(board[3][8], None);
}

#[test]
fn flatten_preserves_occupancy_with_uniform_marker() {
    let mut board = init_board();
    board[3][4] = Some(5);
    board[10][9] = Some(2);
    let before = board.clone();
    flatten_board(&mut board);
    for y in 0..25 {
        for x in 0..12 {
            assert_eq!(board[y][x].is_some(), before[y][x].is_some());
            if board[y][x].is_some() {
                assert_eq!(board[y][x], Some(0));
            }
        }
    }
}

#[test]
fn render_lists_visible_occupied_cells() {
    let mut board = init_board();
    // Column 5, row 20 is visible: tile column 4, tile row 0 (top).
    board[20][5] = Some(1);
    // Column 1, row 1 is visible: tile column 0, tile row 19 (bottom).
    board[1][1] = Some(7);
    // Row 21 is above the visible region.
    board[21][5] = Some(1);
    let mut v = render_cells(&board);
    v.sort();
    assert_eq!(v, vec![(1, 4, 0), (7, 0, 19)]);
}
