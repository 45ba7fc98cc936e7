use blockfall::board::init_board;
use blockfall::place::Status;
use blockfall::place::can_place;
use blockfall::place::delete_block;
use blockfall::place::put_block;
use blockfall::shapes::BlockType;
use blockfall::shapes::blocks_table;

fn occupied(board: &Vec<Vec<Option<u8>>>) -> Vec<(i32, i32, u8)> {
    let mut v = Vec::new();
    for y in 1..25 {
        for x in 1..11 {
            if let Some(m) = board[y][x] {
                v.push((x as i32, y as i32, m));
            }
        }
    }
    v
}

#[test]
fn i_piece_spawn_cells() {
    let blocks = blocks_table();
    let mut board = init_board();
    let st = Status::new(5, 21, BlockType::I, 0);
    assert!(put_block(&mut board, &blocks, &st).is_ok());
    let mut cells: Vec<(i32, i32)> = occupied(&board).iter().map(|&(x, y, _)| (x, y)).collect();
    cells.sort();
    assert_eq!(cells, vec![(5, 20), (5, 21), (5, 22), (5, 23)]);
    for &(_, _, m) in occupied(&board).iter() {
        assert_eq!(m, 1);
    }
}

#[test]
fn i_piece_rotated_once_cells() {
    let blocks = blocks_table();
    let mut board = init_board();
    let st = Status::new(5, 21, BlockType::I, 1);
    assert!(put_block(&mut board, &blocks, &st).is_ok());
    let mut cells: Vec<(i32, i32)> = occupied(&board).iter().map(|&(x, y, _)| (x, y)).collect();
    cells.sort();
    assert_eq!(cells, vec![(3, 21), (4, 21), (5, 21), (6, 21)]);
}

#[test]
fn rotation_by_symmetry_order_repeats_footprint() {
    let blocks = blocks_table();
    // I has order 2, T has order 4, O has order 1.
    for &(t, order) in &[(BlockType::I, 2usize), (BlockType::T, 4), (BlockType::O, 1)] {
        for r in 0..4usize {
            let mut b1 = init_board();
            let mut b2 = init_board();
            put_block(&mut b1, &blocks, &Status::new(5, 10, t, r)).unwrap();
            put_block(&mut b2, &blocks, &Status::new(5, 10, t, r + order)).unwrap();
            assert_eq!(b1, b2);
        }
    }
}

#[test]
fn collision_fails_exactly_on_overlap_and_keeps_board() {
    let blocks = blocks_table();
    let mut board = init_board();
    // A lone obstacle at (5, 20).
    board[20][5] = Some(3);
    let before = board.clone();
    // I at (5, 21) covers (5, 20): must collide, board untouched.
    let st = Status::new(5, 21, BlockType::I, 0);
    assert!(!can_place(&board, &blocks, &st));
    assert!(put_block(&mut board, &blocks, &st).is_err());
    assert_eq!(board, before);
    // One column over it no longer overlaps anything.
    let st2 = Status::new(6, 21, BlockType::I, 0);
    assert!(can_place(&board, &blocks, &st2));
    assert!(put_block(&mut board, &blocks, &st2).is_ok());
}

#[test]
fn wall_collision_uses_same_check() {
    let blocks = blocks_table();
    let mut board = init_board();
    // Anchor on the left wall collides with the border itself.
    let st = Status::new(0, 10, BlockType::T, 0);
    assert!(!can_place(&board, &blocks, &st));
    assert!(put_block(&mut board, &blocks, &st).is_err());
    // Floor row collides too.
    let st2 = Status::new(5, 0, BlockType::T, 0);
    assert!(put_block(&mut board, &blocks, &st2).is_err());
}

#[test]
fn delete_block_clears_exactly_the_footprint() {
    let blocks = blocks_table();
    let mut board = init_board();
    board[10][8] = Some(4);
    let st = Status::new(3, 5, BlockType::Z, 0);
    put_block(&mut board, &blocks, &st).unwrap();
    delete_block(&mut board, &blocks, &st);
    let cells = occupied(&board);
    assert_eq!(cells, vec![(8, 10, 4)]);
}
