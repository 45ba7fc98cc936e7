use blockfall::shapes::Block;
use blockfall::shapes::BlockType;
use blockfall::shapes::Position;
use blockfall::shapes::blocks_table;

#[test]
fn from_usize_maps_all_types() {
    assert!(matches!(BlockType::from_usize(0), Some(BlockType::B)));
    assert!(matches!(BlockType::from_usize(1), Some(BlockType::I)));
    assert!(matches!(BlockType::from_usize(2), Some(BlockType::O)));
    assert!(matches!(BlockType::from_usize(3), Some(BlockType::Z)));
    assert!(matches!(BlockType::from_usize(4), Some(BlockType::T)));
    assert!(matches!(BlockType::from_usize(5), Some(BlockType::L)));
    assert!(matches!(BlockType::from_usize(6), Some(BlockType::S)));
    assert!(matches!(BlockType::from_usize(7), Some(BlockType::J)));
    assert!(BlockType::from_usize(8).is_none());
    assert!(BlockType::from_usize(usize::MAX).is_none());
}

#[test]
fn table_has_declared_orders() {
    let t = blocks_table();
    assert_eq!(t.len(), 8);
    let orders: Vec<usize> = t.iter().map(|b| b.rotate).collect();
    assert_eq!(orders, vec![1, 2, 1, 2, 4, 4, 2, 4]);
}

#[test]
fn table_holds_i_offsets() {
    let t = blocks_table();
    let i = &t[1];
    let offs: Vec<(i32, i32)> = i.p.iter().map(|p| (p.x, p.y)).collect();
    assert_eq!(offs, vec![(0, -1), (0, 1), (0, 2)]);
}

#[test]
fn position_and_block_constructors() {
    let p = Position::new(-1, 2);
    assert_eq!(p.x, -1);
    assert_eq!(p.y, 2);
    let b = Block::new(4, vec![Position::new(0, 1)]);
    assert_eq!(b.rotate, 4);
    assert_eq!(b.p.len(), 1);
    assert_eq!(b.p[0].x, 0);
    assert_eq!(b.p[0].y, 1);
}
