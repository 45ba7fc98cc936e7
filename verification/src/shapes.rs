//! The shape table: each block type's occupied offsets and its rotational
//! symmetry order, plus the quarter-turn rotation transform.

use vstd::prelude::*;

verus! {

/// The eight block variants: `B` is the wall/blank sentinel, the other
/// seven are the playable pieces.
#[derive(Debug, Clone, Copy, PartialEq, Eq, Structural)]
pub enum BlockType {
    B,
    I,
    O,
    Z,
    T,
    J,
    S,
    L,
}

/// A cell offset relative to a piece's anchor cell.
#[derive(Debug, Clone, Copy, PartialEq, Eq, Structural)]
pub struct Position {
    pub x: i32,
    pub y: i32,
}

/// One shape: its rotational symmetry order and the offsets it occupies
/// besides the anchor cell itself.
#[derive(Clone)]
pub struct Block {
    pub rotate: usize,
    pub p: Vec<Position>,
}

impl BlockType {
    /// Maps a small integer to a block type; `None` above 7.
    pub fn from_usize(n: usize) -> (r: Option<Self>)
        ensures
            r == spec_from_usize(n as int),
    {
        match n {
            0 => Some(Self::B),
            1 => Some(Self::I),
            2 => Some(Self::O),
            3 => Some(Self::Z),
            4 => Some(Self::T),
            5 => Some(Self::L),
            6 => Some(Self::S),
            7 => Some(Self::J),
            _ => None,
        }
    }
}

pub open spec fn spec_from_usize(n: int) -> Option<BlockType> {
    if n == 0 {
        Some(BlockType::B)
    } else if n == 1 {
        Some(BlockType::I)
    } else if n == 2 {
        Some(BlockType::O)
    } else if n == 3 {
        Some(BlockType::Z)
    } else if n == 4 {
        Some(BlockType::T)
    } else if n == 5 {
        Some(BlockType::L)
    } else if n == 6 {
        Some(BlockType::S)
    } else if n == 7 {
        Some(BlockType::J)
    } else {
        None
    }
}

impl Position {
    pub fn new(x: i32, y: i32) -> (r: Self)
        ensures
            r.x == x,
            r.y == y,
    {
        Self { x, y }
    }
}

impl Block {
    pub fn new(rotate: usize, p: Vec<Position>) -> (r: Self)
        ensures
            r.rotate == rotate,
            r.p == p,
    {
        Self { rotate, p }
    }
}

/// The position of a block type in the shape table; also the cell marker
/// written to the board for that type, and the tile row in the atlas.
/// The three mappings are declared separately even though they coincide.
pub open spec fn shape_index(t: BlockType) -> int {
    match t {
        BlockType::B => 0,
        BlockType::I => 1,
        BlockType::O => 2,
        BlockType::Z => 3,
        BlockType::T => 4,
        BlockType::J => 5,
        BlockType::S => 6,
        BlockType::L => 7,
    }
}

/// The marker stamped into a board cell occupied by a piece of type `t`.
pub open spec fn spec_marker(t: BlockType) -> u8 {
    shape_index(t) as u8
}

/// The number of distinct rotations of a shape before its footprint repeats.
pub open spec fn spec_order(t: BlockType) -> nat {
    match t {
        BlockType::B => 1,
        BlockType::I => 2,
        BlockType::O => 1,
        BlockType::Z => 2,
        BlockType::T => 4,
        BlockType::J => 4,
        BlockType::S => 2,
        BlockType::L => 4,
    }
}

/// The offsets a shape occupies besides its anchor cell.
pub open spec fn spec_offsets(t: BlockType) -> Seq<(int, int)> {
    match t {
        BlockType::B => seq![(0int, 0int), (0int, 0int), (0int, 0int)],
        BlockType::I => seq![(0int, -1int), (0int, 1int), (0int, 2int)],
        BlockType::O => seq![(0int, 1int), (1int, 0int), (1int, 1int)],
        BlockType::Z => seq![(0int, -1int), (1int, 0int), (1int, 1int)],
        BlockType::T => seq![(0int, -1int), (-1int, 0int), (1int, 0int)],
        BlockType::J => seq![(-1int, 0int), (1int, 0int), (1int, -1int)],
        BlockType::S => seq![(0int, 1int), (1int, 0int), (1int, -1int)],
        BlockType::L => seq![(1int, 0int), (-1int, 0int), (-1int, -1int)],
    }
}

/// One counter-clockwise quarter turn of an offset.
pub open spec fn rot_once(p: (int, int)) -> (int, int) {
    (-p.1, p.0)
}

/// `k` quarter turns of an offset.
pub open spec fn rot(p: (int, int), k: nat) -> (int, int)
    decreases k,
{
    if k == 0 {
        p
    } else {
        rot_once(rot(p, (k - 1) as nat))
    }
}

/// Four quarter turns return any offset to itself: the rotation transform
/// generates a cyclic group whose order divides 4.
pub proof fn lemma_rot_four(p: (int, int))
    ensures
        rot(p, 4) == p,
{
    reveal_with_fuel(rot, 5);
}

/// Every offset in the shape table lies within two cells of the anchor.
pub proof fn lemma_offsets_bounded(t: BlockType)
    ensures
        spec_offsets(t).len() == 3,
        forall|i: int|
            0 <= i < 3 ==> -2 <= (#[trigger] spec_offsets(t)[i]).0 <= 2 && -2 <= spec_offsets(
                t,
            )[i].1 <= 2,
{
    assert forall|i: int| 0 <= i < 3 implies -2 <= (#[trigger] spec_offsets(t)[i]).0 <= 2 && -2
        <= spec_offsets(t)[i].1 <= 2 by {
        match t {
            BlockType::B => {},
            BlockType::I => {},
            BlockType::O => {},
            BlockType::Z => {},
            BlockType::T => {},
            BlockType::J => {},
            BlockType::S => {},
            BlockType::L => {},
        }
    }
}

/// The table position of a block type, as executable code.
pub fn index_of(t: BlockType) -> (i: usize)
    ensures
        i == shape_index(t),
{
    match t {
        BlockType::B => 0,
        BlockType::I => 1,
        BlockType::O => 2,
        BlockType::Z => 3,
        BlockType::T => 4,
        BlockType::J => 5,
        BlockType::S => 6,
        BlockType::L => 7,
    }
}

/// The board marker of a block type, as executable code.
pub fn marker_of(t: BlockType) -> (m: u8)
    ensures
        m == spec_marker(t),
{
    match t {
        BlockType::B => 0,
        BlockType::I => 1,
        BlockType::O => 2,
        BlockType::Z => 3,
        BlockType::T => 4,
        BlockType::J => 5,
        BlockType::S => 6,
        BlockType::L => 7,
    }
}

pub open spec fn pos_view(p: Position) -> (int, int) {
    (p.x as int, p.y as int)
}

/// The table entry for `t` carries exactly the declared symmetry order and
/// offsets of `t`.
pub open spec fn block_wf(b: Block, t: BlockType) -> bool {
    &&& b.rotate == spec_order(t)
    &&& b.p@.map_values(|q: Position| pos_view(q)) == spec_offsets(t)
}

/// A complete, correct shape table.
pub open spec fn blocks_wf(bs: Seq<Block>) -> bool {
    &&& bs.len() == 8
    &&& block_wf(bs[0], BlockType::B)
    &&& block_wf(bs[1], BlockType::I)
    &&& block_wf(bs[2], BlockType::O)
    &&& block_wf(bs[3], BlockType::Z)
    &&& block_wf(bs[4], BlockType::T)
    &&& block_wf(bs[5], BlockType::J)
    &&& block_wf(bs[6], BlockType::S)
    &&& block_wf(bs[7], BlockType::L)
}

fn mk_block(rotate: usize, a: Position, b: Position, c: Position) -> (r: Block)
    ensures
        r.rotate == rotate,
        r.p@.map_values(|q: Position| pos_view(q)) == seq![
            pos_view(a),
            pos_view(b),
            pos_view(c),
        ],
{
    let mut v: Vec<Position> = Vec::new();
    v.push(a);
    v.push(b);
    v.push(c);
    proof {
        assert(v@.map_values(|q: Position| pos_view(q)) =~= seq![
            pos_view(a),
            pos_view(b),
            pos_view(c),
        ]);
    }
    Block::new(rotate, v)
}

/// Builds the shape table in its declared order.
pub fn blocks_table() -> (r: Vec<Block>)
    ensures
        blocks_wf(r@),
{
    let mut v: Vec<Block> = Vec::new();
    v.push(mk_block(1, Position::new(0, 0), Position::new(0, 0), Position::new(0, 0)));
    v.push(mk_block(2, Position::new(0, -1), Position::new(0, 1), Position::new(0, 2)));
    v.push(mk_block(1, Position::new(0, 1), Position::new(1, 0), Position::new(1, 1)));
    v.push(mk_block(2, Position::new(0, -1), Position::new(1, 0), Position::new(1, 1)));
    v.push(mk_block(4, Position::new(0, -1), Position::new(-1, 0), Position::new(1, 0)));
    v.push(mk_block(4, Position::new(-1, 0), Position::new(1, 0), Position::new(1, -1)));
    v.push(mk_block(2, Position::new(0, 1), Position::new(1, 0), Position::new(1, -1)));
    v.push(mk_block(4, Position::new(1, 0), Position::new(-1, 0), Position::new(-1, -1)));
    proof {
        assert(spec_offsets(BlockType::B) =~= seq![(0int, 0int), (0int, 0int), (0int, 0int)]);
    }
    v
}

} // verus!
