//! The placement engine: the absolute cells a piece occupies, the
//! collision check, and the mutators that stamp a piece onto the board or
//! erase it again.

use vstd::prelude::*;
use crate::cells::bv;
use crate::board::board_sized;
use crate::board::bd_wf;
use crate::board::cell_free;
use crate::board::is_interior;
use crate::shapes::Block;
use crate::shapes::BlockType;
use crate::shapes::blocks_wf;
use crate::shapes::index_of;
use crate::shapes::marker_of;
use crate::shapes::pos_view;
use crate::shapes::rot;
use crate::shapes::spec_marker;
use crate::shapes::spec_offsets;
use crate::shapes::spec_order;
use crate::shapes::lemma_offsets_bounded;
use crate::shapes::Position;

verus! {

broadcast use crate::cells::lemma_bv_len, crate::cells::lemma_bv_row;

/// The falling piece: anchor position, shape, rotation index, and the
/// per-tick counter that gates gravity and input cadence.
#[derive(Debug, Clone, Copy, PartialEq, Eq, Structural)]
pub struct Status {
    pub x: i32,
    pub y: i32,
    pub block_type: BlockType,
    pub rotate: usize,
    pub counter: usize,
}

impl Status {
    pub fn new(x: i32, y: i32, block_type: BlockType, rotate: usize) -> (r: Self)
        ensures
            r.x == x,
            r.y == y,
            r.block_type == block_type,
            r.rotate == rotate,
            r.counter == 0,
    {
        Self { x, y, block_type, rotate, counter: 0 }
    }
}

/// The absolute cells of a shape anchored at `(x, y)` under effective
/// rotation `e`: the anchor itself plus each offset turned `e` quarter
/// turns.
pub open spec fn cells_at(t: BlockType, x: int, y: int, e: nat) -> Seq<(int, int)> {
    seq![(x, y)] + spec_offsets(t).map(
        |i: int, off: (int, int)| (x + rot(off, e).0, y + rot(off, e).1),
    )
}

/// The absolute cells occupied by a piece: the effective rotation is the
/// rotation index reduced modulo the shape's symmetry order.
pub open spec fn spec_cells(t: BlockType, x: int, y: int, rotate: nat) -> Seq<(int, int)> {
    cells_at(t, x, y, rotate % spec_order(t))
}

/// The absolute cells of a piece in a given status.
pub open spec fn status_cells(st: Status) -> Seq<(int, int)> {
    spec_cells(st.block_type, st.x as int, st.y as int, st.rotate as nat)
}

/// The piece covers cell `(x, y)`.
pub open spec fn covers(st: Status, x: int, y: int) -> bool {
    status_cells(st).contains((x, y))
}

/// Every absolute cell of the piece is free on the board.
pub open spec fn fits(b: Seq<Seq<Option<u8>>>, st: Status) -> bool {
    forall|i: int|
        0 <= i < status_cells(st).len() ==> cell_free(
            b,
            (#[trigger] status_cells(st)[i]).0,
            status_cells(st)[i].1,
        )
}

/// Every absolute cell of the piece lies strictly inside the walls.
pub open spec fn footprint_interior(st: Status) -> bool {
    forall|i: int|
        0 <= i < status_cells(st).len() ==> is_interior(
            (#[trigger] status_cells(st)[i]).0,
            status_cells(st)[i].1,
        )
}

/// The anchor is far enough from the integer limits that offset cells can
/// be computed.
pub open spec fn anchor_in_range(st: Status) -> bool {
    &&& i32::MIN + 4 < st.x < i32::MAX - 4
    &&& i32::MIN + 4 < st.y < i32::MAX - 4
}

/// The board with the piece's marker written into every covered cell.
pub open spec fn stamp(b: Seq<Seq<Option<u8>>>, st: Status) -> Seq<Seq<Option<u8>>> {
    Seq::new(
        b.len(),
        |y: int|
            Seq::new(
                b[y].len(),
                |x: int|
                    if covers(st, x, y) {
                        Some(spec_marker(st.block_type))
                    } else {
                        b[y][x]
                    },
            ),
    )
}

/// The board with every covered cell emptied.
pub open spec fn erase(b: Seq<Seq<Option<u8>>>, st: Status) -> Seq<Seq<Option<u8>>> {
    Seq::new(
        b.len(),
        |y: int|
            Seq::new(
                b[y].len(),
                |x: int|
                    if covers(st, x, y) {
                        None
                    } else {
                        b[y][x]
                    },
            ),
    )
}

/// A piece that fits on a well-formed board touches no wall cell: free
/// cells are empty, wall cells never are.
pub proof fn lemma_fits_interior(b: Seq<Seq<Option<u8>>>, st: Status)
    requires
        bd_wf(b),
        fits(b, st),
    ensures
        footprint_interior(st),
{
    assert forall|i: int| 0 <= i < status_cells(st).len() implies is_interior(
        (#[trigger] status_cells(st)[i]).0,
        status_cells(st)[i].1,
    ) by {
        let c = status_cells(st)[i];
        assert(cell_free(b, c.0, c.1));
    }
}

/// Rotation is a finite cyclic group per shape, of order 1, 2 or 4:
/// advancing the rotation index by the shape's symmetry order leaves
/// every absolute cell of the piece unchanged.
pub proof fn lemma_rotation_symmetry_order(t: BlockType, x: int, y: int, r: nat)
    ensures
        spec_cells(t, x, y, r + spec_order(t)) == spec_cells(t, x, y, r),
{
    let k = spec_order(t) as int;
    assert(k >= 1);
    vstd::arithmetic::div_mod::lemma_mod_multiples_vanish(1, r as int, k);
    assert(k * 1 + r == r + k) by (nonlinear_arith);
    assert((r + k) % k == r as int % k);
}

/// Reducing the rotation index modulo 4 never changes the footprint,
/// since every symmetry order divides 4; the controller may therefore
/// store the index reduced.
pub proof fn lemma_rotation_mod4(t: BlockType, x: int, y: int, r: nat)
    ensures
        spec_cells(t, x, y, (r % 4) as nat) == spec_cells(t, x, y, r),
{
    let k = spec_order(t) as int;
    let q = 4int / k;
    assert(k * q == 4);
    vstd::arithmetic::div_mod::lemma_mod_mod(r as int, k, q);
    assert((r as int % 4) % k == r as int % k);
}

/// Every cell of the piece on the board holds the piece's marker.
pub open spec fn piece_on_board(b: Seq<Seq<Option<u8>>>, st: Status) -> bool {
    forall|i: int|
        0 <= i < status_cells(st).len() ==> b[(#[trigger] status_cells(st)[i]).1][status_cells(
            st,
        )[i].0] == Some(spec_marker(st.block_type))
}

/// A piece occupies exactly four cells: its anchor and three offsets.
pub proof fn lemma_cells_len(st: Status)
    ensures
        status_cells(st).len() == 4,
        status_cells(st)[0] == (st.x as int, st.y as int),
{
    lemma_offsets_bounded(st.block_type);
}

/// The anchor of a piece whose footprint is interior is itself interior,
/// and in particular far from the integer limits.
pub proof fn lemma_interior_anchor(st: Status)
    requires
        footprint_interior(st),
    ensures
        1 <= st.x < crate::BOARD_W - 1,
        1 <= st.y < crate::BOARD_H,
        anchor_in_range(st),
{
    lemma_cells_len(st);
    assert(is_interior(status_cells(st)[0].0, status_cells(st)[0].1));
}

/// A covered cell of an interior footprint is interior.
pub proof fn lemma_cover_interior(st: Status, x: int, y: int)
    requires
        footprint_interior(st),
        covers(st, x, y),
    ensures
        is_interior(x, y),
{
    let i = choose|i: int| 0 <= i < status_cells(st).len() && status_cells(st)[i] == (x, y);
    assert(is_interior(status_cells(st)[i].0, status_cells(st)[i].1));
}

/// Erasing an interior footprint touches no wall cell.
pub proof fn lemma_erase_wf(b: Seq<Seq<Option<u8>>>, st: Status)
    requires
        bd_wf(b),
        footprint_interior(st),
    ensures
        bd_wf(erase(b, st)),
{
    assert forall|x: int, y: int|
        0 <= x < crate::BOARD_W && 0 <= y < crate::BOARD_H && crate::board::is_border(x, y)
        implies #[trigger] erase(b, st)[y][x] == Some(0u8) by {
        if covers(st, x, y) {
            lemma_cover_interior(st, x, y);
        }
    }
}

/// Stamping an interior footprint touches no wall cell.
pub proof fn lemma_stamp_wf(b: Seq<Seq<Option<u8>>>, st: Status)
    requires
        bd_wf(b),
        footprint_interior(st),
    ensures
        bd_wf(stamp(b, st)),
{
    assert forall|x: int, y: int|
        0 <= x < crate::BOARD_W && 0 <= y < crate::BOARD_H && crate::board::is_border(x, y)
        implies #[trigger] stamp(b, st)[y][x] == Some(0u8) by {
        if covers(st, x, y) {
            lemma_cover_interior(st, x, y);
        }
    }
}

/// After stamping, every cell of the piece holds its marker.
pub proof fn lemma_stamp_on_board(b: Seq<Seq<Option<u8>>>, st: Status)
    requires
        board_sized(b),
        footprint_interior(st),
    ensures
        piece_on_board(stamp(b, st), st),
{
    assert forall|i: int| 0 <= i < status_cells(st).len() implies stamp(b, st)[(
    #[trigger] status_cells(st)[i]).1][status_cells(st)[i].0] == Some(spec_marker(st.block_type)) by {
        let c = status_cells(st)[i];
        assert(is_interior(c.0, c.1));
        assert(covers(st, c.0, c.1));
    }
}

/// Erasing a committed piece and stamping it back restores the board
/// exactly.
pub proof fn lemma_restore(b: Seq<Seq<Option<u8>>>, st: Status)
    requires
        board_sized(b),
        piece_on_board(b, st),
        footprint_interior(st),
    ensures
        stamp(erase(b, st), st) == b,
{
    assert forall|y: int| 0 <= y < b.len() implies stamp(erase(b, st), st)[y] == b[y] by {
        assert forall|x: int| 0 <= x < b[y].len() implies stamp(erase(b, st), st)[y][x]
            == b[y][x] by {
            if covers(st, x, y) {
                let i = choose|i: int|
                    0 <= i < status_cells(st).len() && status_cells(st)[i] == (x, y);
                assert(b[(status_cells(st)[i]).1][status_cells(st)[i].0] == Some(
                    spec_marker(st.block_type),
                ));
            }
        }
        assert(stamp(erase(b, st), st)[y] =~= b[y]);
    }
    assert(stamp(erase(b, st), st) =~= b);
}

/// A piece with an interior footprint fits on the board from which it was
/// just erased.
pub proof fn lemma_erased_fits(b: Seq<Seq<Option<u8>>>, st: Status)
    requires
        board_sized(b),
        footprint_interior(st),
    ensures
        fits(erase(b, st), st),
{
    assert forall|i: int| 0 <= i < status_cells(st).len() implies cell_free(
        erase(b, st),
        (#[trigger] status_cells(st)[i]).0,
        status_cells(st)[i].1,
    ) by {
        let c = status_cells(st)[i];
        assert(is_interior(c.0, c.1));
        assert(covers(st, c.0, c.1));
    }
}

/// Turns an offset by `r` quarter turns.
fn rotated(p: Position, r: usize) -> (q: Position)
    requires
        r <= 3,
        -2 <= p.x <= 2,
        -2 <= p.y <= 2,
    ensures
        (q.x as int, q.y as int) == rot(pos_view(p), r as nat),
        -2 <= q.x <= 2,
        -2 <= q.y <= 2,
{
    let mut dx: i32 = p.x;
    let mut dy: i32 = p.y;
    let mut k: usize = 0;
    while k < r
        invariant
            k <= r,
            -2 <= dx <= 2,
            -2 <= dy <= 2,
            (dx as int, dy as int) == rot(pos_view(p), k as nat),
        decreases r - k,
    {
        let t: i32 = dx;
        dx = -dy;
        dy = t;
        k = k + 1;
    }
    Position::new(dx, dy)
}

/// Computes the four absolute cells of a piece.
pub fn piece_cells(blocks: &Vec<Block>, st: &Status) -> (v: Vec<(i32, i32)>)
    requires
        blocks_wf(blocks@),
        anchor_in_range(*st),
    ensures
        v@.len() == 4,
        status_cells(*st).len() == 4,
        forall|i: int|
            0 <= i < 4 ==> ((#[trigger] v@[i]).0 as int, v@[i].1 as int) == status_cells(*st)[i],
{
    let idx = index_of(st.block_type);
    let block = &blocks[idx];
    let r = st.rotate % block.rotate;
    let ghost t = st.block_type;
    let ghost e = (st.rotate as nat) % spec_order(t);
    proof {
        assert(block.rotate == spec_order(t));
        assert(r == e);
        lemma_offsets_bounded(t);
        assert(block.p@.map_values(|q: Position| pos_view(q)) == spec_offsets(t));
        assert(block.p@.len() == 3);
    }
    let mut v: Vec<(i32, i32)> = Vec::new();
    v.push((st.x, st.y));
    proof {
        assert(status_cells(*st) == cells_at(t, st.x as int, st.y as int, e));
        assert(status_cells(*st).len() == 4);
        assert(status_cells(*st)[0] == (st.x as int, st.y as int));
    }
    let mut j: usize = 0;
    while j < 3
        invariant
            j <= 3,
            v@.len() == j + 1,
            blocks_wf(blocks@),
            anchor_in_range(*st),
            block.rotate == spec_order(t),
            t == st.block_type,
            r == e,
            r <= 3,
            e == (st.rotate as nat) % spec_order(t),
            block.p@.map_values(|q: Position| pos_view(q)) == spec_offsets(t),
            block.p@.len() == 3,
            forall|i: int|
                0 <= i < v@.len() ==> ((#[trigger] v@[i]).0 as int, v@[i].1 as int)
                    == status_cells(*st)[i],
        decreases 3 - j,
    {
        let off = block.p[j];
        proof {
            assert(spec_offsets(t)[j as int] == pos_view(block.p@[j as int]));
            lemma_offsets_bounded(t);
        }
        let q = rotated(off, r);
        proof {
            assert(status_cells(*st)[j + 1] == (st.x as int + rot(pos_view(off), e).0, st.y as int
                + rot(pos_view(off), e).1));
        }
        v.push((st.x + q.x, st.y + q.y));
        j = j + 1;
    }
    v
}

/// Whether the piece can be placed: true exactly when every one of its
/// absolute cells exists and is empty. Never mutates the board.
pub fn can_place(board: &Vec<Vec<Option<u8>>>, blocks: &Vec<Block>, st: &Status) -> (r: bool)
    requires
        board_sized(bv(*board)),
        blocks_wf(blocks@),
        anchor_in_range(*st),
    ensures
        r == fits(bv(*board), *st),
{
    let v = piece_cells(blocks, st);
    let mut i: usize = 0;
    while i < 4
        invariant
            i <= 4,
            board_sized(bv(*board)),
            v@.len() == 4,
            status_cells(*st).len() == 4,
            forall|k: int|
                0 <= k < 4 ==> ((#[trigger] v@[k]).0 as int, v@[k].1 as int) == status_cells(
                    *st,
                )[k],
            forall|k: int|
                0 <= k < i ==> cell_free(
                    bv(*board),
                    (#[trigger] status_cells(*st)[k]).0,
                    status_cells(*st)[k].1,
                ),
        decreases 4 - i,
    {
        let (cx, cy) = v[i];
        if cx < 0 || cx >= (crate::BOARD_W as i32) || cy < 0 || cy >= (crate::BOARD_H as i32) {
            proof {
                assert(!cell_free(bv(*board), status_cells(*st)[i as int].0, status_cells(*st)[i as int].1));
            }
            return false;
        }
        if board[cy as usize][cx as usize].is_some() {
            proof {
                assert(!cell_free(bv(*board), status_cells(*st)[i as int].0, status_cells(*st)[i as int].1));
            }
            return false;
        }
        i = i + 1;
    }
    true
}

/// Tries to place the piece. On success every absolute cell of the piece
/// is stamped with the shape's marker; on collision the board is left
/// untouched. Fails exactly when some absolute cell is not free.
pub fn put_block(board: &mut Vec<Vec<Option<u8>>>, blocks: &Vec<Block>, st: &Status) -> (r: Result<
    (),
    (),
>)
    requires
        board_sized(bv(*old(board))),
        blocks_wf(blocks@),
        anchor_in_range(*st),
    ensures
        board_sized(bv(*final(board))),
        r is Ok <==> fits(bv(*old(board)), *st),
        r is Err ==> bv(*final(board)) == bv(*old(board)),
        r is Ok ==> forall|x: int, y: int|
            0 <= x < crate::BOARD_W && 0 <= y < crate::BOARD_H ==> #[trigger] bv(
                *final(board),
            )[y][x] == (if covers(*st, x, y) {
                Some(spec_marker(st.block_type))
            } else {
                bv(*old(board))[y][x]
            }),
        r is Ok ==> bv(*final(board)) == stamp(bv(*old(board)), *st),
{
    if !can_place(board, blocks, st) {
        return Err(());
    }
    let m = marker_of(st.block_type);
    let v = piece_cells(blocks, st);
    let mut i: usize = 0;
    while i < 4
        invariant
            i <= 4,
            board_sized(bv(*board)),
            blocks_wf(blocks@),
            fits(bv(*old(board)), *st),
            m == spec_marker(st.block_type),
            v@.len() == 4,
            status_cells(*st).len() == 4,
            forall|k: int|
                0 <= k < 4 ==> ((#[trigger] v@[k]).0 as int, v@[k].1 as int) == status_cells(
                    *st,
                )[k],
            forall|x: int, y: int|
                0 <= x < crate::BOARD_W && 0 <= y < crate::BOARD_H ==> #[trigger] bv(*board)[y][x]
                    == (if (exists|k: int| 0 <= k < i && status_cells(*st)[k] == (x, y)) {
                    Some(spec_marker(st.block_type))
                } else {
                    bv(*old(board))[y][x]
                }),
        decreases 4 - i,
    {
        let (cx, cy) = v[i];
        proof {
            assert(cell_free(bv(*old(board)), status_cells(*st)[i as int].0, status_cells(*st)[i as int].1));
        }
        crate::board::set_cell(board, cx as usize, cy as usize, Some(m));
        proof {
            assert forall|x: int, y: int|
                0 <= x < crate::BOARD_W && 0 <= y < crate::BOARD_H implies #[trigger] bv(
                *board,
            )[y][x] == (if (exists|k: int| 0 <= k < i + 1 && status_cells(*st)[k] == (x, y)) {
                Some(spec_marker(st.block_type))
            } else {
                bv(*old(board))[y][x]
            }) by {
                if (x, y) == status_cells(*st)[i as int] {
                    assert(exists|k: int| 0 <= k < i + 1 && status_cells(*st)[k] == (x, y));
                } else if (exists|k: int| 0 <= k < i && status_cells(*st)[k] == (x, y)) {
                } else {
                }
            }
        }
        i = i + 1;
    }
    proof {
        assert forall|x: int, y: int| 0 <= x < crate::BOARD_W && 0 <= y < crate::BOARD_H implies
            #[trigger] bv(*board)[y][x] == (if covers(*st, x, y) {
            Some(spec_marker(st.block_type))
        } else {
            bv(*old(board))[y][x]
        }) by {
            if covers(*st, x, y) {
                let k = choose|k: int| 0 <= k < status_cells(*st).len() && status_cells(*st)[k] == (
                    x,
                    y,
                );
                assert(exists|k2: int| 0 <= k2 < 4 && status_cells(*st)[k2] == (x, y));
            }
        }
        assert(bv(*board) =~~= stamp(bv(*old(board)), *st));
    }
    Ok(())
}

/// Erases the piece's absolute cells from the board. The footprint must
/// lie strictly inside the walls, so no wall cell is ever emptied.
pub fn delete_block(board: &mut Vec<Vec<Option<u8>>>, blocks: &Vec<Block>, st: &Status)
    requires
        board_sized(bv(*old(board))),
        blocks_wf(blocks@),
        anchor_in_range(*st),
        footprint_interior(*st),
    ensures
        board_sized(bv(*final(board))),
        forall|x: int, y: int|
            0 <= x < crate::BOARD_W && 0 <= y < crate::BOARD_H ==> #[trigger] bv(
                *final(board),
            )[y][x] == (if covers(*st, x, y) {
                None
            } else {
                bv(*old(board))[y][x]
            }),
        bv(*final(board)) == erase(bv(*old(board)), *st),
{
    let v = piece_cells(blocks, st);
    let mut i: usize = 0;
    while i < 4
        invariant
            i <= 4,
            board_sized(bv(*board)),
            footprint_interior(*st),
            v@.len() == 4,
            status_cells(*st).len() == 4,
            forall|k: int|
                0 <= k < 4 ==> ((#[trigger] v@[k]).0 as int, v@[k].1 as int) == status_cells(
                    *st,
                )[k],
            forall|x: int, y: int|
                0 <= x < crate::BOARD_W && 0 <= y < crate::BOARD_H ==> #[trigger] bv(*board)[y][x]
                    == (if (exists|k: int| 0 <= k < i && status_cells(*st)[k] == (x, y)) {
                    None
                } else {
                    bv(*old(board))[y][x]
                }),
        decreases 4 - i,
    {
        let (cx, cy) = v[i];
        proof {
            assert(is_interior(status_cells(*st)[i as int].0, status_cells(*st)[i as int].1));
        }
        crate::board::set_cell(board, cx as usize, cy as usize, None);
        proof {
            assert forall|x: int, y: int|
                0 <= x < crate::BOARD_W && 0 <= y < crate::BOARD_H implies #[trigger] bv(
                *board,
            )[y][x] == (if (exists|k: int| 0 <= k < i + 1 && status_cells(*st)[k] == (x, y)) {
                None
            } else {
                bv(*old(board))[y][x]
            }) by {
                if (x, y) == status_cells(*st)[i as int] {
                    assert(exists|k: int| 0 <= k < i + 1 && status_cells(*st)[k] == (x, y));
                }
            }
        }
        i = i + 1;
    }
    proof {
        assert forall|x: int, y: int| 0 <= x < crate::BOARD_W && 0 <= y < crate::BOARD_H implies
            #[trigger] bv(*board)[y][x] == (if covers(*st, x, y) {
            None
        } else {
            bv(*old(board))[y][x]
        }) by {
            if covers(*st, x, y) {
                let k = choose|k: int| 0 <= k < status_cells(*st).len() && status_cells(*st)[k] == (
                    x,
                    y,
                );
                assert(exists|k2: int| 0 <= k2 < 4 && status_cells(*st)[k2] == (x, y));
            }
        }
        assert(bv(*board) =~~= erase(bv(*old(board)), *st));
    }
}

} // verus!
