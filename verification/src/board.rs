//! The board: a bordered grid of optional cell markers, with line-clear
//! compaction and the game-over flattening pass.

use vstd::prelude::*;
use crate::cells::bv;
use crate::BOARD_W;
use crate::BOARD_H;

verus! {

broadcast use crate::cells::lemma_bv_len, crate::cells::lemma_bv_row;

/// The permanent wall cells: the two outer columns and the floor row.
pub open spec fn is_border(x: int, y: int) -> bool {
    x == 0 || x == BOARD_W - 1 || y == 0
}

/// The board has its full height and every row its full width.
pub open spec fn board_sized(b: Seq<Seq<Option<u8>>>) -> bool {
    &&& b.len() == BOARD_H
    &&& forall|y: int| 0 <= y < b.len() ==> (#[trigger] b[y]).len() == BOARD_W
}

/// A well-formed board: full size, and every border cell holds the wall
/// marker.
pub open spec fn bd_wf(b: Seq<Seq<Option<u8>>>) -> bool {
    &&& board_sized(b)
    &&& forall|x: int, y: int|
        0 <= x < BOARD_W && 0 <= y < BOARD_H && is_border(x, y) ==> #[trigger] b[y][x] == Some(
            0u8,
        )
}

/// A cell a falling piece may pass through or come to rest on.
pub open spec fn is_interior(x: int, y: int) -> bool {
    0 <= x < BOARD_W && 0 <= y < BOARD_H && !is_border(x, y)
}

/// The cell `(x, y)` exists and is empty.
pub open spec fn cell_free(b: Seq<Seq<Option<u8>>>, x: int, y: int) -> bool {
    &&& 0 <= x < BOARD_W
    &&& 0 <= y < BOARD_H
    &&& b[y][x] is None
}

/// Reads one cell.
pub fn get_cell(board: &Vec<Vec<Option<u8>>>, x: usize, y: usize) -> (r: Option<u8>)
    requires
        board_sized(bv(*board)),
        x < BOARD_W,
        y < BOARD_H,
    ensures
        r == bv(*board)[y as int][x as int],
{
    board[y][x]
}

/// Writes one cell.
pub fn set_cell(board: &mut Vec<Vec<Option<u8>>>, x: usize, y: usize, v: Option<u8>)
    requires
        board_sized(bv(*old(board))),
        x < BOARD_W,
        y < BOARD_H,
    ensures
        board_sized(bv(*final(board))),
        bv(*final(board))[y as int][x as int] == v,
        forall|j: int, i: int|
            0 <= j < BOARD_H && 0 <= i < BOARD_W && !(j == y && i == x)
                ==> #[trigger] bv(*final(board))[j][i] == bv(*old(board))[j][i],
        bv(*final(board)) == bv(*old(board)).update(
            y as int,
            bv(*old(board))[y as int].update(x as int, v),
        ),
{
    let row: &mut Vec<Option<u8>> = &mut board[y];
    row.set(x, v);
    proof {
        assert(bv(*board) =~~= bv(*old(board)).update(
            y as int,
            bv(*old(board))[y as int].update(x as int, v),
        ));
    }
}

/// A fresh board: walls on the border, every interior cell empty.
pub fn init_board() -> (r: Vec<Vec<Option<u8>>>)
    ensures
        bd_wf(bv(r)),
        forall|x: int, y: int| is_interior(x, y) ==> #[trigger] bv(r)[y][x] is None,
{
    let mut b: Vec<Vec<Option<u8>>> = Vec::new();
    for y in 0..BOARD_H
        invariant
            bv(b).len() == y,
            forall|j: int| 0 <= j < y ==> (#[trigger] bv(b)[j]).len() == BOARD_W,
            forall|j: int, i: int|
                0 <= j < y && 0 <= i < BOARD_W ==> (#[trigger] bv(b)[j][i]) == (if is_border(
                    i,
                    j,
                ) {
                    Some(0u8)
                } else {
                    None
                }),
    {
        let mut row: Vec<Option<u8>> = Vec::new();
        for x in 0..BOARD_W
            invariant
                row@.len() == x,
                forall|i: int|
                    0 <= i < x ==> (#[trigger] row@[i]) == (if is_border(i, y as int) {
                        Some(0u8)
                    } else {
                        None
                    }),
        {
            if x == 0 || x == BOARD_W - 1 || y == 0 {
                row.push(Some(0u8));
            } else {
                row.push(None);
            }
        }
        b.push(row);
    }
    b
}

/// Every cell of the row is occupied. With the walls in place this holds
/// exactly when every interior cell of the row is occupied.
pub open spec fn row_full(r: Seq<Option<u8>>) -> bool {
    forall|x: int| 0 <= x < r.len() ==> (#[trigger] r[x]) is Some
}

/// Whether row `y` is completely occupied.
pub fn is_row_full(board: &Vec<Vec<Option<u8>>>, y: usize) -> (r: bool)
    requires
        board_sized(bv(*board)),
        y < BOARD_H,
    ensures
        r == row_full(bv(*board)[y as int]),
{
    for x in 0..BOARD_W
        invariant
            board_sized(bv(*board)),
            y < BOARD_H,
            forall|i: int| 0 <= i < x ==> (#[trigger] bv(*board)[y as int][i]) is Some,
    {
        if board[y][x].is_none() {
            return false;
        }
    }
    true
}

/// The rows of `rows` that are not completely occupied, in order.
pub open spec fn keep_not_full(rows: Seq<Seq<Option<u8>>>) -> Seq<Seq<Option<u8>>>
    decreases rows.len(),
{
    if rows.len() == 0 {
        Seq::empty()
    } else if row_full(rows[0]) {
        keep_not_full(rows.drop_first())
    } else {
        seq![rows[0]] + keep_not_full(rows.drop_first())
    }
}

pub proof fn lemma_keep_not_full_len(rows: Seq<Seq<Option<u8>>>)
    ensures
        keep_not_full(rows).len() <= rows.len(),
    decreases rows.len(),
{
    if rows.len() > 0 {
        lemma_keep_not_full_len(rows.drop_first());
    }
}

/// Appending a row at the top either extends the kept rows or drops it.
pub proof fn lemma_keep_not_full_push(rows: Seq<Seq<Option<u8>>>, r: Seq<Option<u8>>)
    ensures
        keep_not_full(rows.push(r)) == if row_full(r) {
            keep_not_full(rows)
        } else {
            keep_not_full(rows).push(r)
        },
    decreases rows.len(),
{
    if rows.len() == 0 {
        assert(rows.push(r)[0] == r);
        assert(rows.push(r).drop_first() =~= Seq::<Seq<Option<u8>>>::empty());
        assert(keep_not_full(rows) =~= Seq::<Seq<Option<u8>>>::empty());
        if row_full(r) {
            assert(keep_not_full(rows.push(r)) == keep_not_full(Seq::<Seq<Option<u8>>>::empty()));
        } else {
            assert(keep_not_full(rows.push(r)) == seq![r] + keep_not_full(Seq::<Seq<
                Option<u8>,
            >>::empty()));
            assert(seq![r] + Seq::<Seq<Option<u8>>>::empty() =~= keep_not_full(rows).push(r));
        }
    } else {
        assert(rows.push(r)[0] == rows[0]);
        assert(rows.push(r).drop_first() =~= rows.drop_first().push(r));
        lemma_keep_not_full_push(rows.drop_first(), r);
        if row_full(rows[0]) {
            assert(keep_not_full(rows.push(r)) == keep_not_full(rows.drop_first().push(r)));
            assert(keep_not_full(rows) == keep_not_full(rows.drop_first()));
        } else {
            assert(keep_not_full(rows.push(r)) == seq![rows[0]] + keep_not_full(
                rows.drop_first().push(r),
            ));
            assert(keep_not_full(rows) == seq![rows[0]] + keep_not_full(rows.drop_first()));
            if !row_full(r) {
                assert(seq![rows[0]] + keep_not_full(rows.drop_first()).push(r) =~= (seq![rows[0]]
                    + keep_not_full(rows.drop_first())).push(r));
            }
        }
    }
}

/// Keeping the not-full rows distributes over concatenation.
pub proof fn lemma_keep_concat(s1: Seq<Seq<Option<u8>>>, s2: Seq<Seq<Option<u8>>>)
    ensures
        keep_not_full(s1 + s2) == keep_not_full(s1) + keep_not_full(s2),
    decreases s1.len(),
{
    if s1.len() == 0 {
        assert(s1 + s2 =~= s2);
        assert(keep_not_full(s1) =~= Seq::<Seq<Option<u8>>>::empty());
        assert(Seq::<Seq<Option<u8>>>::empty() + keep_not_full(s2) =~= keep_not_full(s2));
    } else {
        assert((s1 + s2).drop_first() =~= s1.drop_first() + s2);
        assert((s1 + s2)[0] == s1[0]);
        lemma_keep_concat(s1.drop_first(), s2);
        if !row_full(s1[0]) {
            assert(seq![s1[0]] + (keep_not_full(s1.drop_first()) + keep_not_full(s2)) =~= (seq![
                s1[0],
            ] + keep_not_full(s1.drop_first())) + keep_not_full(s2));
        }
    }
}

/// A run of rows none of which is full is kept whole.
pub proof fn lemma_keep_all(s: Seq<Seq<Option<u8>>>)
    requires
        forall|i: int| 0 <= i < s.len() ==> !row_full(#[trigger] s[i]),
    ensures
        keep_not_full(s) == s,
    decreases s.len(),
{
    if s.len() > 0 {
        lemma_keep_all(s.drop_first());
        assert(seq![s[0]] + s.drop_first() =~= s);
    }
}

/// One cleared line: when the rows below `y` are not full, row `y` is
/// full and the row above it is not, the contents of the row above
/// appear at index `y` after clearing.
pub proof fn lemma_line_clear_shift(b: Seq<Seq<Option<u8>>>, y: int)
    requires
        board_sized(b),
        1 <= y,
        y + 1 < 23,
        row_full(b[y]),
        !row_full(b[y + 1]),
        forall|j: int| 1 <= j < y ==> !row_full(#[trigger] b[j]),
    ensures
        spec_clear(b)[y] == b[y + 1],
{
    let s = b.subrange(1, 23);
    let pre = b.subrange(1, y);
    let rest = b.subrange(y, 23);
    assert(s =~= pre + rest);
    lemma_keep_concat(pre, rest);
    lemma_keep_all(pre);
    let rest2 = rest.drop_first();
    assert(rest2 =~= b.subrange(y + 1, 23));
    assert(rest[0] == b[y]);
    assert(keep_not_full(rest) == keep_not_full(rest2));
    assert(rest2[0] == b[y + 1]);
    assert(keep_not_full(rest2) == seq![b[y + 1]] + keep_not_full(rest2.drop_first()));
    let kept = keep_not_full(s);
    lemma_keep_not_full_len(s);
    assert(kept == pre + keep_not_full(rest2));
    assert(kept[y - 1] == keep_not_full(rest2)[0]);
    assert(spec_clear(b)[y] == kept[y - 1]);
}

/// A double clear: two stacked full rows collapse in one pass, so the
/// scan re-evaluates the same index and the row two above lands there.
pub proof fn lemma_double_line_clear(b: Seq<Seq<Option<u8>>>, y: int)
    requires
        board_sized(b),
        1 <= y,
        y + 2 < 23,
        row_full(b[y]),
        row_full(b[y + 1]),
        !row_full(b[y + 2]),
        forall|j: int| 1 <= j < y ==> !row_full(#[trigger] b[j]),
    ensures
        spec_clear(b)[y] == b[y + 2],
{
    let s = b.subrange(1, 23);
    let pre = b.subrange(1, y);
    let rest = b.subrange(y, 23);
    assert(s =~= pre + rest);
    lemma_keep_concat(pre, rest);
    lemma_keep_all(pre);
    let rest2 = rest.drop_first();
    let rest3 = rest2.drop_first();
    assert(rest2 =~= b.subrange(y + 1, 23));
    assert(rest3 =~= b.subrange(y + 2, 23));
    assert(rest[0] == b[y]);
    assert(rest2[0] == b[y + 1]);
    assert(rest3[0] == b[y + 2]);
    assert(keep_not_full(rest) == keep_not_full(rest2));
    assert(keep_not_full(rest2) == keep_not_full(rest3));
    assert(keep_not_full(rest3) == seq![b[y + 2]] + keep_not_full(rest3.drop_first()));
    let kept = keep_not_full(s);
    lemma_keep_not_full_len(s);
    assert(kept == pre + keep_not_full(rest3));
    assert(kept[y - 1] == keep_not_full(rest3)[0]);
    assert(spec_clear(b)[y] == kept[y - 1]);
}

/// Flattening preserves which cells are occupied, and gives every
/// occupied cell the one uniform marker.
pub proof fn lemma_flatten_occupancy(b: Seq<Seq<Option<u8>>>, x: int, y: int)
    requires
        0 <= y < b.len(),
        0 <= x < b[y].len(),
    ensures
        (flatten_view(b)[y][x] is Some) == (b[y][x] is Some),
        b[y][x] is Some ==> flatten_view(b)[y][x] == Some(0u8),
{
}

/// Every kept row is one of the scanned rows.
pub proof fn lemma_keep_not_full_rows(rows: Seq<Seq<Option<u8>>>)
    ensures
        forall|i: int|
            0 <= i < keep_not_full(rows).len() ==> exists|j: int|
                0 <= j < rows.len() && #[trigger] keep_not_full(rows)[i] == rows[j],
    decreases rows.len(),
{
    if rows.len() > 0 {
        let rest = rows.drop_first();
        lemma_keep_not_full_rows(rest);
        let k = keep_not_full(rows);
        assert forall|i: int| 0 <= i < k.len() implies exists|j: int|
            0 <= j < rows.len() && #[trigger] k[i] == rows[j] by {
            if row_full(rows[0]) {
                let j2 = choose|j: int| 0 <= j < rest.len() && keep_not_full(rest)[i] == rest[j];
                assert(rest[j2] == rows[j2 + 1]);
                assert(k[i] == rows[j2 + 1]);
            } else {
                if i == 0 {
                    assert(k[0] == rows[0]);
                } else {
                    assert(k[i] == keep_not_full(rest)[i - 1]);
                    let j2 = choose|j: int|
                        0 <= j < rest.len() && keep_not_full(rest)[i - 1] == rest[j];
                    assert(rest[j2] == rows[j2 + 1]);
                    assert(k[i] == rows[j2 + 1]);
                }
            }
        }
    }
}

/// Line clearing keeps the walls in place: every row of the result is a
/// row of the input board (or the floor row itself), so the border
/// columns stay walls, and the floor row is untouched.
pub proof fn lemma_clear_wf(b: Seq<Seq<Option<u8>>>)
    requires
        bd_wf(b),
    ensures
        bd_wf(spec_clear(b)),
{
    let scanned = b.subrange(1, 23);
    let kept = keep_not_full(scanned);
    lemma_keep_not_full_len(scanned);
    lemma_keep_not_full_rows(scanned);
    let res = spec_clear(b);
    assert(res.len() == BOARD_H);
    assert forall|y: int| 0 <= y < BOARD_H implies (#[trigger] res[y]).len() == BOARD_W && (y != 0
        ==> res[y][0] == Some(0u8) && res[y][BOARD_W - 1] == Some(0u8)) by {
        if y == 0 {
        } else if y < 1 + kept.len() {
            assert(res[y] == kept[y - 1]);
            let j = choose|j: int| 0 <= j < scanned.len() && kept[y - 1] == scanned[j];
            assert(scanned[j] == b[j + 1]);
        } else if y < 23 {
            assert(res[y] == b[23]);
        } else {
            assert(res[y] == b[y]);
        }
    }
    assert forall|x: int, y: int|
        0 <= x < BOARD_W && 0 <= y < BOARD_H && is_border(x, y) implies #[trigger] res[y][x]
        == Some(0u8) by {
        if y == 0 {
            assert(res[0] == b[0]);
        }
    }
}

/// Flattening keeps the walls in place.
pub proof fn lemma_flatten_wf(b: Seq<Seq<Option<u8>>>)
    requires
        bd_wf(b),
    ensures
        bd_wf(flatten_view(b)),
{
}

/// The board after line clearing: among the scanned rows (1 through 22)
/// the completely occupied ones are removed, the rest shift down, and the
/// vacated rows at the top are refilled with copies of row 23, exactly as
/// the repeated downward shift leaves them. The floor row and the two
/// rows above the scanned region keep their contents.
pub open spec fn spec_clear(b: Seq<Seq<Option<u8>>>) -> Seq<Seq<Option<u8>>> {
    let kept = keep_not_full(b.subrange(1, 23));
    let pad = Seq::new((22 - kept.len()) as nat, |i: int| b[23]);
    seq![b[0]] + kept + pad + seq![b[23], b[24]]
}

/// Copies row `src` onto row `dst`, cell by cell.
fn copy_row(board: &mut Vec<Vec<Option<u8>>>, dst: usize, src: usize)
    requires
        board_sized(bv(*old(board))),
        dst < BOARD_H,
        src < BOARD_H,
        dst != src,
    ensures
        board_sized(bv(*final(board))),
        bv(*final(board)) == bv(*old(board)).update(dst as int, bv(*old(board))[src as int]),
{
    for x in 0..BOARD_W
        invariant
            board_sized(bv(*board)),
            dst < BOARD_H,
            src < BOARD_H,
            dst != src,
            forall|j: int, i: int|
                0 <= j < BOARD_H && 0 <= i < BOARD_W && j != dst ==> #[trigger] bv(*board)[j][i]
                    == bv(*old(board))[j][i],
            forall|i: int|
                0 <= i < x ==> #[trigger] bv(*board)[dst as int][i] == bv(*old(
                    board,
                ))[src as int][i],
            forall|i: int|
                x <= i < BOARD_W ==> #[trigger] bv(*board)[dst as int][i] == bv(*old(
                    board,
                ))[dst as int][i],
    {
        let v: Option<u8> = board[src][x];
        set_cell(board, x, dst, v);
    }
    proof {
        assert(bv(*board)[dst as int] =~= bv(*old(board))[src as int]);
        assert(bv(*board) =~~= bv(*old(board)).update(dst as int, bv(*old(board))[src as int]));
    }
}

/// Removes every completely occupied row among rows 1 through 22,
/// shifting the rows above each downward; the scan does not advance past
/// an index until the row there is no longer full, so rows completed by a
/// shift are cleared in the same pass.
pub fn delete_line(board: &mut Vec<Vec<Option<u8>>>)
    requires
        board_sized(bv(*old(board))),
    ensures
        board_sized(bv(*final(board))),
        bv(*final(board)) == spec_clear(bv(*old(board))),
{
    let mut dst: usize = 1;
    let ghost b0 = bv(*old(board));
    for src in 1..23usize
        invariant
            board_sized(bv(*board)),
            1 <= dst <= src <= 23,
            keep_not_full(b0.subrange(1, src as int)) == bv(*board).subrange(1, dst as int),
            forall|j: int| (j == 0 || src <= j < BOARD_H) ==> #[trigger] bv(*board)[j] == b0[j],
            board_sized(b0),
    {
        proof {
            assert(b0.subrange(1, src as int + 1) =~= b0.subrange(1, src as int).push(
                b0[src as int],
            ));
            lemma_keep_not_full_push(b0.subrange(1, src as int), b0[src as int]);
            lemma_keep_not_full_len(b0.subrange(1, src as int));
        }
        if !is_row_full(board, src) {
            if dst != src {
                copy_row(board, dst, src);
            }
            proof {
                assert(bv(*board).subrange(1, dst as int + 1) =~= bv(*board).subrange(
                    1,
                    dst as int,
                ).push(bv(*board)[dst as int]));
            }
            dst = dst + 1;
        }
    }
    proof {
        lemma_keep_not_full_len(b0.subrange(1, 23));
    }
    let ghost kept = keep_not_full(b0.subrange(1, 23));
    let first_pad: usize = dst;
    for j in first_pad..23usize
        invariant
            board_sized(bv(*board)),
            1 <= first_pad <= j <= 23,
            bv(*board).subrange(1, first_pad as int) == kept,
            forall|i: int| first_pad <= i < j ==> #[trigger] bv(*board)[i] == b0[23],
            forall|i: int| (i == 0 || 23 <= i < BOARD_H) ==> #[trigger] bv(*board)[i] == b0[i],
            board_sized(b0),
    {
        copy_row(board, j, 23);
        proof {
            assert(bv(*board).subrange(1, first_pad as int) =~= kept);
        }
    }
    proof {
        let result = spec_clear(b0);
        assert forall|j: int| 0 <= j < BOARD_H implies bv(*board)[j] == result[j] by {
            if 1 <= j < first_pad {
                assert(bv(*board).subrange(1, first_pad as int)[j - 1] == bv(*board)[j]);
            }
        }
        assert(bv(*board) =~~= result);
    }
}

/// The board with every occupied cell reduced to the uniform wall marker.
pub open spec fn flatten_view(b: Seq<Seq<Option<u8>>>) -> Seq<Seq<Option<u8>>> {
    Seq::new(
        b.len(),
        |y: int|
            Seq::new(
                b[y].len(),
                |x: int|
                    if b[y][x] is Some {
                        Some(0u8)
                    } else {
                        None
                    },
            ),
    )
}

/// A drawable tile: the marker of an occupied visible cell together
/// with its tile coordinates, columns counted from the left wall and
/// rows flipped so row 1 of the board is the bottom tile row.
pub open spec fn tile_of(b: Seq<Seq<Option<u8>>>, e: (u8, usize, usize)) -> bool {
    &&& e.1 < BOARD_W - 2
    &&& e.2 < 20
    &&& b[20 - e.2][e.1 + 1] == Some(e.0)
}

/// Computes the tiles to draw: one entry for each occupied cell of the
/// visible region (rows 1 through 20, interior columns), carrying its
/// marker and tile coordinates.
pub fn render_cells(board: &Vec<Vec<Option<u8>>>) -> (v: Vec<(u8, usize, usize)>)
    requires
        board_sized(bv(*board)),
    ensures
        forall|k: int| 0 <= k < v@.len() ==> tile_of(bv(*board), #[trigger] v@[k]),
        forall|i: int, j: int|
            0 <= i < 20 && 0 <= j < BOARD_W - 2 && (#[trigger] bv(*board)[i + 1][j + 1]) is Some
                ==> exists|k: int|
                0 <= k < v@.len() && (#[trigger] v@[k]).1 == j && v@[k].2 == 19 - i,
{
    let mut v: Vec<(u8, usize, usize)> = Vec::new();
    for i in 0..20usize
        invariant
            board_sized(bv(*board)),
            forall|k: int| 0 <= k < v@.len() ==> tile_of(bv(*board), #[trigger] v@[k]),
            forall|i2: int, j2: int|
                0 <= i2 < i && 0 <= j2 < BOARD_W - 2 && (#[trigger] bv(*board)[i2 + 1][j2
                    + 1]) is Some ==> exists|k: int|
                    0 <= k < v@.len() && (#[trigger] v@[k]).1 == j2 && v@[k].2 == 19 - i2,
    {
        for j in 0..(BOARD_W - 2)
            invariant
                board_sized(bv(*board)),
                i < 20,
                forall|k: int| 0 <= k < v@.len() ==> tile_of(bv(*board), #[trigger] v@[k]),
                forall|i2: int, j2: int|
                    0 <= i2 < i && 0 <= j2 < BOARD_W - 2 && (#[trigger] bv(*board)[i2 + 1][j2
                        + 1]) is Some ==> exists|k: int|
                        0 <= k < v@.len() && (#[trigger] v@[k]).1 == j2 && v@[k].2 == 19 - i2,
                forall|j2: int|
                    0 <= j2 < j && (#[trigger] bv(*board)[i as int + 1][j2 + 1]) is Some
                        ==> exists|k: int|
                        0 <= k < v@.len() && (#[trigger] v@[k]).1 == j2 && v@[k].2 == 19 - (
                    i as int),
        {
            let ghost oldv = v@;
            let cell = board[i + 1][j + 1];
            if let Some(m) = cell {
                v.push((m, j, 19 - i));
                proof {
                    assert(v@[v@.len() - 1] == (m, j, (19 - i) as usize));
                    assert(tile_of(bv(*board), v@[v@.len() - 1]));
                }
            }
            proof {
                assert(forall|k: int| 0 <= k < oldv.len() ==> v@[k] == oldv[k]);
                assert forall|i2: int, j2: int|
                    0 <= i2 < i && 0 <= j2 < BOARD_W - 2 && (#[trigger] bv(*board)[i2 + 1][j2
                        + 1]) is Some implies exists|k: int|
                    0 <= k < v@.len() && (#[trigger] v@[k]).1 == j2 && v@[k].2 == 19 - i2 by {
                    let k0 = choose|k: int|
                        0 <= k < oldv.len() && (#[trigger] oldv[k]).1 == j2 && oldv[k].2 == 19
                            - i2;
                    assert(v@[k0].1 == j2 && v@[k0].2 == 19 - i2);
                }
                assert forall|j2: int|
                    0 <= j2 < j + 1 && (#[trigger] bv(*board)[i as int + 1][j2 + 1]) is Some
                    implies exists|k: int|
                    0 <= k < v@.len() && (#[trigger] v@[k]).1 == j2 && v@[k].2 == 19 - (
                i as int) by {
                    if j2 == j {
                        assert(v@[v@.len() - 1].1 == j2 && v@[v@.len() - 1].2 == 19 - (i as int));
                    } else {
                        let k0 = choose|k: int|
                            0 <= k < oldv.len() && (#[trigger] oldv[k]).1 == j2 && oldv[k].2 == 19
                                - (i as int);
                        assert(v@[k0].1 == j2 && v@[k0].2 == 19 - (i as int));
                    }
                }
            }
        }
        proof {
            assert forall|i2: int, j2: int|
                0 <= i2 < i + 1 && 0 <= j2 < BOARD_W - 2 && (#[trigger] bv(*board)[i2 + 1][j2
                    + 1]) is Some implies exists|k: int|
                0 <= k < v@.len() && (#[trigger] v@[k]).1 == j2 && v@[k].2 == 19 - i2 by {
                if i2 == i {
                }
            }
        }
    }
    v
}

/// Erases which shape occupies each cell while keeping which cells are
/// occupied: every occupied cell is overwritten with the wall marker.
pub fn flatten_board(board: &mut Vec<Vec<Option<u8>>>)
    requires
        board_sized(bv(*old(board))),
    ensures
        board_sized(bv(*final(board))),
        forall|j: int, i: int|
            0 <= j < BOARD_H && 0 <= i < BOARD_W ==> #[trigger] bv(*final(board))[j][i] == (if bv(
                *old(board),
            )[j][i] is Some {
                Some(0u8)
            } else {
                None
            }),
        bv(*final(board)) == flatten_view(bv(*old(board))),
{
    for y in 0..BOARD_H
        invariant
            board_sized(bv(*board)),
            forall|j: int, i: int|
                0 <= j < y && 0 <= i < BOARD_W ==> #[trigger] bv(*board)[j][i] == (if bv(
                    *old(board),
                )[j][i] is Some {
                    Some(0u8)
                } else {
                    None
                }),
            forall|j: int, i: int|
                y <= j < BOARD_H && 0 <= i < BOARD_W ==> #[trigger] bv(*board)[j][i] == bv(
                    *old(board),
                )[j][i],
    {
        for x in 0..BOARD_W
            invariant
                board_sized(bv(*board)),
                y < BOARD_H,
                forall|j: int, i: int|
                    0 <= j < y && 0 <= i < BOARD_W ==> #[trigger] bv(*board)[j][i] == (if bv(
                        *old(board),
                    )[j][i] is Some {
                        Some(0u8)
                    } else {
                        None
                    }),
                forall|i: int|
                    0 <= i < x ==> #[trigger] bv(*board)[y as int][i] == (if bv(
                        *old(board),
                    )[y as int][i] is Some {
                        Some(0u8)
                    } else {
                        None
                    }),
                forall|i: int|
                    x <= i < BOARD_W ==> #[trigger] bv(*board)[y as int][i] == bv(
                        *old(board),
                    )[y as int][i],
                forall|j: int, i: int|
                    y < j < BOARD_H && 0 <= i < BOARD_W ==> #[trigger] bv(*board)[j][i] == bv(
                        *old(board),
                    )[j][i],
        {
            if board[y][x].is_some() {
                set_cell(board, x, y, Some(0u8));
            }
        }
    }
    proof {
        assert(bv(*board) =~~= flatten_view(bv(*old(board))));
    }
}

} // verus!
