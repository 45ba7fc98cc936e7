//! The piece controller and game state: per-tick candidate evaluation,
//! the move and gravity branches, locking, respawn, and game over.

use vstd::prelude::*;
use crate::cells::bv;
use crate::board::bd_wf;
use crate::board::board_sized;
use crate::board::delete_line;
use crate::board::flatten_board;
use crate::board::flatten_view;
use crate::board::lemma_clear_wf;
use crate::board::lemma_flatten_wf;
use crate::board::spec_clear;
use crate::place::anchor_in_range;
use crate::place::delete_block;
use crate::place::erase;
use crate::place::fits;
use crate::place::footprint_interior;
use crate::place::lemma_erase_wf;
use crate::place::lemma_erased_fits;
use crate::place::lemma_fits_interior;
use crate::place::lemma_interior_anchor;
use crate::place::lemma_restore;
use crate::place::lemma_stamp_on_board;
use crate::place::lemma_stamp_wf;
use crate::place::piece_on_board;
use crate::place::put_block;
use crate::place::stamp;
use crate::place::status_cells;
use crate::place::Status;
use crate::shapes::Block;
use crate::shapes::blocks_wf;
use crate::shapes::BlockType;
use crate::TICK;

verus! {

broadcast use crate::cells::lemma_bv_len, crate::cells::lemma_bv_row;

/// The whole game state: the shape table, the board, the falling piece,
/// and the terminal flag.
pub struct Game {
    pub blocks: Vec<Block>,
    pub board: Vec<Vec<Option<u8>>>,
    pub status: Status,
    pub game_over: bool,
}

impl Game {
    pub fn new(blocks: Vec<Block>, board: Vec<Vec<Option<u8>>>) -> (r: Self)
        ensures
            r.blocks == blocks,
            r.board == board,
            r.game_over == false,
            r.status == (Status {
                x: 6,
                y: 11,
                block_type: BlockType::S,
                rotate: 2,
                counter: 0,
            }),
    {
        Self { blocks, board, status: Status::new(6, 11, BlockType::S, 2), game_over: false }
    }
}

/// The seven types that fall as pieces; the sentinel never does.
pub open spec fn playable(t: BlockType) -> bool {
    t != BlockType::B
}

/// A fresh piece: the fixed spawn anchor, rotation 0, counter 0.
pub open spec fn spawn_status(t: BlockType) -> Status {
    Status { x: 5, y: 21, block_type: t, rotate: 0, counter: 0 }
}

/// The game invariant: a correct shape table, a well-formed board, and —
/// while the game is live — a committed piece whose footprint lies
/// strictly inside the walls, is stamped on the board, and whose counter
/// and rotation index are kept reduced.
pub open spec fn game_wf(g: Game) -> bool {
    &&& blocks_wf(g.blocks@)
    &&& bd_wf(bv(g.board))
    &&& (!g.game_over ==> {
        &&& footprint_interior(g.status)
        &&& piece_on_board(bv(g.board), g.status)
        &&& g.status.counter < TICK
        &&& g.status.rotate < 4
    })
}

/// Border invariance: in a well-formed game state — and every operation
/// of this library yields one — each border cell holds the wall marker,
/// so no sequence of moves, locks or clears ever empties or overwrites
/// a wall.
pub proof fn lemma_border_walls(g: Game, x: int, y: int)
    requires
        game_wf(g),
        0 <= x < crate::BOARD_W,
        0 <= y < crate::BOARD_H,
        crate::board::is_border(x, y),
    ensures
        bv(g.board)[y][x] == Some(0u8),
{
}

/// The candidate after sampling held keys: left and right move the
/// anchor, down resets the tick counter; left wins over right, and
/// either wins over down.
pub open spec fn spec_user_input(st: Status, left: bool, right: bool, down: bool) -> Status {
    if left {
        Status { x: (st.x - 1) as i32, ..st }
    } else if right {
        Status { x: (st.x + 1) as i32, ..st }
    } else if down {
        Status { counter: 0, ..st }
    } else {
        st
    }
}

/// Applies the held-key deltas to the candidate status.
pub fn user_input_proceed(current: &mut Status, left: bool, right: bool, down: bool)
    requires
        i32::MIN < old(current).x < i32::MAX,
    ensures
        *final(current) == spec_user_input(*old(current), left, right, down),
{
    if left {
        *current = Status { x: current.x - 1, ..*current };
    } else if right {
        *current = Status { x: current.x + 1, ..*current };
    } else if down {
        *current = Status { counter: 0, ..*current };
    }
}

/// Ends the game: sets the terminal flag and flattens the board, erasing
/// which shape occupies each cell but not which cells are occupied.
pub fn game_over(game: &mut Game)
    requires
        board_sized(bv(old(game).board)),
    ensures
        final(game).game_over,
        bv(final(game).board) == flatten_view(bv(old(game).board)),
        final(game).status == old(game).status,
        final(game).blocks == old(game).blocks,
{
    game.game_over = true;
    flatten_board(&mut game.board);
}

/// Places a fresh piece of type `t` at the spawn position. Returns
/// whether it fit; on collision the game is left as it was.
pub fn spawn_piece(game: &mut Game, t: BlockType) -> (placed: bool)
    requires
        blocks_wf(old(game).blocks@),
        bd_wf(bv(old(game).board)),
        !old(game).game_over,
    ensures
        placed == fits(bv(old(game).board), spawn_status(t)),
        final(game).blocks == old(game).blocks,
        final(game).game_over == old(game).game_over,
        placed ==> bv(final(game).board) == stamp(bv(old(game).board), spawn_status(t))
            && final(game).status == spawn_status(t) && game_wf(*final(game)),
        !placed ==> bv(final(game).board) == bv(old(game).board) && final(game).status == old(
            game,
        ).status,
{
    let sp = Status::new(5, 21, t, 0);
    match put_block(&mut game.board, &game.blocks, &sp) {
        Ok(_) => {
            game.status = sp;
            proof {
                lemma_fits_interior(bv(old(game).board), sp);
                lemma_stamp_wf(bv(old(game).board), sp);
                lemma_stamp_on_board(bv(old(game).board), sp);
            }
            true
        },
        Err(_) => false,
    }
}

/// Places a fresh piece of a uniformly drawn playable type at the spawn
/// position. Returns whether it fit; on collision the game is left as it
/// was.
pub fn spawn_random(game: &mut Game) -> (placed: bool)
    requires
        blocks_wf(old(game).blocks@),
        bd_wf(bv(old(game).board)),
        !old(game).game_over,
    ensures
        final(game).blocks == old(game).blocks,
        final(game).game_over == old(game).game_over,
        placed ==> game_wf(*final(game)),
        exists|t: BlockType|
            {
                &&& #[trigger] playable(t)
                &&& placed == fits(bv(old(game).board), spawn_status(t))
                &&& (placed ==> bv(final(game).board) == stamp(
                    bv(old(game).board),
                    spawn_status(t),
                ) && final(game).status == spawn_status(t))
                &&& (!placed ==> bv(final(game).board) == bv(old(game).board)
                    && final(game).status == old(game).status)
            },
{
    let t = draw_type();
    let placed = spawn_piece(game, t);
    proof {
        assert(playable(t));
    }
    placed
}

/// The gravity resolution step, given the next piece type `t`. From a
/// board `b` holding the committed piece `cur` and a candidate `cand`
/// with the gravity delta applied: if the candidate fits once the piece
/// is lifted, it falls there. Otherwise the piece locks — the board is
/// restored exactly as it was, completed rows are cleared, and a fresh
/// piece of type `t` spawns; if even the fresh piece collides, the game
/// ends with the cleared board flattened.
pub open spec fn lock_step(
    b: Seq<Seq<Option<u8>>>,
    cur: Status,
    cand: Status,
    t: BlockType,
) -> (Seq<Seq<Option<u8>>>, Status, bool) {
    let be = erase(b, cur);
    if fits(be, cand) {
        (stamp(be, cand), cand, false)
    } else {
        let bc = spec_clear(b);
        let sp = spawn_status(t);
        if fits(bc, sp) {
            (stamp(bc, sp), sp, false)
        } else {
            (flatten_view(bc), sp, true)
        }
    }
}

/// The game stepped from `g0` to `g1` by exactly one gravity resolution
/// with candidate `cand` and next piece type `t`.
pub open spec fn lock_outcome(g0: Game, g1: Game, cand: Status, t: BlockType) -> bool {
    let lk = lock_step(bv(g0.board), g0.status, cand, t);
    &&& bv(g1.board) == lk.0
    &&& g1.status == lk.1
    &&& g1.game_over == lk.2
}

/// Resolves a gravity-advanced candidate against the board, with the
/// next piece type supplied by the caller: the piece either falls,
/// or locks in its prior position (restored exactly), clears completed
/// rows, and is replaced by a fresh piece — or the game ends.
pub fn block_down_with(game: &mut Game, status: &Status, next_type: BlockType)
    requires
        game_wf(*old(game)),
        !old(game).game_over,
        playable(next_type),
        anchor_in_range(*status),
        status.counter < TICK,
        status.rotate < 4,
    ensures
        game_wf(*final(game)),
        final(game).blocks == old(game).blocks,
        lock_outcome(*old(game), *final(game), *status, next_type),
{
    let ghost b0 = bv(old(game).board);
    let n = game.status;
    proof {
        lemma_interior_anchor(n);
    }
    delete_block(&mut game.board, &game.blocks, &n);
    match put_block(&mut game.board, &game.blocks, status) {
        Ok(_) => {
            game.status = *status;
            proof {
                lemma_erase_wf(b0, n);
                lemma_fits_interior(erase(b0, n), *status);
                lemma_stamp_wf(erase(b0, n), *status);
                lemma_stamp_on_board(erase(b0, n), *status);
            }
        },
        Err(_) => {
            proof {
                lemma_erased_fits(b0, n);
            }
            let restored = put_block(&mut game.board, &game.blocks, &n);
            proof {
                assert(restored is Ok);
                lemma_restore(b0, n);
                assert(bv(game.board) == b0);
            }
            delete_line(&mut game.board);
            proof {
                lemma_clear_wf(b0);
            }
            let sp = Status::new(5, 21, next_type, 0);
            game.status = sp;
            let s2 = game.status;
            match put_block(&mut game.board, &game.blocks, &s2) {
                Ok(_) => {
                    proof {
                        lemma_fits_interior(spec_clear(b0), sp);
                        lemma_stamp_wf(spec_clear(b0), sp);
                        lemma_stamp_on_board(spec_clear(b0), sp);
                    }
                },
                Err(_) => {
                    game_over(game);
                    proof {
                        lemma_flatten_wf(spec_clear(b0));
                    }
                },
            }
        },
    }
}

/// Resolves a gravity-advanced candidate against the board, drawing the
/// next piece type itself; what holds of the result is stated for
/// whichever playable type was drawn.
pub fn block_down(game: &mut Game, status: &Status)
    requires
        game_wf(*old(game)),
        !old(game).game_over,
        anchor_in_range(*status),
        status.counter < TICK,
        status.rotate < 4,
    ensures
        game_wf(*final(game)),
        final(game).blocks == old(game).blocks,
        exists|t: BlockType| #[trigger] playable(t) && lock_outcome(*old(game), *final(game), *status, t),
{
    let t = draw_type();
    block_down_with(game, status, t);
}

/// The candidate status a tick derives from the committed one: pending
/// rotation presses are applied first (the rotation index is kept
/// reduced modulo 4, which every symmetry order divides); held keys are
/// sampled only on even committed counters; and the gravity delta is
/// applied when the candidate's counter is a multiple of `TICK`.
pub open spec fn spec_candidate(
    cur: Status,
    presses: nat,
    left: bool,
    right: bool,
    down: bool,
) -> Status {
    let c1 = Status { rotate: (((cur.rotate + presses) % 4) as usize), ..cur };
    let c2 = if cur.counter % 2 == 0 {
        spec_user_input(c1, left, right, down)
    } else {
        c1
    };
    if c2.counter as int % (TICK as int) == 0 {
        Status { y: (c2.y - 1) as i32, ..c2 }
    } else {
        c2
    }
}

/// The lateral/rotation branch of a tick: if the candidate requests a
/// lateral or rotational move, the committed piece is lifted and the
/// whole candidate (gravity delta included) is tried; on collision the
/// board is restored and the candidate's lateral and rotational deltas
/// are reverted, keeping the gravity delta for the next branch. Returns
/// the board, the committed status, and the surviving candidate.
pub open spec fn move_step(b: Seq<Seq<Option<u8>>>, cur: Status, cand: Status) -> (
    Seq<Seq<Option<u8>>>,
    Status,
    Status,
) {
    if cand.x != cur.x || cand.rotate != cur.rotate {
        let be = erase(b, cur);
        if fits(be, cand) {
            (stamp(be, cand), cand, cand)
        } else {
            (b, cur, Status { x: cur.x, rotate: cur.rotate, ..cand })
        }
    } else {
        (b, cur, cand)
    }
}

/// The committed counter advances once per live tick, kept reduced
/// modulo `TICK`.
pub open spec fn inc_counter(st: Status) -> Status {
    Status { counter: (((st.counter + 1) % (TICK as int)) as usize), ..st }
}

/// The game stepped from `g0` to `g1` by one full tick with the given
/// inputs, where `t` is the piece type drawn if a lock occurred.
pub open spec fn tick_outcome(
    g0: Game,
    g1: Game,
    presses: nat,
    left: bool,
    right: bool,
    down: bool,
    t: BlockType,
) -> bool {
    let cand = spec_candidate(g0.status, presses, left, right, down);
    let m = move_step(bv(g0.board), g0.status, cand);
    if m.1.y != m.2.y {
        let lk = lock_step(m.0, m.1, m.2, t);
        &&& bv(g1.board) == lk.0
        &&& g1.status == inc_counter(lk.1)
        &&& g1.game_over == lk.2
    } else {
        &&& bv(g1.board) == m.0
        &&& g1.status == inc_counter(m.1)
        &&& !g1.game_over
    }
}

/// Adds rotation presses to a rotation index kept reduced modulo 4.
fn add_rot(r: usize, p: usize) -> (res: usize)
    ensures
        res == (r + p) % 4,
        res < 4,
{
    let res = (r % 4 + p % 4) % 4;
    proof {
        vstd::arithmetic::div_mod::lemma_add_mod_noop(r as int, p as int, 4);
    }
    res
}

/// The lateral/rotation branch of a tick, as executable code: lifts the
/// committed piece, tries the whole candidate, and on collision restores
/// the board and reverts the candidate's lateral and rotational deltas.
fn move_piece(game: &mut Game, current: &mut Status)
    requires
        game_wf(*old(game)),
        !old(game).game_over,
        anchor_in_range(*old(current)),
        old(current).counter < TICK,
        old(current).rotate < 4,
    ensures
        game_wf(*final(game)),
        !final(game).game_over,
        final(game).blocks == old(game).blocks,
        ({
            let m = move_step(bv(old(game).board), old(game).status, *old(current));
            &&& bv(final(game).board) == m.0
            &&& final(game).status == m.1
            &&& *final(current) == m.2
        }),
{
    let ghost b0 = bv(old(game).board);
    if game.status.x != current.x || game.status.rotate != current.rotate {
        let n = game.status;
        proof {
            lemma_interior_anchor(n);
        }
        delete_block(&mut game.board, &game.blocks, &n);
        match put_block(&mut game.board, &game.blocks, current) {
            Ok(_) => {
                game.status = *current;
                proof {
                    lemma_erase_wf(b0, n);
                    lemma_fits_interior(erase(b0, n), *current);
                    lemma_stamp_wf(erase(b0, n), *current);
                    lemma_stamp_on_board(erase(b0, n), *current);
                }
            },
            Err(_) => {
                proof {
                    lemma_erased_fits(b0, n);
                }
                let restored = put_block(&mut game.board, &game.blocks, &n);
                proof {
                    assert(restored is Ok);
                    lemma_restore(b0, n);
                }
                *current = Status { x: n.x, rotate: n.rotate, ..*current };
            },
        }
    }
}

/// A game differing from a well-formed live game only in the committed
/// counter, still reduced, is well-formed.
proof fn lemma_wf_set_counter(g: Game, g2: Game)
    requires
        game_wf(g),
        g2.blocks == g.blocks,
        g2.board == g.board,
        g2.game_over == g.game_over,
        g2.status == (Status { counter: g2.status.counter, ..g.status }),
        g2.status.counter < TICK,
    ensures
        game_wf(g2),
{
    if !g2.game_over {
        assert(status_cells(g2.status) == status_cells(g.status));
    }
}

/// After a gravity resolution the committed counter is still reduced:
/// the piece either kept the candidate's counter or respawned at zero.
proof fn lemma_lock_counter(gmid: Game, gpre: Game, cand: Status)
    requires
        cand.counter < TICK,
        exists|t: BlockType| #[trigger] playable(t) && lock_outcome(gmid, gpre, cand, t),
    ensures
        gpre.status.counter < TICK,
{
    let t = choose|t: BlockType| #[trigger] playable(t) && lock_outcome(gmid, gpre, cand, t);
}

/// Assembles a full tick outcome out of the move phase, a gravity
/// resolution, and the counter advance.
proof fn lemma_tick_outcome_lock(
    g0: Game,
    gmid: Game,
    gpre: Game,
    g1: Game,
    presses: nat,
    left: bool,
    right: bool,
    down: bool,
)
    requires
        !g0.game_over,
        ({
            let cand = spec_candidate(g0.status, presses, left, right, down);
            let m = move_step(bv(g0.board), g0.status, cand);
            &&& bv(gmid.board) == m.0
            &&& gmid.status == m.1
            &&& m.1.y != m.2.y
            &&& exists|t: BlockType| #[trigger] playable(t) && lock_outcome(gmid, gpre, m.2, t)
        }),
        bv(g1.board) == bv(gpre.board),
        g1.game_over == gpre.game_over,
        g1.status == inc_counter(gpre.status),
    ensures
        exists|t: BlockType|
            #[trigger] playable(t) && tick_outcome(g0, g1, presses, left, right, down, t),
{
    let cand = spec_candidate(g0.status, presses, left, right, down);
    let m = move_step(bv(g0.board), g0.status, cand);
    let t = choose|t: BlockType| #[trigger] playable(t) && lock_outcome(gmid, gpre, m.2, t);
    assert(tick_outcome(g0, g1, presses, left, right, down, t));
}

/// Assembles a full tick outcome when the gravity branch was idle.
proof fn lemma_tick_outcome_still(
    g0: Game,
    gmid: Game,
    g1: Game,
    presses: nat,
    left: bool,
    right: bool,
    down: bool,
)
    requires
        !g0.game_over,
        !gmid.game_over,
        ({
            let cand = spec_candidate(g0.status, presses, left, right, down);
            let m = move_step(bv(g0.board), g0.status, cand);
            &&& bv(gmid.board) == m.0
            &&& gmid.status == m.1
            &&& m.1.y == m.2.y
        }),
        bv(g1.board) == bv(gmid.board),
        g1.game_over == gmid.game_over,
        g1.status == inc_counter(gmid.status),
    ensures
        exists|t: BlockType|
            #[trigger] playable(t) && tick_outcome(g0, g1, presses, left, right, down, t),
{
    assert(playable(BlockType::I) && tick_outcome(g0, g1, presses, left, right, down, BlockType::I));
}

/// One tick of the piece controller: builds the candidate from the
/// inputs, evaluates the lateral/rotation branch and then the gravity
/// branch, and advances the committed counter. A finished game is left
/// untouched.
#[verifier::rlimit(100)]
pub fn tick(game: &mut Game, rotate_presses: usize, left: bool, right: bool, down: bool)
    requires
        game_wf(*old(game)),
    ensures
        game_wf(*final(game)),
        final(game).blocks == old(game).blocks,
        old(game).game_over ==> *final(game) == *old(game),
        !old(game).game_over ==> exists|t: BlockType|
            #[trigger] playable(t) && tick_outcome(
                *old(game),
                *final(game),
                rotate_presses as nat,
                left,
                right,
                down,
                t,
            ),
{
    if game.game_over {
        return ;
    }
    let ghost g0 = *old(game);
    let ghost b0 = bv(old(game).board);
    let cur = game.status;
    proof {
        lemma_interior_anchor(cur);
    }
    let mut current = cur;
    current = Status { rotate: add_rot(current.rotate, rotate_presses), ..current };
    if game.status.counter % 2 == 0 {
        user_input_proceed(&mut current, left, right, down);
    }
    if current.counter % TICK == 0 {
        current = Status { y: current.y - 1, ..current };
    }
    let ghost cand = spec_candidate(cur, rotate_presses as nat, left, right, down);
    proof {
        assert(current == cand);
    }
    let ghost m = move_step(b0, cur, cand);
    move_piece(game, &mut current);
    let ghost gmid = *game;
    if game.status.y != current.y {
        proof {
            assert(anchor_in_range(current));
        }
        block_down(game, &current);
    }
    let ghost gpre = *game;
    proof {
        if gmid.status.y != m.2.y {
            lemma_lock_counter(gmid, gpre, m.2);
        }
        assert(gpre.status.counter < TICK);
    }
    let s = game.status;
    let c2 = (s.counter + 1) % TICK;
    game.status = Status { counter: c2, ..s };
    proof {
        lemma_wf_set_counter(gpre, *game);
        if gmid.status.y != m.2.y {
            lemma_tick_outcome_lock(
                g0,
                gmid,
                gpre,
                *game,
                rotate_presses as nat,
                left,
                right,
                down,
            );
        } else {
            lemma_tick_outcome_still(
                g0,
                gmid,
                *game,
                rotate_presses as nat,
                left,
                right,
                down,
            );
        }
    }
}

/// Draws the next piece type uniformly from the seven playable shapes.
fn draw_type() -> (t: BlockType)
    ensures
        playable(t),
{
    let n = crate::rng::rand_range(1, 7);
    let r = BlockType::from_usize(n as usize);
    r.unwrap()
}

} // verus!
