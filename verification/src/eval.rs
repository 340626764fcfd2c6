use vstd::prelude::*;

use rand::Rng;

verus! {

use crate::definitions::{
    Board, in_board, row_of, col_of, type_of, color_of, COLOR_WHITE, COLOR_BLACK, COLOR_MASK,
    TYPE_MASK,
    PIECE_NONE, PIECE_PAWN, PIECE_KNIGHT, PIECE_BISHOP, PIECE_ROOK, PIECE_QUEEN, PIECE_KING,
    PIECE_ARCHBISHOP, PIECE_CHANCELLOR, PIECE_ANGEL, SQUARE_COUNT, is_valid_square,
};
use crate::move_gen::{
    bishop_offsets, rook_offsets, bishop_offset_list, rook_offset_list, wrap_break,
    is_bishop_slider, is_rook_slider,
};

/// Playing styles. Each selects fixed percentage multipliers for the
/// attack, pawn-structure, king-safety and material evaluation terms.
#[derive(Clone, Copy)]
pub enum Personality {
    NORMAL,
    AGGRESSIVE,
    SOLID,
    GENTLE,
}

/// Evaluation configuration: a personality, an optional rating, and an
/// optional noise seed. A rating below the noise threshold mixes symmetric
/// noise into the score; an absent rating disables all randomness. With a
/// seed the noise is drawn deterministically from the crate's own generator
/// chain, keyed by the seed and the position, so runs are reproducible;
/// without one it is drawn from the ambient generator.
#[derive(Clone, Copy)]
pub struct EvalConfig {
    pub personality: Personality,
    pub elo: Option<i32>,
    pub noise_seed: Option<u64>,
}

// Piece-square tables, indexed from the white side; black ranks are
// mirrored before lookup.
pub const PST_PAWN: [i8; 81] = [
    0, 0, 0, 0, 0, 0, 0, 0, 0,
    50, 50, 50, 50, 50, 50, 50, 50, 50,
    10, 10, 20, 30, 30, 30, 20, 10, 10,
    5, 5, 10, 25, 25, 25, 10, 5, 5,
    0, 0, 0, 20, 25, 20, 0, 0, 0,
    5, -5, -10, 0, 10, 0, -10, -5, 5,
    5, 10, 10, -20, -20, -20, 10, 10, 5,
    0, 0, 0, 0, 0, 0, 0, 0, 0,
    0, 0, 0, 0, 0, 0, 0, 0, 0,
];

pub const PST_KNIGHT: [i8; 81] = [
    -50, -40, -30, -30, -30, -30, -30, -40, -50,
    -40, -20, 0, 0, 0, 0, 0, -20, -40,
    -30, 0, 10, 15, 15, 15, 10, 0, -30,
    -30, 5, 15, 20, 20, 20, 15, 5, -30,
    -30, 0, 15, 20, 25, 20, 15, 0, -30,
    -30, 5, 15, 20, 20, 20, 15, 5, -30,
    -30, 0, 10, 15, 15, 15, 10, 0, -30,
    -40, -20, 0, 5, 5, 5, 0, -20, -40,
    -50, -40, -30, -30, -30, -30, -30, -40, -50,
];

pub const PST_BISHOP: [i8; 81] = [
    -20, -10, -10, -10, -10, -10, -10, -10, -20,
    -10, 0, 0, 0, 0, 0, 0, 0, -10,
    -10, 0, 5, 10, 10, 10, 5, 0, -10,
    -10, 5, 5, 10, 10, 10, 5, 5, -10,
    -10, 0, 10, 10, 15, 10, 10, 0, -10,
    -10, 10, 10, 10, 10, 10, 10, 10, -10,
    -10, 5, 0, 0, 0, 0, 0, 5, -10,
    -10, 0, 0, 0, 0, 0, 0, 0, -10,
    -20, -10, -10, -10, -10, -10, -10, -10, -20,
];

pub const PST_ROOK: [i8; 81] = [
    0, 0, 0, 0, 0, 0, 0, 0, 0,
    5, 10, 10, 10, 10, 10, 10, 10, 5,
    -5, 0, 0, 0, 0, 0, 0, 0, -5,
    -5, 0, 0, 0, 0, 0, 0, 0, -5,
    -5, 0, 0, 0, 0, 0, 0, 0, -5,
    -5, 0, 0, 0, 0, 0, 0, 0, -5,
    -5, 0, 0, 0, 0, 0, 0, 0, -5,
    -5, 0, 0, 0, 0, 0, 0, 0, -5,
    0, 0, 0, 5, 5, 5, 0, 0, 0,
];

pub const PST_QUEEN: [i8; 81] = [
    -20, -10, -10, -5, -5, -5, -10, -10, -20,
    -10, 0, 0, 0, 0, 0, 0, 0, -10,
    -10, 0, 5, 5, 5, 5, 5, 0, -10,
    -5, 0, 5, 5, 5, 5, 5, 0, -5,
    0, 0, 5, 5, 5, 5, 5, 0, 0,
    -5, -5, 0, 5, 5, 5, 5, 5, 0,
    -5, -10, 0, 5, 5, 5, 5, 5, 0,
    -10, -10, 0, 0, 0, 0, 0, 0, -10,
    -20, -10, -10, -5, -5, -5, -10, -10, -20,
];

pub const PST_KING_MG: [i8; 81] = [
    -30, -40, -40, -50, -50, -50, -40, -40, -30,
    -30, -40, -40, -50, -50, -50, -40, -40, -30,
    -30, -40, -40, -50, -50, -50, -40, -40, -30,
    -30, -40, -40, -50, -50, -50, -40, -40, -30,
    -30, -40, -50, -50, -50, -40, -40, -30, -30,
    -20, -30, -30, -40, -40, -40, -30, -30, -20,
    20, 20, 0, 0, 0, 0, 0, 20, 20,
    20, 30, 10, 0, 0, 0, 10, 30, 20,
    20, 30, 10, 0, 0, 0, 10, 30, 20,
];

pub const PST_KING_EG: [i8; 81] = [
    -50, -40, -30, -20, -20, -20, -30, -40, -50,
    -30, -20, -10, 0, 0, 0, -10, -20, -30,
    -30, -10, 10, 20, 20, 20, 10, -10, -30,
    -30, 0, 20, 30, 30, 30, 20, 0, -30,
    -30, 0, 20, 30, 40, 30, 20, 0, -30,
    -30, 0, 20, 30, 30, 30, 20, 0, -30,
    -30, -10, 10, 20, 20, 20, 10, -10, -30,
    -20, -10, 0, 0, 0, 0, 0, -10, -20,
    -50, -40, -30, -20, -20, -20, -30, -40, -50,
];

// Personality weight percentages (100 is neutral).

pub open spec fn attack_weight(p: Personality) -> int {
    match p {
        Personality::NORMAL => 100,
        Personality::AGGRESSIVE => 140,
        Personality::SOLID => 70,
        Personality::GENTLE => 80,
    }
}

pub open spec fn pawn_weight(p: Personality) -> int {
    match p {
        Personality::NORMAL => 100,
        Personality::AGGRESSIVE => 70,
        Personality::SOLID => 130,
        Personality::GENTLE => 100,
    }
}

pub open spec fn king_weight(p: Personality) -> int {
    match p {
        Personality::NORMAL => 100,
        Personality::AGGRESSIVE => 80,
        Personality::SOLID => 140,
        Personality::GENTLE => 100,
    }
}

pub open spec fn material_weight(p: Personality) -> int {
    match p {
        Personality::NORMAL => 100,
        Personality::AGGRESSIVE => 100,
        Personality::SOLID => 100,
        Personality::GENTLE => 90,
    }
}

fn personality_weights(p: Personality) -> (r: (i64, i64, i64, i64))
    ensures
        r.0 == attack_weight(p),
        r.1 == pawn_weight(p),
        r.2 == king_weight(p),
        r.3 == material_weight(p),
        70 <= r.0 <= 140,
        70 <= r.1 <= 140,
        70 <= r.2 <= 140,
        70 <= r.3 <= 140,
{
    match p {
        Personality::NORMAL => (100, 100, 100, 100),
        Personality::AGGRESSIVE => (140, 70, 80, 100),
        Personality::SOLID => (70, 130, 140, 100),
        Personality::GENTLE => (80, 100, 100, 90),
    }
}

/// Material value by piece type, in centipawns.
pub open spec fn piece_value(t: i8) -> int {
    if t == PIECE_PAWN {
        100
    } else if t == PIECE_KNIGHT {
        320
    } else if t == PIECE_BISHOP {
        330
    } else if t == PIECE_ROOK {
        500
    } else if t == PIECE_QUEEN {
        900
    } else if t == PIECE_KING {
        20000
    } else if t == PIECE_ARCHBISHOP {
        600
    } else if t == PIECE_CHANCELLOR {
        700
    } else if t == PIECE_ANGEL {
        1220
    } else {
        0
    }
}

pub fn piece_value_of(t: i8) -> (r: i32)
    ensures
        r == piece_value(t),
        0 <= r <= 20000,
{
    if t == PIECE_PAWN {
        100
    } else if t == PIECE_KNIGHT {
        320
    } else if t == PIECE_BISHOP {
        330
    } else if t == PIECE_ROOK {
        500
    } else if t == PIECE_QUEEN {
        900
    } else if t == PIECE_KING {
        20000
    } else if t == PIECE_ARCHBISHOP {
        600
    } else if t == PIECE_CHANCELLOR {
        700
    } else if t == PIECE_ANGEL {
        1220
    } else {
        0
    }
}

/// Game-phase contribution by piece type.
pub open spec fn phase_value(t: i8) -> int {
    if t == PIECE_KNIGHT {
        1
    } else if t == PIECE_BISHOP {
        1
    } else if t == PIECE_ROOK {
        2
    } else if t == PIECE_QUEEN {
        4
    } else if t == PIECE_ARCHBISHOP {
        3
    } else if t == PIECE_CHANCELLOR {
        3
    } else if t == PIECE_ANGEL {
        4
    } else {
        0
    }
}

fn phase_value_of(t: i8) -> (r: i32)
    ensures
        r == phase_value(t),
        0 <= r <= 4,
{
    if t == PIECE_KNIGHT {
        1
    } else if t == PIECE_BISHOP {
        1
    } else if t == PIECE_ROOK {
        2
    } else if t == PIECE_QUEEN {
        4
    } else if t == PIECE_ARCHBISHOP {
        3
    } else if t == PIECE_CHANCELLOR {
        3
    } else if t == PIECE_ANGEL {
        4
    } else {
        0
    }
}

/// Piece-square value of a piece at (row, column), from its own side's
/// point of view; black ranks are mirrored.
pub open spec fn pst_at(t: i8, r: int, c: int, color: i8, eg: bool) -> int {
    let rank = if color == COLOR_WHITE {
        r
    } else {
        8 - r
    };
    let idx = rank * 9 + c;
    if t == PIECE_PAWN {
        PST_PAWN[idx] as int
    } else if t == PIECE_KNIGHT {
        PST_KNIGHT[idx] as int
    } else if t == PIECE_BISHOP {
        PST_BISHOP[idx] as int
    } else if t == PIECE_ROOK {
        PST_ROOK[idx] as int
    } else if t == PIECE_QUEEN {
        PST_QUEEN[idx] as int
    } else if t == PIECE_KING {
        if eg {
            PST_KING_EG[idx] as int
        } else {
            PST_KING_MG[idx] as int
        }
    } else if t == PIECE_ARCHBISHOP {
        PST_KNIGHT[idx] as int
    } else if t == PIECE_CHANCELLOR {
        PST_QUEEN[idx] as int
    } else if t == PIECE_ANGEL {
        PST_QUEEN[idx] as int
    } else {
        0
    }
}

pub fn get_pst(piece_type: i8, r: usize, c: usize, color: i8, is_endgame: bool) -> (v: i32)
    requires
        r < 9,
        c < 9,
    ensures
        v == pst_at(piece_type, r as int, c as int, color, is_endgame),
        -128 <= v <= 127,
{
    let rank = if color == COLOR_WHITE {
        r
    } else {
        8 - r
    };
    let idx = rank * 9 + c;
    let val: i8 = if piece_type == PIECE_PAWN {
        PST_PAWN[idx]
    } else if piece_type == PIECE_KNIGHT {
        PST_KNIGHT[idx]
    } else if piece_type == PIECE_BISHOP {
        PST_BISHOP[idx]
    } else if piece_type == PIECE_ROOK {
        PST_ROOK[idx]
    } else if piece_type == PIECE_QUEEN {
        PST_QUEEN[idx]
    } else if piece_type == PIECE_KING {
        if is_endgame {
            PST_KING_EG[idx]
        } else {
            PST_KING_MG[idx]
        }
    } else if piece_type == PIECE_ARCHBISHOP {
        PST_KNIGHT[idx]
    } else if piece_type == PIECE_CHANCELLOR {
        PST_QUEEN[idx]
    } else if piece_type == PIECE_ANGEL {
        PST_QUEEN[idx]
    } else {
        0
    };
    val as i32
}

/// Division truncated toward zero, as the engine's fixed-point scaling
/// rounds.
pub open spec fn tdiv(a: int, d: int) -> int {
    if a >= 0 {
        a / d
    } else {
        -((-a) / d)
    }
}

fn div_pos(x: i64, d: i64) -> (r: i64)
    requires
        0 <= x,
        0 < d,
    ensures
        r == (x as int) / (d as int),
        0 <= r <= x,
{
    let q = (x as u64) / (d as u64);
    proof {
        assert((x as int) / (d as int) <= x as int) by (nonlinear_arith)
            requires
                x >= 0,
                d >= 1,
        ;
        assert((x as int) / (d as int) >= 0) by (nonlinear_arith)
            requires
                x >= 0,
                d >= 1,
        ;
    }
    q as i64
}

fn div_trunc(x: i64, d: i64) -> (r: i64)
    requires
        0 < d,
        -100_000_000_000 <= x <= 100_000_000_000,
    ensures
        r == tdiv(x as int, d as int),
        x >= 0 ==> 0 <= r <= x,
        x < 0 ==> x <= r <= 0,
{
    if x >= 0 {
        div_pos(x, d)
    } else {
        -div_pos(-x, d)
    }
}

// ---------------------------------------------------------------------------
// Mobility: reachable squares along a piece's sliding directions.
// ---------------------------------------------------------------------------

/// Reachable squares along one ray: empty cells count one each; the first
/// enemy cell counts one and ends the ray; a friendly cell ends it uncounted.
pub open spec fn mob_ray(b: Seq<i8>, color: i8, from: int, prev: int, off: int, fuel: nat) -> int
    decreases fuel,
{
    if fuel == 0 {
        0
    } else {
        let curr = prev + off;
        if !in_board(curr) {
            0
        } else if wrap_break(from, prev, curr, off) {
            0
        } else if b[curr] == 0 {
            1 + mob_ray(b, color, from, curr, off, (fuel - 1) as nat)
        } else if color_of(b[curr]) != color {
            1
        } else {
            0
        }
    }
}

/// Sum of ray mobility over the first `k` directions.
pub open spec fn mob_dirs(b: Seq<i8>, color: i8, from: int, offs: Seq<i32>, k: int) -> int
    decreases k,
{
    if k <= 0 {
        0
    } else {
        mob_dirs(b, color, from, offs, k - 1) + mob_ray(b, color, from, from, offs[k - 1] as int, 9)
    }
}

fn mob_ray_count(board: &Board, from: usize, prev: usize, off: i32, fuel: usize, color: i8) -> (r:
    i32)
    requires
        board@.len() == 81,
        from < 81,
        prev < 81,
        -10 <= off <= 10,
        fuel <= 9,
    ensures
        r == mob_ray(board@, color, from as int, prev as int, off as int, fuel as nat),
        0 <= r <= fuel,
    decreases fuel,
{
    if fuel == 0 {
        return 0;
    }
    let curr_i = prev as i32 + off;
    if !is_valid_square(curr_i) {
        return 0;
    }
    let curr = curr_i as usize;
    if off == 1 || off == -1 {
        if curr / 9 != from / 9 {
            return 0;
        }
    } else if off == 9 || off == -9 {
        if curr % 9 != from % 9 {
            return 0;
        }
    } else {
        let dr = (curr / 9) as i32 - (prev / 9) as i32;
        let dc = (curr % 9) as i32 - (prev % 9) as i32;
        if (dr != 1 && dr != -1) || (dc != 1 && dc != -1) {
            return 0;
        }
    }
    let p = board[curr];
    if p == PIECE_NONE {
        1 + mob_ray_count(board, from, curr, off, fuel - 1, color)
    } else if (p & COLOR_MASK) != color {
        1
    } else {
        0
    }
}

/// Count the squares a sliding piece can reach along the given directions.
pub fn count_mobility(board: &Board, square: usize, offsets: &Vec<i32>, color: i8) -> (r: i32)
    requires
        board@.len() == 81,
        square < 81,
        offsets@.len() <= 8,
        forall|k: int| 0 <= k < offsets@.len() ==> -10 <= #[trigger] offsets@[k] <= 10,
    ensures
        r == mob_dirs(board@, color, square as int, offsets@, offsets@.len() as int),
        0 <= r <= 72,
{
    let mut count: i32 = 0;
    let mut k: usize = 0;
    while k < offsets.len()
        invariant
            board@.len() == 81,
            square < 81,
            offsets@.len() <= 8,
            forall|t: int| 0 <= t < offsets@.len() ==> -10 <= #[trigger] offsets@[t] <= 10,
            0 <= k <= offsets@.len(),
            count == mob_dirs(board@, color, square as int, offsets@, k as int),
            0 <= count <= 9 * k,
        decreases offsets@.len() - k,
    {
        let c = mob_ray_count(board, square, square, offsets[k], 9, color);
        count = count + c;
        k = k + 1;
    }
    count
}

// ---------------------------------------------------------------------------
// Per-cell scores and their sums over the board.
// ---------------------------------------------------------------------------

/// Sliding mobility of a piece by its movement families; stepping-only
/// pieces score no mobility.
pub open spec fn mobility_of(b: Seq<i8>, i: int, t: i8, color: i8) -> int {
    (if is_bishop_slider(t) {
        mob_dirs(b, color, i, bishop_offsets(), 4)
    } else {
        0
    }) + (if is_rook_slider(t) {
        mob_dirs(b, color, i, rook_offsets(), 4)
    } else {
        0
    })
}

/// One cell's score: weighted material plus weighted piece-square value,
/// plus sliding mobility for non-pawn, non-king pieces, signed by the
/// piece's color.
pub open spec fn cell_total(b: Seq<i8>, i: int, aw: int, mw: int, eg: bool) -> int {
    let p = b[i];
    if p == 0 {
        0
    } else {
        let t = type_of(p);
        let col = color_of(p);
        let base = tdiv(piece_value(t) * mw + pst_at(t, row_of(i), col_of(i), col, eg) * aw, 100);
        let mob = if t != PIECE_PAWN && t != PIECE_KING {
            mobility_of(b, i, t, col) * (if eg {
                3int
            } else {
                2int
            })
        } else {
            0
        };
        if col == COLOR_WHITE {
            base + mob
        } else {
            -(base + mob)
        }
    }
}

/// Sum of cell scores over the first `n` cells.
pub open spec fn cells_sum(b: Seq<i8>, aw: int, mw: int, eg: bool, n: int) -> int
    decreases n,
{
    if n <= 0 {
        0
    } else {
        cells_sum(b, aw, mw, eg, n - 1) + cell_total(b, n - 1, aw, mw, eg)
    }
}

/// Game-phase contribution of one cell.
pub open spec fn square_phase(b: Seq<i8>, i: int) -> int {
    if b[i] != 0 {
        phase_value(type_of(b[i]))
    } else {
        0
    }
}

/// Total game phase of the first `n` cells.
pub open spec fn phase_prefix(b: Seq<i8>, n: int) -> int
    decreases n,
{
    if n <= 0 {
        0
    } else {
        phase_prefix(b, n - 1) + square_phase(b, n - 1)
    }
}

fn cell_score(board: &Board, i: usize, aw: i64, mw: i64, eg: bool) -> (r: i64)
    requires
        board@.len() == 81,
        i < 81,
        70 <= aw <= 140,
        70 <= mw <= 140,
    ensures
        r == cell_total(board@, i as int, aw as int, mw as int, eg),
        -3_000_000 <= r <= 3_000_000,
{
    let p = board[i];
    if p == PIECE_NONE {
        return 0;
    }
    let t = p & TYPE_MASK;
    let col = p & COLOR_MASK;
    let val = piece_value_of(t);
    let pst = get_pst(t, i / 9, i % 9, col, eg);
    proof {
        assert(0 <= (val as int) * (mw as int) <= 2_800_000) by (nonlinear_arith)
            requires
                0 <= val <= 20000,
                70 <= mw <= 140,
        ;
        assert(-18_000 <= (pst as int) * (aw as int) <= 18_000) by (nonlinear_arith)
            requires
                -128 <= pst <= 127,
                70 <= aw <= 140,
        ;
    }
    let num: i64 = (val as i64) * mw + (pst as i64) * aw;
    let base = div_trunc(num, 100);
    let mob: i64 = if t != PIECE_PAWN && t != PIECE_KING {
        let bo = bishop_offset_list();
        let ro = rook_offset_list();
        let mb: i32 = if t == PIECE_BISHOP || t == PIECE_ARCHBISHOP || t == PIECE_QUEEN || t
            == PIECE_ANGEL {
            count_mobility(board, i, &bo, col)
        } else {
            0
        };
        let mr: i32 = if t == PIECE_ROOK || t == PIECE_CHANCELLOR || t == PIECE_QUEEN || t
            == PIECE_ANGEL {
            count_mobility(board, i, &ro, col)
        } else {
            0
        };
        let msum = (mb + mr) as i64;
        if eg {
            msum * 3
        } else {
            msum * 2
        }
    } else {
        0
    };
    if col == COLOR_WHITE {
        base + mob
    } else {
        -(base + mob)
    }
}

fn cells_score(board: &Board, aw: i64, mw: i64, eg: bool) -> (r: i64)
    requires
        board@.len() == 81,
        70 <= aw <= 140,
        70 <= mw <= 140,
    ensures
        r == cells_sum(board@, aw as int, mw as int, eg, 81),
        -243_000_000 <= r <= 243_000_000,
{
    let mut acc: i64 = 0;
    let mut i: usize = 0;
    while i < SQUARE_COUNT
        invariant
            board@.len() == 81,
            70 <= aw <= 140,
            70 <= mw <= 140,
            0 <= i <= 81,
            acc == cells_sum(board@, aw as int, mw as int, eg, i as int),
            -3_000_000 * (i as int) <= acc <= 3_000_000 * (i as int),
        decreases 81 - i,
    {
        let c = cell_score(board, i, aw, mw, eg);
        acc = acc + c;
        i = i + 1;
    }
    acc
}

fn phase_score(board: &Board) -> (r: i32)
    requires
        board@.len() == 81,
    ensures
        r == phase_prefix(board@, 81),
        0 <= r <= 324,
{
    let mut acc: i32 = 0;
    let mut i: usize = 0;
    while i < SQUARE_COUNT
        invariant
            board@.len() == 81,
            0 <= i <= 81,
            acc == phase_prefix(board@, i as int),
            0 <= acc <= 4 * (i as int),
        decreases 81 - i,
    {
        let p = board[i];
        if p != PIECE_NONE {
            acc = acc + phase_value_of(p & TYPE_MASK);
        }
        i = i + 1;
    }
    acc
}

// ---------------------------------------------------------------------------
// Pawn structure and king shelter.
// ---------------------------------------------------------------------------

/// Is this cell a pawn of the given side? The white side is the cells whose
/// color bits say white; everything else counts as the black side.
pub open spec fn is_side_pawn(p: i8, white: bool) -> bool {
    p != 0 && type_of(p) == PIECE_PAWN && (if white {
        color_of(p) == COLOR_WHITE
    } else {
        color_of(p) != COLOR_WHITE
    })
}

/// Number of pawns of a side in a column, over the first `r` rows.
pub open spec fn pawn_col_rows(b: Seq<i8>, white: bool, c: int, r: int) -> int
    decreases r,
{
    if r <= 0 {
        0
    } else {
        pawn_col_rows(b, white, c, r - 1) + if is_side_pawn(b[(r - 1) * 9 + c], white) {
            1int
        } else {
            0
        }
    }
}

pub open spec fn pawn_col_count(b: Seq<i8>, white: bool, c: int) -> int {
    pawn_col_rows(b, white, c, 9)
}

fn pawn_col_count_of(board: &Board, white: bool, c: usize) -> (r: i64)
    requires
        board@.len() == 81,
        c < 9,
    ensures
        r == pawn_col_count(board@, white, c as int),
        0 <= r <= 9,
{
    let mut cnt: i64 = 0;
    let mut row: usize = 0;
    while row < 9
        invariant
            board@.len() == 81,
            c < 9,
            0 <= row <= 9,
            cnt == pawn_col_rows(board@, white, c as int, row as int),
            0 <= cnt <= row,
        decreases 9 - row,
    {
        let p = board[row * 9 + c];
        let is_pawn = p != PIECE_NONE && (p & TYPE_MASK) == PIECE_PAWN && (if white {
            (p & COLOR_MASK) == COLOR_WHITE
        } else {
            (p & COLOR_MASK) != COLOR_WHITE
        });
        if is_pawn {
            cnt = cnt + 1;
        }
        row = row + 1;
    }
    cnt
}

/// One side's pawn-structure score for one file: a doubled-pawn penalty per
/// extra pawn, and either an isolation penalty or a connection bonus.
pub open spec fn side_file_term(b: Seq<i8>, white: bool, c: int, pw: int) -> int {
    let cnt = pawn_col_count(b, white, c);
    let doubled: int = if cnt > 1 {
        (cnt - 1) * 15 * pw / 100
    } else {
        0
    };
    let link: int = if cnt > 0 {
        let left: int = if c > 0 {
            pawn_col_count(b, white, c - 1)
        } else {
            0
        };
        let right: int = if c < 8 {
            pawn_col_count(b, white, c + 1)
        } else {
            0
        };
        if left == 0 && right == 0 {
            -(20 * pw / 100)
        } else {
            cnt * 10 * pw / 100
        }
    } else {
        0
    };
    -doubled + link
}

/// Pawn-structure score of one file, white minus black.
pub open spec fn file_term(b: Seq<i8>, c: int, pw: int) -> int {
    side_file_term(b, true, c, pw) - side_file_term(b, false, c, pw)
}

/// Pawn-structure score summed over the first `n` files.
pub open spec fn files_sum(b: Seq<i8>, pw: int, n: int) -> int
    decreases n,
{
    if n <= 0 {
        0
    } else {
        files_sum(b, pw, n - 1) + file_term(b, n - 1, pw)
    }
}

fn side_file_score(board: &Board, white: bool, c: usize, pw: i64) -> (r: i64)
    requires
        board@.len() == 81,
        c < 9,
        70 <= pw <= 140,
    ensures
        r == side_file_term(board@, white, c as int, pw as int),
        -1000 <= r <= 1000,
{
    let cnt = pawn_col_count_of(board, white, c);
    let doubled: i64 = if cnt > 1 {
        let d1 = (cnt - 1) * 15;
        proof {
            assert(0 <= d1 * pw <= 16800) by (nonlinear_arith)
                requires
                    0 <= d1 <= 120,
                    70 <= pw <= 140,
            ;
        }
        div_pos(d1 * pw, 100)
    } else {
        0
    };
    let link: i64 = if cnt > 0 {
        let left: i64 = if c > 0 {
            pawn_col_count_of(board, white, c - 1)
        } else {
            0
        };
        let right: i64 = if c < 8 {
            pawn_col_count_of(board, white, c + 1)
        } else {
            0
        };
        if left == 0 && right == 0 {
            -div_pos(20 * pw, 100)
        } else {
            let l1 = cnt * 10;
            proof {
                assert(0 <= l1 * pw <= 12600) by (nonlinear_arith)
                    requires
                        0 <= l1 <= 90,
                        70 <= pw <= 140,
                ;
            }
            div_pos(l1 * pw, 100)
        }
    } else {
        0
    };
    -doubled + link
}

fn pawn_files_score(board: &Board, pw: i64) -> (r: i64)
    requires
        board@.len() == 81,
        70 <= pw <= 140,
    ensures
        r == files_sum(board@, pw as int, 9),
        -18_000 <= r <= 18_000,
{
    let mut acc: i64 = 0;
    let mut c: usize = 0;
    while c < 9
        invariant
            board@.len() == 81,
            70 <= pw <= 140,
            0 <= c <= 9,
            acc == files_sum(board@, pw as int, c as int),
            -2000 * (c as int) <= acc <= 2000 * (c as int),
        decreases 9 - c,
    {
        let w = side_file_score(board, true, c, pw);
        let bl = side_file_score(board, false, c, pw);
        acc = acc + (w - bl);
        c = c + 1;
    }
    acc
}

/// The cell of the last king of a side found in a scan of the first `n`
/// cells, or -1 when none was seen.
pub open spec fn last_king_upto(b: Seq<i8>, white: bool, n: int) -> int
    decreases n,
{
    if n <= 0 {
        -1
    } else if b[n - 1] != 0 && type_of(b[n - 1]) == PIECE_KING && (if white {
        color_of(b[n - 1]) == COLOR_WHITE
    } else {
        color_of(b[n - 1]) != COLOR_WHITE
    }) {
        n - 1
    } else {
        last_king_upto(b, white, n - 1)
    }
}

fn last_king_of(board: &Board, white: bool) -> (r: i32)
    requires
        board@.len() == 81,
    ensures
        r == last_king_upto(board@, white, 81),
        -1 <= r < 81,
{
    let mut idx: i32 = -1;
    let mut i: usize = 0;
    while i < SQUARE_COUNT
        invariant
            board@.len() == 81,
            0 <= i <= 81,
            idx == last_king_upto(board@, white, i as int),
            -1 <= idx < 81,
        decreases 81 - i,
    {
        let p = board[i];
        let hit = p != PIECE_NONE && (p & TYPE_MASK) == PIECE_KING && (if white {
            (p & COLOR_MASK) == COLOR_WHITE
        } else {
            (p & COLOR_MASK) != COLOR_WHITE
        });
        if hit {
            idx = i as i32;
        }
        i = i + 1;
    }
    idx
}

/// King shelter: a penalty magnitude when a king's own file holds none of
/// its pawns; the endgame penalty is half the midgame one.
pub open spec fn shelter_side(b: Seq<i8>, white: bool, kw: int, eg: bool) -> int {
    let k = last_king_upto(b, white, 81);
    if k != -1 && pawn_col_count(b, white, col_of(k)) == 0 {
        if eg {
            15 * kw / 200
        } else {
            15 * kw / 100
        }
    } else {
        0
    }
}

/// King-shelter score, white penalty subtracted and black penalty added.
pub open spec fn shelter_score(b: Seq<i8>, kw: int, eg: bool) -> int {
    -shelter_side(b, true, kw, eg) + shelter_side(b, false, kw, eg)
}

fn shelter_score_of(board: &Board, kw: i64, eg: bool) -> (r: i64)
    requires
        board@.len() == 81,
        70 <= kw <= 140,
    ensures
        r == shelter_score(board@, kw as int, eg),
        -1000 <= r <= 1000,
{
    let mut acc: i64 = 0;
    let wk = last_king_of(board, true);
    if wk != -1 {
        let c = (wk as usize) % 9;
        if pawn_col_count_of(board, true, c) == 0 {
            let pen: i64 = if eg {
                div_pos(15 * kw, 200)
            } else {
                div_pos(15 * kw, 100)
            };
            acc = acc - pen;
        }
    }
    let bk = last_king_of(board, false);
    if bk != -1 {
        let c = (bk as usize) % 9;
        if pawn_col_count_of(board, false, c) == 0 {
            let pen: i64 = if eg {
                div_pos(15 * kw, 200)
            } else {
                div_pos(15 * kw, 100)
            };
            acc = acc + pen;
        }
    }
    acc
}

// ---------------------------------------------------------------------------
// The full evaluation.
// ---------------------------------------------------------------------------

/// The deterministic evaluation of a position for the side to move:
/// midgame and endgame accumulators of material, piece-square, mobility,
/// pawn-structure, shelter and tempo terms, interpolated by game phase,
/// then signed for the side to move.
pub open spec fn eval_score(b: Seq<i8>, turn: i8, p: Personality) -> int {
    let aw = attack_weight(p);
    let pw = pawn_weight(p);
    let kw = king_weight(p);
    let mw = material_weight(p);
    let tempo_mg: int = if turn == COLOR_WHITE {
        10
    } else {
        -10
    };
    let tempo_eg: int = if turn == COLOR_WHITE {
        5
    } else {
        -5
    };
    let files = files_sum(b, pw, 9);
    let mg = tempo_mg + cells_sum(b, aw, mw, false, 81) + files + shelter_score(b, kw, false);
    let eg = tempo_eg + cells_sum(b, aw, mw, true, 81) + files + shelter_score(b, kw, true);
    let ph0 = phase_prefix(b, 81);
    let ph: int = if ph0 > 32 {
        32
    } else {
        ph0
    };
    let total = tdiv(mg * ph + eg * (32 - ph), 32);
    if turn == COLOR_WHITE {
        total
    } else {
        -total
    }
}

/// The width of the symmetric noise band for a configuration; zero means
/// the evaluation is deterministic.
pub open spec fn noise_bound(cfg: EvalConfig) -> int {
    match cfg.elo {
        Some(e) => if e < 2500 && (2500 - e) / 8 > 0 {
            (2500 - e) / 8
        } else {
            0
        },
        None => 0,
    }
}

/// A present rating is positive; an absent one disables all randomness.
pub open spec fn rating_ok(cfg: EvalConfig) -> bool {
    match cfg.elo {
        Some(e) => e > 0,
        None => true,
    }
}

/// Digest of the first `n` cells, for keying the seeded noise stream.
pub open spec fn digest_prefix(b: Seq<i8>, n: int) -> u64
    decreases n,
{
    if n <= 0 {
        0
    } else {
        crate::zobrist::xorshift_step(digest_prefix(b, n - 1) ^ (((b[n - 1] as i32) + 128) as u64))
    }
}

/// A compact fingerprint of a position and side to move, for keying the
/// seeded noise stream.
pub open spec fn position_digest(b: Seq<i8>, turn: i8) -> u64 {
    crate::zobrist::xorshift_step(digest_prefix(b, 81) ^ (((turn as i32) + 128) as u64))
}

fn compute_digest(board: &Board, turn: i8) -> (r: u64)
    requires
        board@.len() == 81,
    ensures
        r == position_digest(board@, turn),
{
    let mut d: u64 = 0;
    let mut i: usize = 0;
    while i < SQUARE_COUNT
        invariant
            board@.len() == 81,
            0 <= i <= 81,
            d == digest_prefix(board@, i as int),
        decreases 81 - i,
    {
        let c = ((board[i] as i32) + 128) as u64;
        d = crate::zobrist::xorshift64(d ^ c);
        i = i + 1;
    }
    crate::zobrist::xorshift64(d ^ (((turn as i32) + 128) as u64))
}

/// The symmetric noise value a seed draws for a position: one generator
/// step keyed by seed and digest, folded into the inclusive band.
pub open spec fn seeded_noise(seed: u64, digest: u64, bound: int) -> int {
    if bound <= 0 {
        0
    } else {
        (crate::zobrist::xorshift_step(seed ^ digest) as int) % (2 * bound + 1) - bound
    }
}

fn draw_seeded(seed: u64, digest: u64, range: i32) -> (r: i32)
    requires
        0 < range <= 400,
    ensures
        r as int == seeded_noise(seed, digest, range as int),
        -range <= r <= range,
{
    let x = crate::zobrist::xorshift64(seed ^ digest);
    let span = (2 * range + 1) as u64;
    let folded = (x % span) as i32;
    folded - range
}

/// The exact noise a seeded configuration adds to the deterministic
/// evaluation, perspective included; zero when the band is empty.
pub open spec fn cfg_noise(cfg: EvalConfig, b: Seq<i8>, turn: i8) -> int {
    match cfg.noise_seed {
        Some(seed) => {
            let n = seeded_noise(seed, position_digest(b, turn), noise_bound(cfg));
            if turn == COLOR_WHITE {
                n
            } else {
                -n
            }
        },
        None => 0,
    }
}

/// Relies on rand::thread_rng and rand::Rng::gen_range: a value drawn
/// uniformly from the nonempty inclusive range; nothing further can be
/// promised of a random draw.
#[verifier::external_body]
fn random_in_range(lo: i32, hi: i32) -> (r: i32)
    requires
        lo <= hi,
    ensures
        lo <= r <= hi,
{
    rand::thread_rng().gen_range(lo..=hi)
}

/// Score a position for the side to move. With no rating below the noise
/// threshold the result is exactly the deterministic evaluation; otherwise
/// it differs from it by at most the configured noise band, and with a
/// noise seed the difference is the exact seeded draw.
#[verifier::rlimit(60)]
pub fn evaluate_position(board: &Board, turn_color: i8, config: &EvalConfig) -> (r: i32)
    requires
        board@.len() == 81,
        rating_ok(*config),
    ensures
        noise_bound(*config) == 0 ==> r == eval_score(board@, turn_color, config.personality),
        -noise_bound(*config) <= r - eval_score(board@, turn_color, config.personality)
            <= noise_bound(*config),
        config.noise_seed is Some ==> r as int == eval_score(board@, turn_color, config.personality)
            + cfg_noise(*config, board@, turn_color),
{
    let (aw, pw, kw, mw) = personality_weights(config.personality);
    let tempo_mg: i64 = if turn_color == COLOR_WHITE {
        10
    } else {
        -10
    };
    let tempo_eg: i64 = if turn_color == COLOR_WHITE {
        5
    } else {
        -5
    };
    let files = pawn_files_score(board, pw);
    let mg: i64 = tempo_mg + cells_score(board, aw, mw, false) + files + shelter_score_of(
        board,
        kw,
        false,
    );
    let eg: i64 = tempo_eg + cells_score(board, aw, mw, true) + files + shelter_score_of(
        board,
        kw,
        true,
    );
    let ph0 = phase_score(board);
    let ph: i64 = if ph0 > 32 {
        32
    } else {
        ph0 as i64
    };
    proof {
        assert(-8_000_000_000 <= mg * ph <= 8_000_000_000) by (nonlinear_arith)
            requires
                -244_000_000 <= mg <= 244_000_000,
                0 <= ph <= 32,
        ;
        assert(-8_000_000_000 <= eg * (32 - ph) <= 8_000_000_000) by (nonlinear_arith)
            requires
                -244_000_000 <= eg <= 244_000_000,
                0 <= ph <= 32,
        ;
    }
    let num: i64 = mg * ph + eg * (32 - ph);
    let total = div_trunc(num, 32);
    proof {
        if num >= 0 {
            vstd::arithmetic::div_mod::lemma_div_is_ordered(
                num as int,
                16_000_000_000,
                32,
            );
        } else {
            vstd::arithmetic::div_mod::lemma_div_is_ordered(
                -(num as int),
                16_000_000_000,
                32,
            );
        }
        assert(-500_000_000 <= total <= 500_000_000);
    }
    let noise: i32 = match config.elo {
        Some(elo) => {
            if elo < 2500 {
                let range = (2500 - elo) / 8;
                proof {
                    vstd::arithmetic::div_mod::lemma_div_is_ordered(
                        2500 - elo as int,
                        2499,
                        8,
                    );
                }
                if range > 0 {
                    match config.noise_seed {
                        Some(seed) => {
                            let digest = compute_digest(board, turn_color);
                            draw_seeded(seed, digest, range)
                        },
                        None => random_in_range(-range, range),
                    }
                } else {
                    0
                }
            } else {
                0
            }
        },
        None => 0,
    };
    proof {
        match config.noise_seed {
            Some(seed) => {
                assert(noise as int == seeded_noise(
                    seed,
                    position_digest(board@, turn_color),
                    noise_bound(*config),
                ));
                if turn_color == COLOR_WHITE {
                    assert(cfg_noise(*config, board@, turn_color) == noise as int);
                } else {
                    assert(cfg_noise(*config, board@, turn_color) == -(noise as int));
                }
            },
            None => {},
        }
    }
    let s: i64 = total + noise as i64;
    let result: i64 = if turn_color == COLOR_WHITE {
        s
    } else {
        -s
    };
    result as i32
}

} // verus!

verus! {

// ---------------------------------------------------------------------------
// Color symmetry: the mirrored position with the colors exchanged.
// ---------------------------------------------------------------------------

/// The cell a square maps to when the board is mirrored top-to-bottom.
pub open spec fn mirror_sq(i: int) -> int {
    (8 - row_of(i)) * 9 + col_of(i)
}

/// The same piece in the other color; empty cells stay empty.
pub open spec fn swap_cell(p: i8) -> i8 {
    if p == 0 {
        0
    } else if color_of(p) == COLOR_WHITE {
        (p + 16) as i8
    } else {
        (p - 16) as i8
    }
}

/// A well-formed cell: empty, or a piece type with exactly one color bit.
pub open spec fn wf_cell(p: i8) -> bool {
    p == 0 || (1 <= type_of(p) <= 9 && (p == 16 + type_of(p) || p == 32 + type_of(p)))
}

/// A well-formed position: 81 cells, each a valid encoding.
pub open spec fn wf_board(b: Seq<i8>) -> bool {
    b.len() == 81 && forall|i: int| 0 <= i < 81 ==> wf_cell(#[trigger] b[i])
}

/// The position mirrored top-to-bottom with every piece's color exchanged.
pub open spec fn color_swapped_mirrored(b: Seq<i8>) -> Seq<i8> {
    Seq::new(81, |i: int| swap_cell(b[mirror_sq(i)]))
}

proof fn lemma_swap_cell_pawn(p: i8, white: bool)
    requires
        wf_cell(p),
    ensures
        is_side_pawn(swap_cell(p), white) == is_side_pawn(p, !white),
{
    if p != 0 {
        assert(17 <= p <= 25 || 33 <= p <= 41);
        if color_of(p) == COLOR_WHITE {
            assert(!((p & 48) == 16 && 33 <= p <= 41)) by (bit_vector);
            assert(17 <= p <= 25);
            assert(((p + 16) as i8) & 15 == p & 15 && ((p + 16) as i8) & 48 == 32) by (bit_vector)
                requires
                    17 <= p <= 25,
            ;
        } else {
            assert(!((p & 48) != 16 && 17 <= p <= 25)) by (bit_vector);
            assert(33 <= p <= 41);
            assert(((p - 16) as i8) & 15 == p & 15 && ((p - 16) as i8) & 48 == 16) by (bit_vector)
                requires
                    33 <= p <= 41,
            ;
        }
    }
}

proof fn lemma_row_col_of_cell(r: int, c: int)
    requires
        0 <= r < 9,
        0 <= c < 9,
    ensures
        row_of(r * 9 + c) == r,
        col_of(r * 9 + c) == c,
{
    vstd::arithmetic::div_mod::lemma_fundamental_div_mod_converse(r * 9 + c, 9, r, c);
}

proof fn lemma_pawn_rows_mirror(b: Seq<i8>, white: bool, c: int, r: int)
    requires
        wf_board(b),
        0 <= c < 9,
        0 <= r <= 9,
    ensures
        pawn_col_rows(color_swapped_mirrored(b), white, c, r) == pawn_col_rows(b, !white, c, 9)
            - pawn_col_rows(b, !white, c, 9 - r),
    decreases r,
{
    if r > 0 {
        lemma_pawn_rows_mirror(b, white, c, r - 1);
        let bm = color_swapped_mirrored(b);
        let i = (r - 1) * 9 + c;
        lemma_row_col_of_cell(r - 1, c);
        assert(mirror_sq(i) == (9 - r) * 9 + c);
        assert(bm[i] == swap_cell(b[(9 - r) * 9 + c]));
        lemma_swap_cell_pawn(b[(9 - r) * 9 + c], white);
        assert(pawn_col_rows(b, !white, c, 9 - r + 1) == pawn_col_rows(b, !white, c, 9 - r) + (
        if is_side_pawn(b[(9 - r) * 9 + c], !white) {
            1int
        } else {
            0
        }));
    }
}

/// Mirroring the board and exchanging the colors hands each side exactly
/// the other side's pawn count in every file.
pub proof fn lemma_pawn_count_mirror(b: Seq<i8>, white: bool, c: int)
    requires
        wf_board(b),
        0 <= c < 9,
    ensures
        pawn_col_count(color_swapped_mirrored(b), white, c) == pawn_col_count(b, !white, c),
{
    lemma_pawn_rows_mirror(b, white, c, 9);
}

proof fn lemma_side_file_mirror(b: Seq<i8>, white: bool, c: int, pw: int)
    requires
        wf_board(b),
        0 <= c < 9,
    ensures
        side_file_term(color_swapped_mirrored(b), white, c, pw) == side_file_term(
            b,
            !white,
            c,
            pw,
        ),
{
    lemma_pawn_count_mirror(b, white, c);
    if c > 0 {
        lemma_pawn_count_mirror(b, white, c - 1);
    }
    if c < 8 {
        lemma_pawn_count_mirror(b, white, c + 1);
    }
}

proof fn lemma_files_sum_mirror(b: Seq<i8>, pw: int, n: int)
    requires
        wf_board(b),
        0 <= n <= 9,
    ensures
        files_sum(color_swapped_mirrored(b), pw, n) == -files_sum(b, pw, n),
    decreases n,
{
    if n > 0 {
        lemma_files_sum_mirror(b, pw, n - 1);
        lemma_side_file_mirror(b, true, n - 1, pw);
        lemma_side_file_mirror(b, false, n - 1, pw);
    }
}

} // verus!

verus! {

proof fn lemma_swap_cell_type(p: i8)
    requires
        wf_cell(p),
    ensures
        (swap_cell(p) == 0) <==> (p == 0),
        type_of(swap_cell(p)) == type_of(p),
{
    if p != 0 {
        assert(17 <= p <= 25 || 33 <= p <= 41);
        if color_of(p) == COLOR_WHITE {
            assert(!((p & 48) == 16 && 33 <= p <= 41)) by (bit_vector);
            assert(((p + 16) as i8) & 15 == p & 15 && ((p + 16) as i8) != 0) by (bit_vector)
                requires
                    17 <= p <= 25,
            ;
        } else {
            assert(!((p & 48) != 16 && 17 <= p <= 25)) by (bit_vector);
            assert(((p - 16) as i8) & 15 == p & 15 && ((p - 16) as i8) != 0) by (bit_vector)
                requires
                    33 <= p <= 41,
            ;
        }
    }
}

proof fn lemma_phase_row_mirror(b: Seq<i8>, r: int, j: int)
    requires
        wf_board(b),
        0 <= r < 9,
        0 <= j <= 9,
    ensures
        phase_prefix(color_swapped_mirrored(b), r * 9 + j) == phase_prefix(
            color_swapped_mirrored(b),
            r * 9,
        ) + phase_prefix(b, (8 - r) * 9 + j) - phase_prefix(b, (8 - r) * 9),
    decreases j,
{
    if j > 0 {
        lemma_phase_row_mirror(b, r, j - 1);
        let bm = color_swapped_mirrored(b);
        let i = r * 9 + (j - 1);
        lemma_row_col_of_cell(r, j - 1);
        assert(mirror_sq(i) == (8 - r) * 9 + (j - 1));
        assert(bm[i] == swap_cell(b[(8 - r) * 9 + (j - 1)]));
        lemma_swap_cell_type(b[(8 - r) * 9 + (j - 1)]);
        assert(square_phase(bm, i) == square_phase(b, (8 - r) * 9 + (j - 1)));
    }
}

proof fn lemma_phase_rows_mirror(b: Seq<i8>, r: int)
    requires
        wf_board(b),
        0 <= r <= 9,
    ensures
        phase_prefix(color_swapped_mirrored(b), r * 9) == phase_prefix(b, 81) - phase_prefix(
            b,
            (9 - r) * 9,
        ),
    decreases r,
{
    if r > 0 {
        lemma_phase_rows_mirror(b, r - 1);
        lemma_phase_row_mirror(b, r - 1, 9);
    }
}

/// The game phase is the same on the color-swapped, rank-mirrored position:
/// mirroring moves every piece and swapping colors keeps its type, and the
/// phase weights depend on the type alone.
pub proof fn lemma_phase_color_symmetric(b: Seq<i8>)
    requires
        wf_board(b),
    ensures
        phase_prefix(color_swapped_mirrored(b), 81) == phase_prefix(b, 81),
{
    lemma_phase_rows_mirror(b, 9);
}

} // verus!

verus! {

use crate::definitions::PIECE_KING as KING_TYPE;

/// Is this cell a king of the given side? The white side is the cells whose
/// color bits say white; everything else counts as the black side.
pub open spec fn is_king_cell(p: i8, white: bool) -> bool {
    p != 0 && type_of(p) == KING_TYPE && (if white {
        color_of(p) == COLOR_WHITE
    } else {
        color_of(p) != COLOR_WHITE
    })
}

/// The position holds at most one king of the side, the invariant of legal
/// play.
pub open spec fn at_most_one_king(b: Seq<i8>, white: bool) -> bool {
    forall|i: int, j: int|
        0 <= i < 81 && 0 <= j < 81 && is_king_cell(#[trigger] b[i], white) && is_king_cell(
            #[trigger] b[j],
            white,
        ) ==> i == j
}

proof fn lemma_swap_cell_king(p: i8, white: bool)
    requires
        wf_cell(p),
    ensures
        is_king_cell(swap_cell(p), white) == is_king_cell(p, !white),
{
    if p != 0 {
        assert(17 <= p <= 25 || 33 <= p <= 41);
        if color_of(p) == COLOR_WHITE {
            assert(!((p & 48) == 16 && 33 <= p <= 41)) by (bit_vector);
            assert(((p + 16) as i8) & 15 == p & 15 && ((p + 16) as i8) & 48 == 32) by (bit_vector)
                requires
                    17 <= p <= 25,
            ;
        } else {
            assert(!((p & 48) != 16 && 17 <= p <= 25)) by (bit_vector);
            assert(((p - 16) as i8) & 15 == p & 15 && ((p - 16) as i8) & 48 == 16) by (bit_vector)
                requires
                    33 <= p <= 41,
            ;
        }
    }
}

proof fn lemma_mirror_props(i: int)
    requires
        0 <= i < 81,
    ensures
        0 <= mirror_sq(i) < 81,
        row_of(mirror_sq(i)) == 8 - row_of(i),
        col_of(mirror_sq(i)) == col_of(i),
        mirror_sq(mirror_sq(i)) == i,
{
    vstd::arithmetic::div_mod::lemma_fundamental_div_mod(i, 9);
    vstd::arithmetic::div_mod::lemma_mod_bound(i, 9);
    lemma_row_col_of_cell(8 - row_of(i), col_of(i));
}

proof fn lemma_last_king_val(b: Seq<i8>, white: bool, n: int, k: int)
    requires
        0 <= k < n <= 81,
        is_king_cell(b[k], white),
        forall|j: int| 0 <= j < 81 && is_king_cell(#[trigger] b[j], white) ==> j == k,
    ensures
        last_king_upto(b, white, n) == k,
    decreases n,
{
    if n - 1 > k {
        lemma_last_king_val(b, white, n - 1, k);
    }
}

proof fn lemma_last_king_none(b: Seq<i8>, white: bool, n: int)
    requires
        n <= 81,
        forall|j: int| 0 <= j < 81 ==> !is_king_cell(#[trigger] b[j], white),
    ensures
        last_king_upto(b, white, n) == -1,
    decreases n,
{
    if n > 0 {
        lemma_last_king_none(b, white, n - 1);
    }
}

proof fn lemma_last_king_is_king(b: Seq<i8>, white: bool, n: int)
    requires
        n <= 81,
    ensures
        last_king_upto(b, white, n) == -1 || (0 <= last_king_upto(b, white, n) < n && is_king_cell(
            b[last_king_upto(b, white, n)],
            white,
        )),
    decreases n,
{
    if n > 0 {
        lemma_last_king_is_king(b, white, n - 1);
    }
}

proof fn lemma_shelter_side_mirror(b: Seq<i8>, white: bool, kw: int, eg: bool)
    requires
        wf_board(b),
        at_most_one_king(b, !white),
    ensures
        shelter_side(color_swapped_mirrored(b), white, kw, eg) == shelter_side(b, !white, kw, eg),
{
    let bm = color_swapped_mirrored(b);
    let k = last_king_upto(b, !white, 81);
    lemma_last_king_is_king(b, !white, 81);
    if k == -1 {
        assert forall|j: int| 0 <= j < 81 implies !is_king_cell(#[trigger] b[j], !white) by {
            if is_king_cell(b[j], !white) {
                lemma_last_king_val(b, !white, 81, j);
            }
        }
        assert forall|j: int| 0 <= j < 81 implies !is_king_cell(#[trigger] bm[j], white) by {
            lemma_mirror_props(j);
            assert(bm[j] == swap_cell(b[mirror_sq(j)]));
            lemma_swap_cell_king(b[mirror_sq(j)], white);
        }
        lemma_last_king_none(bm, white, 81);
    } else {
        lemma_mirror_props(k);
        let km = mirror_sq(k);
        assert(bm[km] == swap_cell(b[mirror_sq(km)]));
        lemma_swap_cell_king(b[k], white);
        assert(is_king_cell(bm[km], white));
        assert forall|j: int|
            0 <= j < 81 && is_king_cell(#[trigger] bm[j], white) implies j == km by {
            lemma_mirror_props(j);
            assert(bm[j] == swap_cell(b[mirror_sq(j)]));
            lemma_swap_cell_king(b[mirror_sq(j)], white);
            assert(is_king_cell(b[mirror_sq(j)], !white));
        }
        lemma_last_king_val(bm, white, 81, km);
        assert(col_of(km) == col_of(k));
        vstd::arithmetic::div_mod::lemma_mod_bound(k, 9);
        lemma_pawn_count_mirror(b, white, col_of(k));
    }
}

/// King-shelter color antisymmetry: on the color-swapped, rank-mirrored
/// position the shelter score is exactly negated. Needs the legal-play
/// invariant that each side has at most one king, so that the scans of the
/// two positions find the same king.
pub proof fn lemma_shelter_color_antisymmetric(b: Seq<i8>, p: Personality, eg: bool)
    requires
        wf_board(b),
        at_most_one_king(b, true),
        at_most_one_king(b, false),
    ensures
        shelter_score(color_swapped_mirrored(b), king_weight(p), eg) == -shelter_score(
            b,
            king_weight(p),
            eg,
        ),
{
    lemma_shelter_side_mirror(b, true, king_weight(p), eg);
    lemma_shelter_side_mirror(b, false, king_weight(p), eg);
}

} // verus!

verus! {

// ---------------------------------------------------------------------------
// Mirrored ray walks: every sliding step on the mirrored board corresponds
// to a step in the vertically flipped direction on the original.
// ---------------------------------------------------------------------------

/// The direction a ray offset becomes when the board is mirrored
/// top-to-bottom: the row component flips, the column component stays.
pub open spec fn mirror_off(off: int) -> int {
    if off == 9 {
        -9
    } else if off == -9 {
        9
    } else if off == 8 {
        -10
    } else if off == -8 {
        10
    } else if off == 10 {
        -8
    } else if off == -10 {
        8
    } else {
        off
    }
}

/// One ray step beyond `prev` stays on the board and does not wrap.
pub open spec fn ray_step_ok(from: int, prev: int, off: int) -> bool {
    in_board(prev + off) && !wrap_break(from, prev, prev + off, off)
}

/// A ray offset of the sliding families.
pub open spec fn slide_off(off: int) -> bool {
    off == 1 || off == -1 || off == 9 || off == -9 || off == 8 || off == -8 || off == 10 || off
        == -10
}

proof fn lemma_mirror_step(from: int, prev: int, off: int)
    requires
        0 <= from < 81,
        0 <= prev < 81,
        slide_off(off),
        (off == 1 || off == -1) ==> row_of(prev) == row_of(from),
        (off == 9 || off == -9) ==> col_of(prev) == col_of(from),
    ensures
        ray_step_ok(mirror_sq(from), mirror_sq(prev), mirror_off(off)) == ray_step_ok(
            from,
            prev,
            off,
        ),
        ray_step_ok(from, prev, off) ==> (mirror_sq(prev + off) == mirror_sq(prev) + mirror_off(
            off,
        ) && 0 <= prev + off < 81 && ((off == 1 || off == -1) ==> row_of(prev + off) == row_of(
            from,
        )) && ((off == 9 || off == -9) ==> col_of(prev + off) == col_of(from))),
{
    let r = row_of(prev);
    let c = col_of(prev);
    vstd::arithmetic::div_mod::lemma_fundamental_div_mod(prev, 9);
    vstd::arithmetic::div_mod::lemma_mod_bound(prev, 9);
    lemma_mirror_props(prev);
    lemma_mirror_props(from);
    if off == 1 || off == -1 {
        let c2 = c + off;
        if 0 <= c2 < 9 {
            lemma_row_col_of_cell(r, c2);
            lemma_row_col_of_cell(8 - r, c2);
            lemma_mirror_props(prev + off);
        } else if off == 1 {
            if r + 1 < 9 {
                lemma_row_col_of_cell(r + 1, 0);
            }
            if 9 - r < 9 {
                lemma_row_col_of_cell(9 - r, 0);
            }
        } else {
            if r - 1 >= 0 {
                lemma_row_col_of_cell(r - 1, 8);
            }
            if 7 - r >= 0 {
                lemma_row_col_of_cell(7 - r, 8);
            }
        }
    } else if off == 9 || off == -9 {
        let dr: int = if off == 9 {
            1
        } else {
            -1
        };
        if 0 <= r + dr < 9 {
            lemma_row_col_of_cell(r + dr, c);
            lemma_row_col_of_cell(8 - r - dr, c);
            lemma_mirror_props(prev + off);
        }
    } else {
        let dr: int = if off == 8 || off == 10 {
            1
        } else {
            -1
        };
        let dc: int = if off == 10 || off == -8 {
            1
        } else {
            -1
        };
        assert(off == 9 * dr + dc);
        assert(mirror_off(off) == -9 * dr + dc);
        if 0 <= r + dr < 9 && 0 <= c + dc < 9 {
            lemma_row_col_of_cell(r + dr, c + dc);
            lemma_row_col_of_cell(8 - r - dr, c + dc);
            lemma_mirror_props(prev + off);
        } else if c + dc == 9 {
            if 0 <= r + dr + 1 < 9 {
                lemma_row_col_of_cell(r + dr + 1, 0);
            }
            if 0 <= 9 - r - dr < 9 {
                lemma_row_col_of_cell(9 - r - dr, 0);
            }
        } else if c + dc == -1 {
            if 0 <= r + dr - 1 < 9 {
                lemma_row_col_of_cell(r + dr - 1, 8);
            }
            if 0 <= 7 - r - dr < 9 {
                lemma_row_col_of_cell(7 - r - dr, 8);
            }
        }
    }
}

} // verus!

verus! {

/// The other side's color bits, for a well-formed piece color.
pub open spec fn swap_color(col: i8) -> i8 {
    (48 - col) as i8
}

proof fn lemma_swap_cell_fields(p: i8)
    requires
        wf_cell(p),
    ensures
        (swap_cell(p) == 0) <==> (p == 0),
        type_of(swap_cell(p)) == type_of(p),
        p != 0 && color_of(p) == COLOR_WHITE ==> color_of(swap_cell(p)) == 32,
        p != 0 && color_of(p) != COLOR_WHITE ==> color_of(swap_cell(p)) == 16,
        p != 0 ==> (color_of(p) == 16 || color_of(p) == 32),
{
    if p != 0 {
        assert(17 <= p <= 25 || 33 <= p <= 41);
        if color_of(p) == COLOR_WHITE {
            assert(!((p & 48) == 16 && 33 <= p <= 41)) by (bit_vector);
            assert(((p + 16) as i8) & 15 == p & 15 && ((p + 16) as i8) & 48 == 32 && ((p + 16)
                as i8) != 0) by (bit_vector)
                requires
                    17 <= p <= 25,
            ;
        } else {
            assert(!((p & 48) != 16 && 17 <= p <= 25)) by (bit_vector);
            assert((p & 48) == 32) by (bit_vector)
                requires
                    33 <= p <= 41,
            ;
            assert(((p - 16) as i8) & 15 == p & 15 && ((p - 16) as i8) & 48 == 16 && ((p - 16)
                as i8) != 0) by (bit_vector)
                requires
                    33 <= p <= 41,
            ;
        }
    }
}

proof fn lemma_mob_ray_mirror(b: Seq<i8>, col: i8, from: int, prev: int, off: int, fuel: nat)
    requires
        wf_board(b),
        col == 16 || col == 32,
        0 <= from < 81,
        0 <= prev < 81,
        slide_off(off),
        (off == 1 || off == -1) ==> row_of(prev) == row_of(from),
        (off == 9 || off == -9) ==> col_of(prev) == col_of(from),
    ensures
        mob_ray(
            color_swapped_mirrored(b),
            swap_color(col),
            mirror_sq(from),
            mirror_sq(prev),
            mirror_off(off),
            fuel,
        ) == mob_ray(b, col, from, prev, off, fuel),
    decreases fuel,
{
    if fuel > 0 {
        lemma_mirror_step(from, prev, off);
        lemma_mirror_props(from);
        lemma_mirror_props(prev);
        if ray_step_ok(from, prev, off) {
            let curr = prev + off;
            let bm = color_swapped_mirrored(b);
            lemma_mirror_props(curr);
            assert(bm[mirror_sq(curr)] == swap_cell(b[curr]));
            lemma_swap_cell_fields(b[curr]);
            lemma_mob_ray_mirror(b, col, from, curr, off, (fuel - 1) as nat);
        }
    }
}

proof fn lemma_mob_dirs_unfold4(b: Seq<i8>, col: i8, i: int, offs: Seq<i32>)
    requires
        offs.len() == 4,
    ensures
        mob_dirs(b, col, i, offs, 4) == mob_ray(b, col, i, i, offs[0] as int, 9) + mob_ray(
            b,
            col,
            i,
            i,
            offs[1] as int,
            9,
        ) + mob_ray(b, col, i, i, offs[2] as int, 9) + mob_ray(b, col, i, i, offs[3] as int, 9),
{
    assert(mob_dirs(b, col, i, offs, 0) == 0);
    assert(mob_dirs(b, col, i, offs, 1) == mob_dirs(b, col, i, offs, 0) + mob_ray(
        b,
        col,
        i,
        i,
        offs[0] as int,
        9,
    ));
    assert(mob_dirs(b, col, i, offs, 2) == mob_dirs(b, col, i, offs, 1) + mob_ray(
        b,
        col,
        i,
        i,
        offs[1] as int,
        9,
    ));
    assert(mob_dirs(b, col, i, offs, 3) == mob_dirs(b, col, i, offs, 2) + mob_ray(
        b,
        col,
        i,
        i,
        offs[2] as int,
        9,
    ));
    assert(mob_dirs(b, col, i, offs, 4) == mob_dirs(b, col, i, offs, 3) + mob_ray(
        b,
        col,
        i,
        i,
        offs[3] as int,
        9,
    ));
}

proof fn lemma_mob_dirs_mirror(b: Seq<i8>, col: i8, i: int, bishop: bool)
    requires
        wf_board(b),
        col == 16 || col == 32,
        0 <= i < 81,
    ensures
        bishop ==> mob_dirs(
            color_swapped_mirrored(b),
            swap_color(col),
            mirror_sq(i),
            bishop_offsets(),
            4,
        ) == mob_dirs(b, col, i, bishop_offsets(), 4),
        !bishop ==> mob_dirs(
            color_swapped_mirrored(b),
            swap_color(col),
            mirror_sq(i),
            rook_offsets(),
            4,
        ) == mob_dirs(b, col, i, rook_offsets(), 4),
{
    let bm = color_swapped_mirrored(b);
    let cm = swap_color(col);
    let im = mirror_sq(i);
    lemma_mirror_props(i);
    if bishop {
        lemma_mob_ray_mirror(b, col, i, i, -10, 9);
        lemma_mob_ray_mirror(b, col, i, i, -8, 9);
        lemma_mob_ray_mirror(b, col, i, i, 8, 9);
        lemma_mob_ray_mirror(b, col, i, i, 10, 9);
        assert(bishop_offsets()[0] == -10i32 && bishop_offsets()[1] == -8i32 && bishop_offsets()[2]
            == 8i32 && bishop_offsets()[3] == 10i32);
        lemma_mob_dirs_unfold4(b, col, i, bishop_offsets());
        lemma_mob_dirs_unfold4(bm, cm, im, bishop_offsets());
    } else {
        lemma_mob_ray_mirror(b, col, i, i, -9, 9);
        lemma_mob_ray_mirror(b, col, i, i, 9, 9);
        lemma_mob_ray_mirror(b, col, i, i, -1, 9);
        lemma_mob_ray_mirror(b, col, i, i, 1, 9);
        assert(rook_offsets()[0] == -9i32 && rook_offsets()[1] == 9i32 && rook_offsets()[2]
            == -1i32 && rook_offsets()[3] == 1i32);
        lemma_mob_dirs_unfold4(b, col, i, rook_offsets());
        lemma_mob_dirs_unfold4(bm, cm, im, rook_offsets());
    }
}

} // verus!

verus! {

proof fn lemma_cell_mirror(b: Seq<i8>, i: int, aw: int, mw: int, eg: bool)
    requires
        wf_board(b),
        0 <= i < 81,
    ensures
        cell_total(color_swapped_mirrored(b), i, aw, mw, eg) == -cell_total(
            b,
            mirror_sq(i),
            aw,
            mw,
            eg,
        ),
{
    let bm = color_swapped_mirrored(b);
    lemma_mirror_props(i);
    let k = mirror_sq(i);
    lemma_mirror_props(k);
    assert(bm[i] == swap_cell(b[k]));
    lemma_swap_cell_fields(b[k]);
    if b[k] != 0 {
        let p = b[k];
        let p2 = bm[i];
        let t = type_of(p);
        assert(pst_at(t, row_of(i), col_of(i), color_of(p2), eg) == pst_at(
            t,
            row_of(k),
            col_of(k),
            color_of(p),
            eg,
        ));
        if t != PIECE_PAWN && t != PIECE_KING {
            lemma_mob_dirs_mirror(b, color_of(p), k, true);
            lemma_mob_dirs_mirror(b, color_of(p), k, false);
            assert(mobility_of(bm, i, t, color_of(p2)) == mobility_of(b, k, t, color_of(p)));
        }
    }
}

proof fn lemma_cells_row_mirror(b: Seq<i8>, aw: int, mw: int, eg: bool, r: int, j: int)
    requires
        wf_board(b),
        0 <= r < 9,
        0 <= j <= 9,
    ensures
        cells_sum(color_swapped_mirrored(b), aw, mw, eg, r * 9 + j) == cells_sum(
            color_swapped_mirrored(b),
            aw,
            mw,
            eg,
            r * 9,
        ) - (cells_sum(b, aw, mw, eg, (8 - r) * 9 + j) - cells_sum(b, aw, mw, eg, (8 - r) * 9)),
    decreases j,
{
    if j > 0 {
        lemma_cells_row_mirror(b, aw, mw, eg, r, j - 1);
        let i = r * 9 + (j - 1);
        lemma_row_col_of_cell(r, j - 1);
        assert(mirror_sq(i) == (8 - r) * 9 + (j - 1));
        lemma_cell_mirror(b, i, aw, mw, eg);
    }
}

proof fn lemma_cells_rows_mirror(b: Seq<i8>, aw: int, mw: int, eg: bool, r: int)
    requires
        wf_board(b),
        0 <= r <= 9,
    ensures
        cells_sum(color_swapped_mirrored(b), aw, mw, eg, r * 9) == -(cells_sum(b, aw, mw, eg, 81)
            - cells_sum(b, aw, mw, eg, (9 - r) * 9)),
    decreases r,
{
    if r > 0 {
        lemma_cells_rows_mirror(b, aw, mw, eg, r - 1);
        lemma_cells_row_mirror(b, aw, mw, eg, r - 1, 9);
    }
}

/// The whole per-piece sum (weighted material, piece-square value and
/// sliding mobility) is exactly negated on the color-swapped, rank-mirrored
/// position.
pub proof fn lemma_cells_color_antisymmetric(b: Seq<i8>, aw: int, mw: int, eg: bool)
    requires
        wf_board(b),
    ensures
        cells_sum(color_swapped_mirrored(b), aw, mw, eg, 81) == -cells_sum(b, aw, mw, eg, 81),
{
    lemma_cells_rows_mirror(b, aw, mw, eg, 9);
}

proof fn lemma_tdiv_neg(a: int, d: int)
    requires
        d > 0,
    ensures
        tdiv(-a, d) == -tdiv(a, d),
{
    if a == 0 {
        assert(0int / d == 0) by (nonlinear_arith)
            requires
                d > 0,
        ;
    }
}

/// Color symmetry of the evaluation: with the side-to-move convention, the
/// score of a position for White equals the score of the color-swapped,
/// rank-mirrored position for Black — the pre-perspective total is exactly
/// negated, and the perspective flip cancels the negation. Needs the
/// legal-play invariant of at most one king per side, which pins the
/// shelter term's king scan.
pub proof fn lemma_evaluate_color_symmetric(b: Seq<i8>, p: Personality)
    requires
        wf_board(b),
        at_most_one_king(b, true),
        at_most_one_king(b, false),
    ensures
        eval_score(color_swapped_mirrored(b), COLOR_BLACK, p) == eval_score(b, COLOR_WHITE, p),
{
    let bm = color_swapped_mirrored(b);
    let aw = attack_weight(p);
    let pw = pawn_weight(p);
    let kw = king_weight(p);
    let mw = material_weight(p);
    lemma_cells_color_antisymmetric(b, aw, mw, false);
    lemma_cells_color_antisymmetric(b, aw, mw, true);
    lemma_files_sum_mirror(b, pw, 9);
    lemma_shelter_color_antisymmetric(b, p, false);
    lemma_shelter_color_antisymmetric(b, p, true);
    lemma_phase_color_symmetric(b);
    let mg = 10 + cells_sum(b, aw, mw, false, 81) + files_sum(b, pw, 9) + shelter_score(
        b,
        kw,
        false,
    );
    let eg = 5 + cells_sum(b, aw, mw, true, 81) + files_sum(b, pw, 9) + shelter_score(b, kw, true);
    let ph0 = phase_prefix(b, 81);
    let ph: int = if ph0 > 32 {
        32
    } else {
        ph0
    };
    assert((-mg) * ph + (-eg) * (32 - ph) == -(mg * ph + eg * (32 - ph))) by (nonlinear_arith);
    lemma_tdiv_neg(mg * ph + eg * (32 - ph), 32);
}

} // verus!
