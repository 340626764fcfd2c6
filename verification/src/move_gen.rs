use vstd::prelude::*;

verus! {

use crate::definitions::{
    Board, Move, iabs, in_board, row_of, col_of, type_of, color_of, COLOR_WHITE, COLOR_BLACK,
    COLOR_MASK, TYPE_MASK, PIECE_NONE, PIECE_PAWN, PIECE_KNIGHT, PIECE_BISHOP, PIECE_ROOK,
    PIECE_QUEEN, PIECE_KING, PIECE_ARCHBISHOP, PIECE_CHANCELLOR, PIECE_ANGEL, FLAG_NONE,
    FLAG_DOUBLE, SQUARE_COUNT, is_valid_square,
};

/// Reversal data for one applied move: the moved piece, what stood on the
/// target cell, and the move itself.
pub struct UndoInfo {
    pub move_obj: Move,
    pub captured: i8,
    pub piece: i8,
}

// Offset sets of the stepping and sliding piece families.

pub open spec fn knight_offsets() -> Seq<i32> {
    seq![-19i32, -17i32, -11i32, -7i32, 7i32, 11i32, 17i32, 19i32]
}

pub open spec fn king_offsets() -> Seq<i32> {
    seq![-10i32, -9i32, -8i32, -1i32, 1i32, 8i32, 9i32, 10i32]
}

pub open spec fn bishop_offsets() -> Seq<i32> {
    seq![-10i32, -8i32, 8i32, 10i32]
}

pub open spec fn rook_offsets() -> Seq<i32> {
    seq![-9i32, 9i32, -1i32, 1i32]
}

pub fn knight_offset_list() -> (v: Vec<i32>)
    ensures
        v@ == knight_offsets(),
{
    let mut v: Vec<i32> = Vec::new();
    v.push(-19);
    v.push(-17);
    v.push(-11);
    v.push(-7);
    v.push(7);
    v.push(11);
    v.push(17);
    v.push(19);
    proof {
        assert(v@ =~= knight_offsets());
    }
    v
}

pub fn king_offset_list() -> (v: Vec<i32>)
    ensures
        v@ == king_offsets(),
{
    let mut v: Vec<i32> = Vec::new();
    v.push(-10);
    v.push(-9);
    v.push(-8);
    v.push(-1);
    v.push(1);
    v.push(8);
    v.push(9);
    v.push(10);
    proof {
        assert(v@ =~= king_offsets());
    }
    v
}

pub fn bishop_offset_list() -> (v: Vec<i32>)
    ensures
        v@ == bishop_offsets(),
{
    let mut v: Vec<i32> = Vec::new();
    v.push(-10);
    v.push(-8);
    v.push(8);
    v.push(10);
    proof {
        assert(v@ =~= bishop_offsets());
    }
    v
}

pub fn rook_offset_list() -> (v: Vec<i32>)
    ensures
        v@ == rook_offsets(),
{
    let mut v: Vec<i32> = Vec::new();
    v.push(-9);
    v.push(9);
    v.push(-1);
    v.push(1);
    proof {
        assert(v@ =~= rook_offsets());
    }
    v
}

/// A plain move value without promotion.
pub open spec fn mk_move(from: int, to: int, flags: u8) -> Move {
    Move { from: from as usize, to: to as usize, promotion: None, flags }
}

/// The other side's color bits.
pub open spec fn enemy_of(color: i8) -> i8 {
    if color == COLOR_WHITE {
        COLOR_BLACK
    } else {
        COLOR_WHITE
    }
}

/// The board after a move: the moved piece lands on the target cell and the
/// source cell is emptied.
pub open spec fn board_after(b: Seq<i8>, m: Move) -> Seq<i8> {
    b.update(m.to as int, b[m.from as int]).update(m.from as int, 0)
}

// ---------------------------------------------------------------------------
// Stepping moves (knight-type offsets, and the king's one-step set).
// ---------------------------------------------------------------------------

/// A single stepping target is on the board, does not wrap around a row
/// edge, and does not hold a piece of the mover's color.
pub open spec fn step_ok(b: Seq<i8>, from: int, off: int, color: i8) -> bool {
    let to = from + off;
    &&& in_board(to)
    &&& iabs(row_of(to) - row_of(from)) <= 2
    &&& iabs(col_of(to) - col_of(from)) <= 2
    &&& (b[to] == 0 || color_of(b[to]) != color)
}

/// Stepping moves for the first `k` offsets, in offset order.
pub open spec fn stepping_prefix(b: Seq<i8>, from: int, offs: Seq<i32>, color: i8, k: int) -> Seq<
    Move,
>
    decreases k,
{
    if k <= 0 {
        Seq::empty()
    } else {
        stepping_prefix(b, from, offs, color, k - 1) + if step_ok(
            b,
            from,
            offs[k - 1] as int,
            color,
        ) {
            seq![mk_move(from, from + offs[k - 1], FLAG_NONE)]
        } else {
            Seq::empty()
        }
    }
}

pub open spec fn stepping_moves(b: Seq<i8>, from: int, offs: Seq<i32>, color: i8) -> Seq<Move> {
    stepping_prefix(b, from, offs, color, offs.len() as int)
}

pub fn generate_stepping_moves(
    board: &Board,
    from: usize,
    offsets: &Vec<i32>,
    color: i8,
    moves: &mut Vec<Move>,
)
    requires
        board@.len() == 81,
        from < 81,
        forall|k: int| 0 <= k < offsets@.len() ==> -30 <= #[trigger] offsets@[k] <= 30,
    ensures
        final(moves)@ == old(moves)@ + stepping_moves(board@, from as int, offsets@, color),
        forall|j: int|
            old(moves)@.len() <= j < final(moves)@.len() ==> (#[trigger] final(moves)@[j]).from
                < 81 && final(moves)@[j].to < 81,
{
    let ghost orig = moves@;
    let mut k: usize = 0;
    while k < offsets.len()
        invariant
            board@.len() == 81,
            from < 81,
            0 <= k <= offsets@.len(),
            forall|t: int| 0 <= t < offsets@.len() ==> -30 <= #[trigger] offsets@[t] <= 30,
            moves@ == orig + stepping_prefix(board@, from as int, offsets@, color, k as int),
            forall|j: int|
                orig.len() <= j < moves@.len() ==> (#[trigger] moves@[j]).from < 81
                    && moves@[j].to < 81,
        decreases offsets@.len() - k,
    {
        let off = offsets[k];
        let to_i = from as i32 + off;
        if is_valid_square(to_i) {
            let to = to_i as usize;
            let dr = (to / 9) as i32 - (from / 9) as i32;
            let dc = (to % 9) as i32 - (from % 9) as i32;
            if -2 <= dr && dr <= 2 && -2 <= dc && dc <= 2 {
                let target = board[to];
                if target == PIECE_NONE || (target & COLOR_MASK) != color {
                    moves.push(Move { from, to, promotion: None, flags: FLAG_NONE });
                }
            }
        }
        proof {
            assert(moves@ =~= orig + stepping_prefix(
                board@,
                from as int,
                offsets@,
                color,
                k as int + 1,
            ));
        }
        k = k + 1;
    }
}

// ---------------------------------------------------------------------------
// Sliding moves (ray walks that stop at the board edge, a wrap, or a piece).
// ---------------------------------------------------------------------------

/// The ray walk must stop at `curr`: a horizontal walk left its row, a
/// vertical walk left its column, or a diagonal step did not move exactly
/// one row and one column.
pub open spec fn wrap_break(from: int, prev: int, curr: int, off: int) -> bool {
    if off == 1 || off == -1 {
        row_of(curr) != row_of(from)
    } else if off == 9 || off == -9 {
        col_of(curr) != col_of(from)
    } else {
        iabs(row_of(curr) - row_of(prev)) != 1 || iabs(col_of(curr) - col_of(prev)) != 1
    }
}

/// The moves found along one ray, starting one step beyond `prev`. Empty
/// cells are walked through; the first enemy piece is captured and stops
/// the ray; a friendly piece stops it without a move. Nine steps bound any
/// ray on a 9x9 board.
pub open spec fn sliding_ray(
    b: Seq<i8>,
    color: i8,
    from: int,
    prev: int,
    off: int,
    fuel: nat,
) -> Seq<Move>
    decreases fuel,
{
    if fuel == 0 {
        Seq::empty()
    } else {
        let curr = prev + off;
        if !in_board(curr) {
            Seq::empty()
        } else if wrap_break(from, prev, curr, off) {
            Seq::empty()
        } else if b[curr] == 0 {
            seq![mk_move(from, curr, FLAG_NONE)] + sliding_ray(
                b,
                color,
                from,
                curr,
                off,
                (fuel - 1) as nat,
            )
        } else if color_of(b[curr]) != color {
            seq![mk_move(from, curr, FLAG_NONE)]
        } else {
            Seq::empty()
        }
    }
}

pub open spec fn sliding_prefix(b: Seq<i8>, from: int, offs: Seq<i32>, color: i8, k: int) -> Seq<
    Move,
>
    decreases k,
{
    if k <= 0 {
        Seq::empty()
    } else {
        sliding_prefix(b, from, offs, color, k - 1) + sliding_ray(
            b,
            color,
            from,
            from,
            offs[k - 1] as int,
            9,
        )
    }
}

pub open spec fn sliding_moves(b: Seq<i8>, from: int, offs: Seq<i32>, color: i8) -> Seq<Move> {
    sliding_prefix(b, from, offs, color, offs.len() as int)
}

fn slide_ray(
    board: &Board,
    from: usize,
    prev: usize,
    off: i32,
    fuel: usize,
    color: i8,
    moves: &mut Vec<Move>,
)
    requires
        board@.len() == 81,
        from < 81,
        prev < 81,
        -10 <= off <= 10,
    ensures
        final(moves)@ == old(moves)@ + sliding_ray(
            board@,
            color,
            from as int,
            prev as int,
            off as int,
            fuel as nat,
        ),
        forall|j: int|
            old(moves)@.len() <= j < final(moves)@.len() ==> (#[trigger] final(moves)@[j]).from
                < 81 && final(moves)@[j].to < 81,
    decreases fuel,
{
    if fuel == 0 {
        proof {
            assert(moves@ =~= moves@ + Seq::<Move>::empty());
        }
        return ;
    }
    let curr_i = prev as i32 + off;
    if !is_valid_square(curr_i) {
        proof {
            assert(moves@ =~= moves@ + Seq::<Move>::empty());
        }
        return ;
    }
    let curr = curr_i as usize;
    if off == 1 || off == -1 {
        if curr / 9 != from / 9 {
            proof {
                assert(moves@ =~= moves@ + Seq::<Move>::empty());
            }
            return ;
        }
    } else if off == 9 || off == -9 {
        if curr % 9 != from % 9 {
            proof {
                assert(moves@ =~= moves@ + Seq::<Move>::empty());
            }
            return ;
        }
    } else {
        let dr = (curr / 9) as i32 - (prev / 9) as i32;
        let dc = (curr % 9) as i32 - (prev % 9) as i32;
        if (dr != 1 && dr != -1) || (dc != 1 && dc != -1) {
            proof {
                assert(moves@ =~= moves@ + Seq::<Move>::empty());
            }
            return ;
        }
    }
    let ghost orig = moves@;
    let target = board[curr];
    if target == PIECE_NONE {
        moves.push(Move { from, to: curr, promotion: None, flags: FLAG_NONE });
        slide_ray(board, from, curr, off, fuel - 1, color, moves);
        proof {
            assert(moves@ =~= orig + sliding_ray(
                board@,
                color,
                from as int,
                prev as int,
                off as int,
                fuel as nat,
            ));
        }
    } else if (target & COLOR_MASK) != color {
        moves.push(Move { from, to: curr, promotion: None, flags: FLAG_NONE });
        proof {
            assert(moves@ =~= orig + sliding_ray(
                board@,
                color,
                from as int,
                prev as int,
                off as int,
                fuel as nat,
            ));
        }
    } else {
        proof {
            assert(moves@ =~= moves@ + Seq::<Move>::empty());
        }
    }
}

pub fn generate_sliding_moves(
    board: &Board,
    from: usize,
    offsets: &Vec<i32>,
    color: i8,
    moves: &mut Vec<Move>,
)
    requires
        board@.len() == 81,
        from < 81,
        forall|k: int| 0 <= k < offsets@.len() ==> -10 <= #[trigger] offsets@[k] <= 10,
    ensures
        final(moves)@ == old(moves)@ + sliding_moves(board@, from as int, offsets@, color),
        forall|j: int|
            old(moves)@.len() <= j < final(moves)@.len() ==> (#[trigger] final(moves)@[j]).from
                < 81 && final(moves)@[j].to < 81,
{
    let ghost orig = moves@;
    let mut k: usize = 0;
    while k < offsets.len()
        invariant
            board@.len() == 81,
            from < 81,
            0 <= k <= offsets@.len(),
            forall|t: int| 0 <= t < offsets@.len() ==> -10 <= #[trigger] offsets@[t] <= 10,
            moves@ == orig + sliding_prefix(board@, from as int, offsets@, color, k as int),
            forall|j: int|
                orig.len() <= j < moves@.len() ==> (#[trigger] moves@[j]).from < 81
                    && moves@[j].to < 81,
        decreases offsets@.len() - k,
    {
        let off = offsets[k];
        slide_ray(board, from, from, off, 9, color, moves);
        proof {
            assert(moves@ =~= orig + sliding_prefix(
                board@,
                from as int,
                offsets@,
                color,
                k as int + 1,
            ));
        }
        k = k + 1;
    }
}

// ---------------------------------------------------------------------------
// Pawn moves.
// ---------------------------------------------------------------------------

/// The marching direction of a pawn of the given color.
pub open spec fn pawn_dir(color: i8) -> int {
    if color == COLOR_WHITE {
        -9
    } else {
        9
    }
}

/// Forward pawn moves: one step onto an empty cell, and from the starting
/// rank two steps when both cells are empty.
pub open spec fn pawn_forward_moves(b: Seq<i8>, from: int, color: i8) -> Seq<Move> {
    let d = pawn_dir(color);
    let f = from + d;
    if in_board(f) && b[f] == 0 {
        let start = (color == COLOR_WHITE && row_of(from) == 6) || (color == COLOR_BLACK && row_of(
            from,
        ) == 2);
        if start && in_board(f + d) && b[f + d] == 0 {
            seq![mk_move(from, f, FLAG_NONE)] + seq![mk_move(from, f + d, FLAG_DOUBLE)]
        } else {
            seq![mk_move(from, f, FLAG_NONE)]
        }
    } else {
        Seq::empty()
    }
}

/// A diagonal pawn capture to one side, guarded against column wrap.
pub open spec fn pawn_capture_moves(b: Seq<i8>, from: int, color: i8, side: int) -> Seq<Move> {
    let t = from + pawn_dir(color) + side;
    if in_board(t) && iabs(col_of(from) - col_of(t)) == 1 && b[t] != 0 && color_of(b[t]) != color {
        seq![mk_move(from, t, FLAG_NONE)]
    } else {
        Seq::empty()
    }
}

pub open spec fn pawn_moves(b: Seq<i8>, from: int, color: i8) -> Seq<Move> {
    pawn_forward_moves(b, from, color) + pawn_capture_moves(b, from, color, -1)
        + pawn_capture_moves(b, from, color, 1)
}

fn pawn_capture_side(board: &Board, from: usize, color: i8, side: i32, moves: &mut Vec<Move>)
    requires
        board@.len() == 81,
        from < 81,
        side == 1 || side == -1i32,
    ensures
        final(moves)@ == old(moves)@ + pawn_capture_moves(board@, from as int, color, side as int),
        forall|j: int|
            old(moves)@.len() <= j < final(moves)@.len() ==> (#[trigger] final(moves)@[j]).from
                < 81 && final(moves)@[j].to < 81,
{
    let ghost orig = moves@;
    let direction: i32 = if color == COLOR_WHITE {
        -9
    } else {
        9
    };
    let capture = from as i32 + direction + side;
    if is_valid_square(capture) {
        let capture_idx = capture as usize;
        let dc = (from % 9) as i32 - (capture_idx % 9) as i32;
        if dc == 1 || dc == -1 {
            let target = board[capture_idx];
            if target != PIECE_NONE && (target & COLOR_MASK) != color {
                moves.push(Move { from, to: capture_idx, promotion: None, flags: FLAG_NONE });
            }
        }
    }
    proof {
        assert(moves@ =~= orig + pawn_capture_moves(board@, from as int, color, side as int));
    }
}

pub fn generate_pawn_moves(board: &Board, from: usize, color: i8, moves: &mut Vec<Move>)
    requires
        board@.len() == 81,
        from < 81,
    ensures
        final(moves)@ == old(moves)@ + pawn_moves(board@, from as int, color),
        forall|j: int|
            old(moves)@.len() <= j < final(moves)@.len() ==> (#[trigger] final(moves)@[j]).from
                < 81 && final(moves)@[j].to < 81,
{
    let ghost orig = moves@;
    let direction: i32 = if color == COLOR_WHITE {
        -9
    } else {
        9
    };
    let rank = from / 9;
    let forward_i = from as i32 + direction;
    if is_valid_square(forward_i) {
        let forward = forward_i as usize;
        if board[forward] == PIECE_NONE {
            moves.push(Move { from, to: forward, promotion: None, flags: FLAG_NONE });
            let is_start = (color == COLOR_WHITE && rank == 6) || (color == COLOR_BLACK && rank
                == 2);
            if is_start {
                let double_i = forward_i + direction;
                if is_valid_square(double_i) {
                    let double_forward = double_i as usize;
                    if board[double_forward] == PIECE_NONE {
                        moves.push(
                            Move { from, to: double_forward, promotion: None, flags: FLAG_DOUBLE },
                        );
                    }
                }
            }
        }
    }
    proof {
        assert(moves@ =~= orig + pawn_forward_moves(board@, from as int, color));
    }
    pawn_capture_side(board, from, color, -1, moves);
    pawn_capture_side(board, from, color, 1, moves);
    proof {
        assert(moves@ =~= orig + pawn_moves(board@, from as int, color));
    }
}

// ---------------------------------------------------------------------------
// Per-piece dispatch and the pseudo-legal move list.
// ---------------------------------------------------------------------------

/// Piece types that move with knight steps.
pub open spec fn is_knight_mover(t: i8) -> bool {
    t == PIECE_KNIGHT || t == PIECE_ARCHBISHOP || t == PIECE_CHANCELLOR || t == PIECE_ANGEL
}

/// Piece types that slide along diagonals.
pub open spec fn is_bishop_slider(t: i8) -> bool {
    t == PIECE_BISHOP || t == PIECE_ARCHBISHOP || t == PIECE_QUEEN || t == PIECE_ANGEL
}

/// Piece types that slide along ranks and files.
pub open spec fn is_rook_slider(t: i8) -> bool {
    t == PIECE_ROOK || t == PIECE_CHANCELLOR || t == PIECE_QUEEN || t == PIECE_ANGEL
}

/// All pseudo-legal moves of a non-pawn piece, grouped by movement family.
pub open spec fn piece_moves(b: Seq<i8>, from: int, t: i8, color: i8) -> Seq<Move> {
    (if is_knight_mover(t) {
        stepping_moves(b, from, knight_offsets(), color)
    } else {
        Seq::empty()
    }) + (if t == PIECE_KING {
        stepping_moves(b, from, king_offsets(), color)
    } else {
        Seq::empty()
    }) + (if is_bishop_slider(t) {
        sliding_moves(b, from, bishop_offsets(), color)
    } else {
        Seq::empty()
    }) + (if is_rook_slider(t) {
        sliding_moves(b, from, rook_offsets(), color)
    } else {
        Seq::empty()
    })
}

pub fn generate_piece_moves(
    board: &Board,
    from: usize,
    piece_type: i8,
    color: i8,
    moves: &mut Vec<Move>,
)
    requires
        board@.len() == 81,
        from < 81,
    ensures
        final(moves)@ == old(moves)@ + piece_moves(board@, from as int, piece_type, color),
        forall|j: int|
            old(moves)@.len() <= j < final(moves)@.len() ==> (#[trigger] final(moves)@[j]).from
                < 81 && final(moves)@[j].to < 81,
{
    let ghost orig = moves@;
    if piece_type == PIECE_KNIGHT || piece_type == PIECE_ARCHBISHOP || piece_type
        == PIECE_CHANCELLOR || piece_type == PIECE_ANGEL {
        let offs = knight_offset_list();
        generate_stepping_moves(board, from, &offs, color, moves);
    }
    if piece_type == PIECE_KING {
        let offs = king_offset_list();
        generate_stepping_moves(board, from, &offs, color, moves);
    }
    if piece_type == PIECE_BISHOP || piece_type == PIECE_ARCHBISHOP || piece_type == PIECE_QUEEN
        || piece_type == PIECE_ANGEL {
        let offs = bishop_offset_list();
        generate_sliding_moves(board, from, &offs, color, moves);
    }
    if piece_type == PIECE_ROOK || piece_type == PIECE_CHANCELLOR || piece_type == PIECE_QUEEN
        || piece_type == PIECE_ANGEL {
        let offs = rook_offset_list();
        generate_sliding_moves(board, from, &offs, color, moves);
    }
    proof {
        assert(moves@ =~= orig + piece_moves(board@, from as int, piece_type, color));
    }
}

/// The pseudo-legal moves contributed by one cell.
pub open spec fn cell_moves(b: Seq<i8>, i: int, color: i8) -> Seq<Move> {
    if b[i] != 0 && color_of(b[i]) == color {
        if type_of(b[i]) == PIECE_PAWN {
            pawn_moves(b, i, color)
        } else {
            piece_moves(b, i, type_of(b[i]), color)
        }
    } else {
        Seq::empty()
    }
}

/// Pseudo-legal moves of the first `n` cells, in cell order.
pub open spec fn pseudo_prefix(b: Seq<i8>, color: i8, n: int) -> Seq<Move>
    decreases n,
{
    if n <= 0 {
        Seq::empty()
    } else {
        pseudo_prefix(b, color, n - 1) + cell_moves(b, n - 1, color)
    }
}

pub open spec fn pseudo_moves(b: Seq<i8>, color: i8) -> Seq<Move> {
    pseudo_prefix(b, color, 81)
}

// ---------------------------------------------------------------------------
// Attack detection.
// ---------------------------------------------------------------------------

/// A pawn of the attacker stands one diagonal step behind the square.
pub open spec fn pawn_attack_origin(b: Seq<i8>, sq: int, att: i8, o: int) -> bool {
    let f = sq + o;
    &&& in_board(f)
    &&& iabs(col_of(sq) - col_of(f)) == 1
    &&& color_of(b[f]) == att
    &&& type_of(b[f]) == PIECE_PAWN
}

pub open spec fn pawn_attacks(b: Seq<i8>, sq: int, att: i8) -> bool {
    let fwd = pawn_dir(att);
    pawn_attack_origin(b, sq, att, -(fwd - 1)) || pawn_attack_origin(b, sq, att, -(fwd + 1))
}

/// A knight-mover of the attacker stands a knight step away.
pub open spec fn knight_attack_origin(b: Seq<i8>, sq: int, att: i8, off: int) -> bool {
    let f = sq - off;
    &&& in_board(f)
    &&& iabs(row_of(f) - row_of(sq)) <= 2
    &&& iabs(col_of(f) - col_of(sq)) <= 2
    &&& b[f] != 0
    &&& color_of(b[f]) == att
    &&& is_knight_mover(type_of(b[f]))
}

pub open spec fn knight_attacks(b: Seq<i8>, sq: int, att: i8) -> bool {
    exists|k: int| 0 <= k < 8 && knight_attack_origin(b, sq, att, knight_offsets()[k] as int)
}

/// The attacker's king stands one step away.
pub open spec fn king_attack_origin(b: Seq<i8>, sq: int, att: i8, off: int) -> bool {
    let f = sq - off;
    &&& in_board(f)
    &&& iabs(col_of(sq) - col_of(f)) <= 1
    &&& b[f] != 0
    &&& color_of(b[f]) == att
    &&& type_of(b[f]) == PIECE_KING
}

pub open spec fn king_attacks(b: Seq<i8>, sq: int, att: i8) -> bool {
    exists|k: int| 0 <= k < 8 && king_attack_origin(b, sq, att, king_offsets()[k] as int)
}

/// Walking outward from the square, the first piece met along the ray is an
/// attacker piece of one of the given sliding types.
pub open spec fn ray_attack(
    b: Seq<i8>,
    prev: int,
    off: int,
    att: i8,
    types: Seq<i8>,
    fuel: nat,
) -> bool
    decreases fuel,
{
    if fuel == 0 {
        false
    } else {
        let curr = prev + off;
        if !in_board(curr) {
            false
        } else if iabs(row_of(curr) - row_of(prev)) > 1 || iabs(col_of(curr) - col_of(prev)) > 1 {
            false
        } else if b[curr] != 0 {
            color_of(b[curr]) == att && types.contains(type_of(b[curr]))
        } else {
            ray_attack(b, curr, off, att, types, (fuel - 1) as nat)
        }
    }
}

pub open spec fn ray_attacks(b: Seq<i8>, sq: int, att: i8, offs: Seq<i32>, types: Seq<i8>) -> bool {
    exists|k: int| 0 <= k < offs.len() && ray_attack(b, sq, offs[k] as int, att, types, 9)
}

/// The diagonal sliding family.
pub open spec fn bishop_family() -> Seq<i8> {
    seq![PIECE_BISHOP, PIECE_QUEEN, PIECE_ARCHBISHOP, PIECE_ANGEL]
}

/// The rank-and-file sliding family.
pub open spec fn rook_family() -> Seq<i8> {
    seq![PIECE_ROOK, PIECE_QUEEN, PIECE_CHANCELLOR, PIECE_ANGEL]
}

/// The square is attacked by the given color: by a pawn, a knight step, the
/// king, a diagonal slider, or a rank-and-file slider.
pub open spec fn attacked(b: Seq<i8>, sq: int, att: i8) -> bool {
    ||| pawn_attacks(b, sq, att)
    ||| knight_attacks(b, sq, att)
    ||| king_attacks(b, sq, att)
    ||| ray_attacks(b, sq, att, bishop_offsets(), bishop_family())
    ||| ray_attacks(b, sq, att, rook_offsets(), rook_family())
}

fn pawn_attack_from(board: &Board, square: usize, att: i8, o: i32) -> (r: bool)
    requires
        board@.len() == 81,
        square < 81,
        -10 <= o <= 10,
    ensures
        r == pawn_attack_origin(board@, square as int, att, o as int),
{
    let from_i = square as i32 + o;
    if is_valid_square(from_i) {
        let from_idx = from_i as usize;
        let dc = (square % 9) as i32 - (from_idx % 9) as i32;
        if dc == 1 || dc == -1 {
            let p = board[from_idx];
            (p & COLOR_MASK) == att && (p & TYPE_MASK) == PIECE_PAWN
        } else {
            false
        }
    } else {
        false
    }
}

fn contains_type(types: &Vec<i8>, t: i8) -> (r: bool)
    ensures
        r == types@.contains(t),
{
    let mut k: usize = 0;
    while k < types.len()
        invariant
            0 <= k <= types@.len(),
            forall|j: int| 0 <= j < k ==> types@[j] != t,
        decreases types@.len() - k,
    {
        if types[k] == t {
            return true;
        }
        k = k + 1;
    }
    false
}

fn ray_attack_step(
    board: &Board,
    prev: usize,
    off: i32,
    att: i8,
    types: &Vec<i8>,
    fuel: usize,
) -> (r: bool)
    requires
        board@.len() == 81,
        prev < 81,
        -10 <= off <= 10,
    ensures
        r == ray_attack(board@, prev as int, off as int, att, types@, fuel as nat),
    decreases fuel,
{
    if fuel == 0 {
        return false;
    }
    let curr_i = prev as i32 + off;
    if !is_valid_square(curr_i) {
        return false;
    }
    let curr = curr_i as usize;
    let dr = (curr / 9) as i32 - (prev / 9) as i32;
    let dc = (curr % 9) as i32 - (prev % 9) as i32;
    if dr > 1 || dr < -1 || dc > 1 || dc < -1 {
        return false;
    }
    let p = board[curr];
    if p != PIECE_NONE {
        (p & COLOR_MASK) == att && contains_type(types, p & TYPE_MASK)
    } else {
        ray_attack_step(board, curr, off, att, types, fuel - 1)
    }
}

pub fn check_ray_attacks(
    board: &Board,
    square: usize,
    offsets: &Vec<i32>,
    attacker_color: i8,
    valid_types: &Vec<i8>,
) -> (r: bool)
    requires
        board@.len() == 81,
        square < 81,
        forall|k: int| 0 <= k < offsets@.len() ==> -10 <= #[trigger] offsets@[k] <= 10,
    ensures
        r == ray_attacks(board@, square as int, attacker_color, offsets@, valid_types@),
{
    let mut k: usize = 0;
    while k < offsets.len()
        invariant
            board@.len() == 81,
            square < 81,
            0 <= k <= offsets@.len(),
            forall|t: int| 0 <= t < offsets@.len() ==> -10 <= #[trigger] offsets@[t] <= 10,
            forall|j: int|
                0 <= j < k ==> !ray_attack(
                    board@,
                    square as int,
                    #[trigger] offsets@[j] as int,
                    attacker_color,
                    valid_types@,
                    9,
                ),
        decreases offsets@.len() - k,
    {
        if ray_attack_step(board, square, offsets[k], attacker_color, valid_types, 9) {
            return true;
        }
        k = k + 1;
    }
    false
}

/// Decide whether the given color attacks the square, by origin search for
/// every movement family.
pub fn is_square_attacked(board: &Board, square: usize, attacker_color: i8) -> (r: bool)
    requires
        board@.len() == 81,
        square < 81,
    ensures
        r == attacked(board@, square as int, attacker_color),
{
    let forward: i32 = if attacker_color == COLOR_WHITE {
        -9
    } else {
        9
    };
    if pawn_attack_from(board, square, attacker_color, -(forward - 1)) {
        return true;
    }
    if pawn_attack_from(board, square, attacker_color, -(forward + 1)) {
        return true;
    }
    let knight_offs = knight_offset_list();
    let mut k: usize = 0;
    while k < knight_offs.len()
        invariant
            board@.len() == 81,
            square < 81,
            knight_offs@ == knight_offsets(),
            0 <= k <= 8,
            forall|j: int|
                0 <= j < k ==> !knight_attack_origin(
                    board@,
                    square as int,
                    attacker_color,
                    knight_offsets()[j] as int,
                ),
        decreases 8 - k,
    {
        let off = knight_offs[k];
        let from_i = square as i32 - off;
        if is_valid_square(from_i) {
            let from_idx = from_i as usize;
            let dr = (from_idx / 9) as i32 - (square / 9) as i32;
            let dc = (from_idx % 9) as i32 - (square % 9) as i32;
            if -2 <= dr && dr <= 2 && -2 <= dc && dc <= 2 {
                let p = board[from_idx];
                if p != PIECE_NONE && (p & COLOR_MASK) == attacker_color {
                    let t = p & TYPE_MASK;
                    if t == PIECE_KNIGHT || t == PIECE_ARCHBISHOP || t == PIECE_CHANCELLOR || t
                        == PIECE_ANGEL {
                        proof {
                            assert(knight_attack_origin(
                                board@,
                                square as int,
                                attacker_color,
                                knight_offsets()[k as int] as int,
                            ));
                        }
                        return true;
                    }
                }
            }
        }
        k = k + 1;
    }
    let king_offs = king_offset_list();
    let mut k2: usize = 0;
    while k2 < king_offs.len()
        invariant
            board@.len() == 81,
            square < 81,
            king_offs@ == king_offsets(),
            0 <= k2 <= 8,
            forall|j: int|
                0 <= j < k2 ==> !king_attack_origin(
                    board@,
                    square as int,
                    attacker_color,
                    king_offsets()[j] as int,
                ),
        decreases 8 - k2,
    {
        let off = king_offs[k2];
        let from_i = square as i32 - off;
        if is_valid_square(from_i) {
            let from_idx = from_i as usize;
            let dc = (square % 9) as i32 - (from_idx % 9) as i32;
            if -1 <= dc && dc <= 1 {
                let p = board[from_idx];
                if p != PIECE_NONE && (p & COLOR_MASK) == attacker_color && (p & TYPE_MASK)
                    == PIECE_KING {
                    proof {
                        assert(king_attack_origin(
                            board@,
                            square as int,
                            attacker_color,
                            king_offsets()[k2 as int] as int,
                        ));
                    }
                    return true;
                }
            }
        }
        k2 = k2 + 1;
    }
    let bishop_offs = bishop_offset_list();
    let mut bishop_types: Vec<i8> = Vec::new();
    bishop_types.push(PIECE_BISHOP);
    bishop_types.push(PIECE_QUEEN);
    bishop_types.push(PIECE_ARCHBISHOP);
    bishop_types.push(PIECE_ANGEL);
    proof {
        assert(bishop_types@ =~= bishop_family());
    }
    if check_ray_attacks(board, square, &bishop_offs, attacker_color, &bishop_types) {
        return true;
    }
    let rook_offs = rook_offset_list();
    let mut rook_types: Vec<i8> = Vec::new();
    rook_types.push(PIECE_ROOK);
    rook_types.push(PIECE_QUEEN);
    rook_types.push(PIECE_CHANCELLOR);
    rook_types.push(PIECE_ANGEL);
    proof {
        assert(rook_types@ =~= rook_family());
    }
    if check_ray_attacks(board, square, &rook_offs, attacker_color, &rook_types) {
        return true;
    }
    false
}

// ---------------------------------------------------------------------------
// King search, applying and reversing moves.
// ---------------------------------------------------------------------------

/// The first cell at or after `i` that holds the king of the given color,
/// or 81 when there is none.
pub open spec fn find_king_from(b: Seq<i8>, color: i8, i: int) -> int
    decreases 81 - i,
{
    if i < 0 || i >= 81 {
        81
    } else if type_of(b[i]) == PIECE_KING && color_of(b[i]) == color {
        i
    } else {
        find_king_from(b, color, i + 1)
    }
}

fn find_king_rec(board: &Board, color: i8, i: usize) -> (r: usize)
    requires
        board@.len() == 81,
        i <= 81,
    ensures
        r == find_king_from(board@, color, i as int),
        r <= 81,
    decreases 81 - i,
{
    if i >= 81 {
        return 81;
    }
    let p = board[i];
    if (p & TYPE_MASK) == PIECE_KING && (p & COLOR_MASK) == color {
        i
    } else {
        find_king_rec(board, color, i + 1)
    }
}

/// The king scan yields an index at or after its start, or 81 for "none".
pub proof fn lemma_find_king_range(b: Seq<i8>, color: i8, i: int)
    requires
        0 <= i <= 81,
    ensures
        i <= find_king_from(b, color, i) <= 81,
    decreases 81 - i,
{
    if i < 81 && !(type_of(b[i]) == PIECE_KING && color_of(b[i]) == color) {
        lemma_find_king_range(b, color, i + 1);
    }
}

/// Locate the king of the given color, or `usize::MAX` when it is not on
/// the board.
pub fn find_king(board: &Board, color: i8) -> (r: usize)
    requires
        board@.len() == 81,
    ensures
        find_king_from(board@, color, 0) < 81 ==> r == find_king_from(board@, color, 0),
        find_king_from(board@, color, 0) == 81 ==> r == usize::MAX,
{
    let k = find_king_rec(board, color, 0);
    if k < 81 {
        k
    } else {
        usize::MAX
    }
}

/// Apply a move to the board and hand back what is needed to reverse it.
pub fn make_move(board: &mut Board, m: Move) -> (undo: UndoInfo)
    requires
        old(board)@.len() == 81,
        m.from < 81,
        m.to < 81,
    ensures
        final(board)@ == board_after(old(board)@, m),
        final(board)@.len() == 81,
        undo.move_obj == m,
        undo.piece == old(board)@[m.from as int],
        undo.captured == old(board)@[m.to as int],
{
    let piece = board[m.from];
    let captured = board[m.to];
    board.set(m.to, piece);
    board.set(m.from, PIECE_NONE);
    UndoInfo { move_obj: m, captured, piece }
}

/// Reverse a move applied by `make_move`.
pub fn undo_move(board: &mut Board, undo: UndoInfo)
    requires
        old(board)@.len() == 81,
        undo.move_obj.from < 81,
        undo.move_obj.to < 81,
    ensures
        final(board)@ == old(board)@.update(undo.move_obj.from as int, undo.piece).update(
            undo.move_obj.to as int,
            undo.captured,
        ),
        final(board)@.len() == 81,
{
    board.set(undo.move_obj.from, undo.piece);
    board.set(undo.move_obj.to, undo.captured);
}

/// Applying a legal move and reversing it restores the position exactly.
pub proof fn lemma_make_undo_roundtrip(b: Seq<i8>, m: Move)
    requires
        b.len() == 81,
        m.from < 81,
        m.to < 81,
    ensures
        board_after(b, m).update(m.from as int, b[m.from as int]).update(
            m.to as int,
            b[m.to as int],
        ) == b,
{
    assert(board_after(b, m).update(m.from as int, b[m.from as int]).update(
        m.to as int,
        b[m.to as int],
    ) =~= b);
}

// ---------------------------------------------------------------------------
// Legal moves: pseudo-legal moves filtered by king safety.
// ---------------------------------------------------------------------------

/// Where the mover's king stands after the move.
pub open spec fn king_square_after(kp: int, m: Move) -> int {
    if m.from as int == kp {
        m.to as int
    } else {
        kp
    }
}

/// After the move, the mover's king (if on the board) is not attacked by
/// the opponent.
pub open spec fn king_safe(b: Seq<i8>, color: i8, kp: int, m: Move) -> bool {
    let ks = king_square_after(kp, m);
    !in_board(ks) || !attacked(board_after(b, m), ks, enemy_of(color))
}

/// The king-safe moves among the first `n` of the list, in order.
pub open spec fn safe_prefix(b: Seq<i8>, color: i8, kp: int, ms: Seq<Move>, n: int) -> Seq<Move>
    decreases n,
{
    if n <= 0 {
        Seq::empty()
    } else {
        safe_prefix(b, color, kp, ms, n - 1) + if king_safe(b, color, kp, ms[n - 1]) {
            seq![ms[n - 1]]
        } else {
            Seq::empty()
        }
    }
}

/// The legal moves of a side: its pseudo-legal moves that leave its own
/// king safe.
pub open spec fn legal_moves(b: Seq<i8>, color: i8) -> Seq<Move> {
    let ps = pseudo_moves(b, color);
    safe_prefix(b, color, find_king_from(b, color, 0), ps, ps.len() as int)
}

/// Every member of a king-safety filtered list passes the king-safety test.
pub proof fn lemma_safe_prefix_members(
    b: Seq<i8>,
    color: i8,
    kp: int,
    ms: Seq<Move>,
    n: int,
    j: int,
)
    requires
        0 <= j < safe_prefix(b, color, kp, ms, n).len(),
    ensures
        king_safe(b, color, kp, safe_prefix(b, color, kp, ms, n)[j]),
    decreases n,
{
    if n <= 0 {
    } else {
        let pre = safe_prefix(b, color, kp, ms, n - 1);
        if j < pre.len() {
            lemma_safe_prefix_members(b, color, kp, ms, n - 1, j);
        }
    }
}

/// Every move the generator returns leaves the mover's own king safe.
pub proof fn lemma_legal_moves_keep_king_safe(b: Seq<i8>, color: i8, j: int)
    requires
        0 <= j < legal_moves(b, color).len(),
    ensures
        king_safe(b, color, find_king_from(b, color, 0), legal_moves(b, color)[j]),
{
    let ps = pseudo_moves(b, color);
    lemma_safe_prefix_members(
        b,
        color,
        find_king_from(b, color, 0),
        ps,
        ps.len() as int,
        j,
    );
}

pub fn clone_board(board: &Board) -> (r: Board)
    requires
        board@.len() == 81,
    ensures
        r@ == board@,
{
    let mut v: Vec<i8> = Vec::new();
    let mut i: usize = 0;
    while i < 81
        invariant
            board@.len() == 81,
            0 <= i <= 81,
            v@ == board@.subrange(0, i as int),
        decreases 81 - i,
    {
        v.push(board[i]);
        proof {
            assert(v@ =~= board@.subrange(0, i as int + 1));
        }
        i = i + 1;
    }
    proof {
        assert(v@ =~= board@);
    }
    v
}

/// Generate the legal moves of a side: pseudo-legal generation per piece,
/// then a king-safety filter that applies each move to a scratch copy.
pub fn get_all_legal_moves(board: &Board, color: i8) -> (r: Vec<Move>)
    requires
        board@.len() == 81,
    ensures
        r@ == legal_moves(board@, color),
        forall|j: int|
            0 <= j < r@.len() ==> (#[trigger] r@[j]).from < 81 && r@[j].to < 81,
        forall|j: int|
            0 <= j < r@.len() ==> king_safe(
                board@,
                color,
                find_king_from(board@, color, 0),
                #[trigger] r@[j],
            ),
{
    let mut moves: Vec<Move> = Vec::new();
    let mut from: usize = 0;
    while from < SQUARE_COUNT
        invariant
            board@.len() == 81,
            0 <= from <= 81,
            moves@ == pseudo_prefix(board@, color, from as int),
            forall|j: int|
                0 <= j < moves@.len() ==> (#[trigger] moves@[j]).from < 81 && moves@[j].to < 81,
        decreases 81 - from,
    {
        let piece = board[from];
        if piece != PIECE_NONE && (piece & COLOR_MASK) == color {
            let piece_type = piece & TYPE_MASK;
            if piece_type == PIECE_PAWN {
                generate_pawn_moves(board, from, color, &mut moves);
            } else {
                generate_piece_moves(board, from, piece_type, color, &mut moves);
            }
        }
        proof {
            assert(moves@ =~= pseudo_prefix(board@, color, from as int + 1));
        }
        from = from + 1;
    }
    let enemy_color = if color == COLOR_WHITE {
        COLOR_BLACK
    } else {
        COLOR_WHITE
    };
    let my_king_pos = find_king(board, color);
    let ghost kp = find_king_from(board@, color, 0);
    proof {
        lemma_find_king_range(board@, color, 0);
    }
    let mut legal: Vec<Move> = Vec::new();
    let mut idx: usize = 0;
    while idx < moves.len()
        invariant
            board@.len() == 81,
            0 <= idx <= moves@.len(),
            moves@ == pseudo_moves(board@, color),
            forall|j: int|
                0 <= j < moves@.len() ==> (#[trigger] moves@[j]).from < 81 && moves@[j].to < 81,
            kp == find_king_from(board@, color, 0),
            0 <= kp <= 81,
            kp < 81 ==> my_king_pos == kp,
            kp == 81 ==> my_king_pos == usize::MAX,
            enemy_color == enemy_of(color),
            legal@ == safe_prefix(board@, color, kp, moves@, idx as int),
            forall|j: int|
                0 <= j < legal@.len() ==> (#[trigger] legal@[j]).from < 81 && legal@[j].to < 81,
        decreases moves@.len() - idx,
    {
        let m = moves[idx];
        let mut temp_board = clone_board(board);
        make_move(&mut temp_board, m);
        let king_pos = if m.from == my_king_pos {
            m.to
        } else {
            my_king_pos
        };
        let keep = if king_pos < SQUARE_COUNT {
            !is_square_attacked(&temp_board, king_pos, enemy_color)
        } else {
            true
        };
        proof {
            assert(keep == king_safe(board@, color, kp, m));
        }
        if keep {
            legal.push(m);
        }
        proof {
            assert(legal@ =~= safe_prefix(board@, color, kp, moves@, idx as int + 1));
        }
        idx = idx + 1;
    }
    proof {
        assert forall|j: int| 0 <= j < legal@.len() implies king_safe(
            board@,
            color,
            find_king_from(board@, color, 0),
            #[trigger] legal@[j],
        ) by {
            lemma_legal_moves_keep_king_safe(board@, color, j);
        }
    }
    legal
}

/// The capturing moves among the first `n` legal moves.
pub open spec fn capture_prefix(b: Seq<i8>, ms: Seq<Move>, n: int) -> Seq<Move>
    decreases n,
{
    if n <= 0 {
        Seq::empty()
    } else {
        capture_prefix(b, ms, n - 1) + if b[ms[n - 1].to as int] != 0 {
            seq![ms[n - 1]]
        } else {
            Seq::empty()
        }
    }
}

/// The legal moves that land on an occupied cell.
pub open spec fn capture_moves(b: Seq<i8>, color: i8) -> Seq<Move> {
    let ls = legal_moves(b, color);
    capture_prefix(b, ls, ls.len() as int)
}

/// The legal moves filtered to captures; used by the quiescence search.
pub fn get_all_capture_moves(board: &Board, color: i8) -> (r: Vec<Move>)
    requires
        board@.len() == 81,
    ensures
        r@ == capture_moves(board@, color),
        forall|j: int|
            0 <= j < r@.len() ==> (#[trigger] r@[j]).from < 81 && r@[j].to < 81,
{
    let all = get_all_legal_moves(board, color);
    let mut caps: Vec<Move> = Vec::new();
    let mut idx: usize = 0;
    while idx < all.len()
        invariant
            board@.len() == 81,
            0 <= idx <= all@.len(),
            all@ == legal_moves(board@, color),
            forall|j: int|
                0 <= j < all@.len() ==> (#[trigger] all@[j]).from < 81 && all@[j].to < 81,
            caps@ == capture_prefix(board@, all@, idx as int),
            forall|j: int|
                0 <= j < caps@.len() ==> (#[trigger] caps@[j]).from < 81 && caps@[j].to < 81,
        decreases all@.len() - idx,
    {
        let m = all[idx];
        if board[m.to] != PIECE_NONE {
            caps.push(m);
        }
        proof {
            assert(caps@ =~= capture_prefix(board@, all@, idx as int + 1));
        }
        idx = idx + 1;
    }
    caps
}

} // verus!

verus! {

// ---------------------------------------------------------------------------
// Occupancy: capture moves strictly shrink the number of pieces, which
// bounds the quiescence recursion.
// ---------------------------------------------------------------------------

/// Number of occupied cells among the first `n`.
pub open spec fn occupied_prefix(b: Seq<i8>, n: int) -> int
    decreases n,
{
    if n <= 0 {
        0
    } else {
        occupied_prefix(b, n - 1) + if b[n - 1] != 0 {
            1int
        } else {
            0
        }
    }
}

/// Number of occupied cells of the position.
pub open spec fn occupied(b: Seq<i8>) -> int {
    occupied_prefix(b, 81)
}

pub proof fn lemma_occupied_nonneg(b: Seq<i8>, n: int)
    ensures
        0 <= occupied_prefix(b, n),
    decreases n,
{
    if n > 0 {
        lemma_occupied_nonneg(b, n - 1);
    }
}

proof fn lemma_occupied_update(b: Seq<i8>, j: int, v: i8, n: int)
    requires
        0 <= j < b.len(),
        n <= b.len(),
    ensures
        occupied_prefix(b.update(j, v), n) == occupied_prefix(b, n) + (if j < n {
            (if v != 0 {
                1int
            } else {
                0
            }) - (if b[j] != 0 {
                1int
            } else {
                0
            })
        } else {
            0
        }),
    decreases n,
{
    if n > 0 {
        lemma_occupied_update(b, j, v, n - 1);
    }
}

/// Applying a move that lands on an occupied cell reduces the number of
/// occupied cells by exactly one.
pub proof fn lemma_capture_reduces_occupancy(b: Seq<i8>, m: Move)
    requires
        b.len() == 81,
        m.from < 81,
        m.to < 81,
        b[m.to as int] != 0,
    ensures
        occupied(board_after(b, m)) == occupied(b) - 1,
{
    let b1 = b.update(m.to as int, b[m.from as int]);
    lemma_occupied_update(b, m.to as int, b[m.from as int], 81);
    lemma_occupied_update(b1, m.from as int, 0, 81);
}

proof fn lemma_capture_prefix_members(b: Seq<i8>, ms: Seq<Move>, n: int, j: int)
    requires
        0 <= j < capture_prefix(b, ms, n).len(),
    ensures
        b[capture_prefix(b, ms, n)[j].to as int] != 0,
    decreases n,
{
    if n > 0 {
        let pre = capture_prefix(b, ms, n - 1);
        if j < pre.len() {
            lemma_capture_prefix_members(b, ms, n - 1, j);
        }
    }
}

/// Every move in the capture list lands on an occupied cell.
pub proof fn lemma_capture_moves_are_captures(b: Seq<i8>, color: i8, j: int)
    requires
        0 <= j < capture_moves(b, color).len(),
    ensures
        b[capture_moves(b, color)[j].to as int] != 0,
{
    let ls = legal_moves(b, color);
    lemma_capture_prefix_members(b, ls, ls.len() as int, j);
}

} // verus!

verus! {

proof fn lemma_occupied_prefix_pos(b: Seq<i8>, j: int, n: int)
    requires
        0 <= j < 81,
        b[j] != 0,
        n <= 81,
    ensures
        j < n ==> occupied_prefix(b, n) >= 1,
    decreases n,
{
    if n > 0 {
        lemma_occupied_prefix_pos(b, j, n - 1);
        lemma_occupied_nonneg(b, n - 1);
    }
}

/// A position with any occupied cell has at least one occupied cell.
pub proof fn lemma_occupied_pos(b: Seq<i8>, j: int)
    requires
        0 <= j < 81,
        b[j] != 0,
    ensures
        occupied(b) >= 1,
{
    lemma_occupied_prefix_pos(b, j, 81);
}

} // verus!
