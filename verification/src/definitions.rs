use vstd::prelude::*;

verus! {

/// Side length of the square board.
pub const BOARD_SIZE: usize = 9;
/// Number of cells on the board.
pub const SQUARE_COUNT: usize = 81;

// Piece type codes (low four bits of a cell).
pub const PIECE_NONE: i8 = 0;
pub const PIECE_PAWN: i8 = 1;
pub const PIECE_KNIGHT: i8 = 2;
pub const PIECE_BISHOP: i8 = 3;
pub const PIECE_ROOK: i8 = 4;
pub const PIECE_QUEEN: i8 = 5;
pub const PIECE_KING: i8 = 6;
pub const PIECE_ARCHBISHOP: i8 = 7;
pub const PIECE_CHANCELLOR: i8 = 8;
pub const PIECE_ANGEL: i8 = 9;

// Color bits (two disjoint high bits).
pub const COLOR_WHITE: i8 = 16;
pub const COLOR_BLACK: i8 = 32;

pub const TYPE_MASK: i8 = 15;
pub const COLOR_MASK: i8 = 48;

// Move flags. This variant plays without en passant and without castling,
// so the only flag ever produced is the double pawn push marker.
pub const FLAG_NONE: u8 = 0;
pub const FLAG_DOUBLE: u8 = 1;

/// A move: source and destination cell indices, an optional promotion
/// piece type (reserved; the generator currently never promotes), and a
/// flag byte.
#[derive(Clone, Copy, Debug)]
#[verifier::ext_equal]
pub struct Move {
    pub from: usize,
    pub to: usize,
    pub promotion: Option<i8>,
    pub flags: u8,
}

/// A position: 81 cells in row-major order, each holding a piece encoding
/// (`colorBits | typeBits`) or zero for an empty cell.
pub type Board = Vec<i8>;

/// Row of a cell index.
pub open spec fn row_of(i: int) -> int {
    i / 9
}

/// Column of a cell index.
pub open spec fn col_of(i: int) -> int {
    i % 9
}

/// The piece type stored in a cell.
pub open spec fn type_of(p: i8) -> i8 {
    p & 15
}

/// The color bits stored in a cell.
pub open spec fn color_of(p: i8) -> i8 {
    p & 48
}

/// A cell index that lies on the board.
pub open spec fn in_board(i: int) -> bool {
    0 <= i < 81
}

/// Absolute value on mathematical integers.
pub open spec fn iabs(x: int) -> int {
    if x < 0 {
        -x
    } else {
        x
    }
}

pub fn index_to_row(index: usize) -> (r: usize)
    ensures
        r == index / 9,
{
    index / BOARD_SIZE
}

pub fn index_to_col(index: usize) -> (r: usize)
    ensures
        r == index % 9,
{
    index % BOARD_SIZE
}

pub fn coords_to_index(r: usize, c: usize) -> (idx: usize)
    requires
        r * 9 + c <= usize::MAX,
    ensures
        idx == r * 9 + c,
{
    r * BOARD_SIZE + c
}

pub fn is_valid_square(idx: i32) -> (r: bool)
    ensures
        r == in_board(idx as int),
{
    idx >= 0 && idx < SQUARE_COUNT as i32
}

impl PartialEq for Move {
    fn eq(&self, other: &Move) -> (r: bool) {
        self.from == other.from && self.to == other.to && self.flags == other.flags
            && (match (self.promotion, other.promotion) {
                (None, None) => true,
                (Some(a), Some(b)) => a == b,
                _ => false,
            })
    }
}

impl vstd::std_specs::cmp::PartialEqSpecImpl for Move {
    open spec fn obeys_eq_spec() -> bool {
        true
    }

    open spec fn eq_spec(&self, other: &Move) -> bool {
        *self == *other
    }
}

} // verus!
