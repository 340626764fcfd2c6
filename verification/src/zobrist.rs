use vstd::prelude::*;

verus! {

use crate::definitions::{Board, COLOR_WHITE, SQUARE_COUNT};

/// Seed of the key-table generator chain.
pub const ZOBRIST_SEED: u64 = 123456789;
/// Seed of the side-to-move key.
pub const SIDE_SEED: u64 = 987654321;
/// Number of piece-code slots in the key table.
pub const PIECE_SLOTS: usize = 64;
/// Total number of keys: one per (piece code, square) pair.
pub const KEY_COUNT: usize = 5184;

/// One xorshift step of the key generator.
pub open spec fn xorshift_step(x: u64) -> u64 {
    let a = x ^ (x << 13);
    let b = a ^ (a >> 7);
    b ^ (b << 17)
}

/// The n-th value of the generator chain started from `ZOBRIST_SEED`.
pub open spec fn seed_at(n: nat) -> u64
    decreases n,
{
    if n == 0 {
        xorshift_step(ZOBRIST_SEED)
    } else {
        xorshift_step(seed_at((n - 1) as nat))
    }
}

/// The side-to-move key.
pub open spec fn side_key() -> u64 {
    xorshift_step(SIDE_SEED)
}

/// The immutable table of position-fingerprint keys, indexed by
/// `pieceCode * 81 + square`. Built once from a fixed seed and passed by
/// reference wherever a position hash is computed.
pub struct ZobristTable {
    pub keys: Vec<u64>,
}

/// A fully and correctly built key table.
pub open spec fn table_wf(t: ZobristTable) -> bool {
    &&& t.keys@.len() == KEY_COUNT
    &&& forall|k: int| 0 <= k < KEY_COUNT ==> t.keys@[k] == seed_at(k as nat)
}

pub fn xorshift64(x: u64) -> (r: u64)
    ensures
        r == xorshift_step(x),
{
    let mut x = x;
    x = x ^ (x << 13);
    x = x ^ (x >> 7);
    x = x ^ (x << 17);
    x
}

/// Build the key table deterministically from the fixed seed.
pub fn get_zobrist_keys() -> (t: ZobristTable)
    ensures
        table_wf(t),
{
    let mut keys: Vec<u64> = Vec::new();
    let mut seed: u64 = ZOBRIST_SEED;
    let mut i: usize = 0;
    while i < KEY_COUNT
        invariant
            0 <= i <= KEY_COUNT,
            keys@.len() == i,
            i == 0 ==> seed == ZOBRIST_SEED,
            i > 0 ==> seed == seed_at((i - 1) as nat),
            forall|k: int| 0 <= k < i ==> keys@[k] == seed_at(k as nat),
        decreases KEY_COUNT - i,
    {
        seed = xorshift64(seed);
        assert(seed == seed_at(i as nat));
        keys.push(seed);
        i = i + 1;
    }
    ZobristTable { keys }
}

pub fn get_side_key() -> (r: u64)
    ensures
        r == side_key(),
{
    xorshift64(SIDE_SEED)
}

/// The key contribution of one cell: the key of its piece code and square,
/// or zero for an empty cell or a code outside the table.
pub open spec fn hash_cell(b: Seq<i8>, i: int) -> u64 {
    if b[i] != 0 && 0 <= b[i] < 64 {
        seed_at((b[i] * 81 + i) as nat)
    } else {
        0
    }
}

/// XOR of the key contributions of the first `n` cells.
pub open spec fn hash_prefix(b: Seq<i8>, n: int) -> u64
    decreases n,
{
    if n <= 0 {
        0
    } else {
        hash_prefix(b, n - 1) ^ hash_cell(b, n - 1)
    }
}

/// The position fingerprint: every occupied cell's key XOR-ed together,
/// with the side key XOR-ed in when the first color is to move.
pub open spec fn hash_of(b: Seq<i8>, color: i8) -> u64 {
    if color == COLOR_WHITE {
        hash_prefix(b, 81) ^ side_key()
    } else {
        hash_prefix(b, 81)
    }
}

/// Recompute the fingerprint of a position from scratch.
pub fn compute_hash(t: &ZobristTable, board: &Board, color: i8) -> (r: u64)
    requires
        table_wf(*t),
        board@.len() == 81,
    ensures
        r == hash_of(board@, color),
{
    let mut hash: u64 = 0;
    let mut i: usize = 0;
    while i < SQUARE_COUNT
        invariant
            0 <= i <= 81,
            board@.len() == 81,
            table_wf(*t),
            hash == hash_prefix(board@, i as int),
        decreases 81 - i,
    {
        let p = board[i];
        if p > 0 && p < 64 {
            hash = hash ^ t.keys[(p as usize) * 81 + i];
        } else {
            assert(hash_cell(board@, i as int) == 0u64);
            assert(hash ^ 0u64 == hash) by (bit_vector);
        }
        i = i + 1;
    }
    if color == COLOR_WHITE {
        hash = hash ^ get_side_key();
    }
    hash
}

} // verus!
