use vstd::prelude::*;

verus! {

use crate::definitions::{
    Board, Move, type_of, PIECE_PAWN, PIECE_KNIGHT, PIECE_BISHOP, PIECE_ROOK, PIECE_QUEEN,
    PIECE_KING, PIECE_ARCHBISHOP, PIECE_CHANCELLOR, PIECE_ANGEL, PIECE_NONE, TYPE_MASK,
};

/// Score of the transposition-recommended move: above everything else.
pub const HASH_MOVE_SCORE: i32 = 3000000;
/// Floor for capture scores: above killers and history.
pub const WINNING_CAPTURE_SCORE: i32 = 2000000;
/// Score of a quiet move in the ply's first killer slot.
pub const KILLER_ONE_SCORE: i32 = 900000;
/// Score of a quiet move in the ply's second killer slot.
pub const KILLER_TWO_SCORE: i32 = 800000;

/// Piece values used only for capture ordering (the angel is valued
/// differently here than in the evaluator).
pub open spec fn order_value(t: i8) -> int {
    if t == PIECE_PAWN {
        100
    } else if t == PIECE_KNIGHT {
        320
    } else if t == PIECE_BISHOP {
        330
    } else if t == PIECE_ROOK {
        500
    } else if t == PIECE_QUEEN {
        900
    } else if t == PIECE_KING {
        20000
    } else if t == PIECE_ARCHBISHOP {
        600
    } else if t == PIECE_CHANCELLOR {
        700
    } else if t == PIECE_ANGEL {
        1000
    } else {
        0
    }
}

fn order_value_of(t: i8) -> (r: i32)
    ensures
        r == order_value(t),
        0 <= r <= 20000,
{
    if t == PIECE_PAWN {
        100
    } else if t == PIECE_KNIGHT {
        320
    } else if t == PIECE_BISHOP {
        330
    } else if t == PIECE_ROOK {
        500
    } else if t == PIECE_QUEEN {
        900
    } else if t == PIECE_KING {
        20000
    } else if t == PIECE_ARCHBISHOP {
        600
    } else if t == PIECE_CHANCELLOR {
        700
    } else if t == PIECE_ANGEL {
        1000
    } else {
        0
    }
}

/// The ordering score of one move: the transposition move first, then
/// captures by most-valuable-victim least-valuable-attacker, then the
/// ply's killer moves, then the move's history score.
pub open spec fn move_score(
    b: Seq<i8>,
    m: Move,
    tt_move: Option<Move>,
    killers: Seq<Option<Move>>,
    history: Seq<i32>,
    ply: int,
) -> int {
    let tt_hit = match tt_move {
        Some(tm) => m.from == tm.from && m.to == tm.to,
        None => false,
    };
    if tt_hit {
        HASH_MOVE_SCORE as int
    } else {
        let target = b[m.to as int];
        if target != 0 {
            WINNING_CAPTURE_SCORE + order_value(type_of(target)) * 10 - order_value(
                type_of(b[m.from as int]),
            )
        } else if ply < 64 {
            if killers[2 * ply] == Some(m) {
                KILLER_ONE_SCORE as int
            } else if killers[2 * ply + 1] == Some(m) {
                KILLER_TWO_SCORE as int
            } else {
                history[m.from as int * 81 + m.to as int] as int
            }
        } else {
            0
        }
    }
}

fn score_of(
    board: &Board,
    m: Move,
    tt_move: Option<Move>,
    killer_moves: &Vec<Option<Move>>,
    history: &Vec<i32>,
    ply: usize,
) -> (r: i32)
    requires
        board@.len() == 81,
        killer_moves@.len() == 128,
        history@.len() == 6561,
        m.from < 81,
        m.to < 81,
        forall|j: int| 0 <= j < 6561 ==> 0 <= #[trigger] history@[j] <= 100_000,
    ensures
        r == move_score(board@, m, tt_move, killer_moves@, history@, ply as int),
        0 <= r <= HASH_MOVE_SCORE,
{
    let tt_hit = match tt_move {
        Some(tm) => m.from == tm.from && m.to == tm.to,
        None => false,
    };
    if tt_hit {
        return HASH_MOVE_SCORE;
    }
    let target = board[m.to];
    if target != PIECE_NONE {
        let victim_val = order_value_of(target & TYPE_MASK);
        let attacker_val = order_value_of(board[m.from] & TYPE_MASK);
        WINNING_CAPTURE_SCORE + victim_val * 10 - attacker_val
    } else if ply < 64 {
        let k1 = match killer_moves[2 * ply] {
            Some(km) => km == m,
            None => false,
        };
        if k1 {
            KILLER_ONE_SCORE
        } else {
            let k2 = match killer_moves[2 * ply + 1] {
                Some(km) => km == m,
                None => false,
            };
            if k2 {
                KILLER_TWO_SCORE
            } else {
                history[m.from * 81 + m.to]
            }
        }
    } else {
        0
    }
}

/// Scores paired with their moves, for the first `k` moves, in order.
pub open spec fn scored_prefix(
    b: Seq<i8>,
    ms: Seq<Move>,
    tt_move: Option<Move>,
    killers: Seq<Option<Move>>,
    history: Seq<i32>,
    ply: int,
    k: int,
) -> Seq<(Move, i32)>
    decreases k,
{
    if k <= 0 {
        Seq::empty()
    } else {
        scored_prefix(b, ms, tt_move, killers, history, ply, k - 1) + seq![
            (ms[k - 1], move_score(b, ms[k - 1], tt_move, killers, history, ply) as i32),
        ]
    }
}

/// Insert a scored move into the tail `s[i..]` of a descending list, after
/// every entry whose score is at least as high: a stable descending
/// insertion.
pub open spec fn insert_desc(s: Seq<(Move, i32)>, i: int, x: (Move, i32)) -> Seq<(Move, i32)>
    decreases s.len() - i,
{
    if i < 0 || i >= s.len() {
        seq![x]
    } else if s[i].1 >= x.1 {
        seq![s[i]] + insert_desc(s, i + 1, x)
    } else {
        seq![x] + s.subrange(i, s.len() as int)
    }
}

/// Stable descending sort by score: each element in turn is inserted after
/// the already-sorted elements that score at least as high, so ties keep
/// their generation order.
pub open spec fn sort_desc(s: Seq<(Move, i32)>) -> Seq<(Move, i32)>
    decreases s.len(),
{
    if s.len() == 0 {
        Seq::empty()
    } else {
        insert_desc(sort_desc(s.drop_last()), 0, s.last())
    }
}

/// The move appears somewhere in the list.
pub open spec fn move_among(m: Move, ms: Seq<Move>) -> bool {
    exists|k: int| 0 <= k < ms.len() && m == #[trigger] ms[k]
}

/// All moves in a scored list lie on the board.
pub open spec fn scored_ok(s: Seq<(Move, i32)>) -> bool {
    forall|j: int| 0 <= j < s.len() ==> (#[trigger] s[j]).0.from < 81 && s[j].0.to < 81
}

fn insert_move(v: &Vec<(Move, i32)>, i: usize, x: (Move, i32)) -> (r: Vec<(Move, i32)>)
    requires
        i <= v@.len(),
        scored_ok(v@),
        x.0.from < 81,
        x.0.to < 81,
    ensures
        r@ == insert_desc(v@, i as int, x),
        r@.len() == v@.len() - i + 1,
        scored_ok(r@),
    decreases v@.len() - i,
{
    if i >= v.len() {
        let mut out: Vec<(Move, i32)> = Vec::new();
        out.push(x);
        proof {
            assert(out@ =~= seq![x]);
        }
        out
    } else if v[i].1 >= x.1 {
        let mut rest = insert_move(v, i + 1, x);
        rest.insert(0, v[i]);
        proof {
            assert(rest@ =~= seq![v@[i as int]] + insert_desc(v@, i as int + 1, x));
        }
        rest
    } else {
        let mut out: Vec<(Move, i32)> = Vec::new();
        out.push(x);
        let mut j: usize = i;
        while j < v.len()
            invariant
                i <= j <= v@.len(),
                scored_ok(v@),
                x.0.from < 81,
                x.0.to < 81,
                out@ == seq![x] + v@.subrange(i as int, j as int),
                scored_ok(out@),
            decreases v@.len() - j,
        {
            out.push(v[j]);
            proof {
                assert(out@ =~= seq![x] + v@.subrange(i as int, j as int + 1));
            }
            j = j + 1;
        }
        proof {
            assert(out@ =~= seq![x] + v@.subrange(i as int, v@.len() as int));
        }
        out
    }
}

/// Reorder a move list in place, highest ordering score first; ties keep
/// their generation order.
pub fn order_moves(
    board: &Board,
    moves: &mut Vec<Move>,
    tt_move: Option<Move>,
    killer_moves: &Vec<Option<Move>>,
    history: &Vec<i32>,
    ply: usize,
)
    requires
        board@.len() == 81,
        killer_moves@.len() == 128,
        history@.len() == 6561,
        forall|j: int|
            0 <= j < old(moves)@.len() ==> (#[trigger] old(moves)@[j]).from < 81
                && old(moves)@[j].to < 81,
        forall|j: int| 0 <= j < 6561 ==> 0 <= #[trigger] history@[j] <= 100_000,
    ensures
        final(moves)@ == sort_desc(
            scored_prefix(
                board@,
                old(moves)@,
                tt_move,
                killer_moves@,
                history@,
                ply as int,
                old(moves)@.len() as int,
            ),
        ).map_values(|p: (Move, i32)| p.0),
        final(moves)@.len() == old(moves)@.len(),
        forall|j: int|
            0 <= j < final(moves)@.len() ==> (#[trigger] final(moves)@[j]).from < 81
                && final(moves)@[j].to < 81,
        forall|j: int|
            0 <= j < final(moves)@.len() ==> move_among(#[trigger] final(moves)@[j], old(moves)@),
{
    let ghost orig = moves@;
    let n = moves.len();
    let mut sorted: Vec<(Move, i32)> = Vec::new();
    let mut idx: usize = 0;
    while idx < n
        invariant
            board@.len() == 81,
            killer_moves@.len() == 128,
            history@.len() == 6561,
            forall|j: int| 0 <= j < 6561 ==> 0 <= #[trigger] history@[j] <= 100_000,
            moves@ == orig,
            n == orig.len(),
            forall|j: int| 0 <= j < orig.len() ==> (#[trigger] orig[j]).from < 81 && orig[j].to < 81,
            0 <= idx <= n,
            sorted@ == sort_desc(
                scored_prefix(
                    board@,
                    orig,
                    tt_move,
                    killer_moves@,
                    history@,
                    ply as int,
                    idx as int,
                ),
            ),
            sorted@.len() == idx,
            scored_ok(sorted@),
        decreases n - idx,
    {
        let m = moves[idx];
        let sc = score_of(board, m, tt_move, killer_moves, history, ply);
        let x = (m, sc);
        let next = insert_move(&sorted, 0, x);
        proof {
            let pre = scored_prefix(
                board@,
                orig,
                tt_move,
                killer_moves@,
                history@,
                ply as int,
                idx as int,
            );
            let full = scored_prefix(
                board@,
                orig,
                tt_move,
                killer_moves@,
                history@,
                ply as int,
                idx as int + 1,
            );
            assert(full =~= pre + seq![x]);
            assert(full.drop_last() =~= pre);
            assert(full.last() == x);
            assert(next@ == sort_desc(full));
        }
        sorted = next;
        idx = idx + 1;
    }
    let mut i: usize = 0;
    while i < n
        invariant
            0 <= i <= n,
            moves@.len() == n,
            sorted@.len() == n,
            scored_ok(sorted@),
            sorted@ == sort_desc(
                scored_prefix(
                    board@,
                    orig,
                    tt_move,
                    killer_moves@,
                    history@,
                    ply as int,
                    n as int,
                ),
            ),
            forall|j: int| 0 <= j < i ==> moves@[j] == (#[trigger] sorted@[j]).0,
            forall|j: int|
                i <= j < n ==> (#[trigger] moves@[j]).from < 81 && moves@[j].to < 81,
        decreases n - i,
    {
        let p = sorted[i];
        moves.set(i, p.0);
        i = i + 1;
    }
    proof {
        assert(moves@ =~= sorted@.map_values(|p: (Move, i32)| p.0));
        let scored_full = scored_prefix(
            board@,
            orig,
            tt_move,
            killer_moves@,
            history@,
            ply as int,
            n as int,
        );
        assert forall|j: int| 0 <= j < moves@.len() implies move_among(
            #[trigger] moves@[j],
            orig,
        ) by {
            lemma_scored_len(board@, orig, tt_move, killer_moves@, history@, ply as int, n as int);
            lemma_sort_members(scored_full, j);
            assert(sorted@ == sort_desc(scored_full));
            let k0 = choose|k0: int|
                0 <= k0 < scored_full.len() && sort_desc(scored_full)[j] == #[trigger] scored_full[k0];
            assert(0 <= k0 < n);
            lemma_scored_index(
                board@,
                orig,
                tt_move,
                killer_moves@,
                history@,
                ply as int,
                n as int,
                k0,
            );
            assert(moves@[j] == orig[k0]);
            assert(move_among(moves@[j], orig));
        }
    }
}

proof fn lemma_scored_len(
    b: Seq<i8>,
    ms: Seq<Move>,
    tt_move: Option<Move>,
    killers: Seq<Option<Move>>,
    history: Seq<i32>,
    ply: int,
    k: int,
)
    requires
        k >= 0,
    ensures
        scored_prefix(b, ms, tt_move, killers, history, ply, k).len() == k,
    decreases k,
{
    if k > 0 {
        lemma_scored_len(b, ms, tt_move, killers, history, ply, k - 1);
    }
}

proof fn lemma_scored_index(
    b: Seq<i8>,
    ms: Seq<Move>,
    tt_move: Option<Move>,
    killers: Seq<Option<Move>>,
    history: Seq<i32>,
    ply: int,
    k: int,
    j: int,
)
    requires
        0 <= j < k,
    ensures
        scored_prefix(b, ms, tt_move, killers, history, ply, k).len() == k,
        scored_prefix(b, ms, tt_move, killers, history, ply, k)[j].0 == ms[j],
    decreases k,
{
    lemma_scored_len(b, ms, tt_move, killers, history, ply, k);
    if j < k - 1 {
        lemma_scored_index(b, ms, tt_move, killers, history, ply, k - 1, j);
    } else {
        lemma_scored_len(b, ms, tt_move, killers, history, ply, k - 1);
    }
}

proof fn lemma_insert_members(s: Seq<(Move, i32)>, i: int, x: (Move, i32), j: int)
    requires
        0 <= i,
        0 <= j < insert_desc(s, i, x).len(),
    ensures
        insert_desc(s, i, x)[j] == x || (exists|k: int|
            i <= k < s.len() && insert_desc(s, i, x)[j] == #[trigger] s[k]),
    decreases s.len() - i,
{
    if i >= s.len() {
    } else if s[i].1 >= x.1 {
        if j == 0 {
            assert(insert_desc(s, i, x)[j] == s[i]);
        } else {
            lemma_insert_members(s, i + 1, x, j - 1);
        }
    } else {
        if j == 0 {
        } else {
            assert(insert_desc(s, i, x)[j] == s[i + j - 1]);
        }
    }
}

proof fn lemma_sort_members(s: Seq<(Move, i32)>, j: int)
    requires
        0 <= j < sort_desc(s).len(),
    ensures
        exists|k: int| 0 <= k < s.len() && sort_desc(s)[j] == #[trigger] s[k],
    decreases s.len(),
{
    let pre = s.drop_last();
    lemma_insert_members(sort_desc(pre), 0, s.last(), j);
    if sort_desc(s)[j] == s.last() {
        assert(sort_desc(s)[j] == s[s.len() - 1]);
    } else {
        let k0 = choose|k0: int|
            0 <= k0 < sort_desc(pre).len() && sort_desc(s)[j] == sort_desc(pre)[k0];
        lemma_sort_members(pre, k0);
        let k1 = choose|k1: int| 0 <= k1 < pre.len() && sort_desc(pre)[k0] == pre[k1];
        assert(sort_desc(s)[j] == s[k1]);
    }
}

} // verus!
