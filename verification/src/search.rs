use vstd::prelude::*;

verus! {

use crate::definitions::{Board, Move, COLOR_WHITE, COLOR_BLACK, PIECE_NONE, SQUARE_COUNT};
use crate::move_gen::{
    get_all_legal_moves, get_all_capture_moves, make_move, is_square_attacked, find_king,
    legal_moves, find_king_from, attacked, enemy_of, board_after, occupied, clone_board,
    lemma_occupied_nonneg, lemma_capture_reduces_occupancy, lemma_capture_moves_are_captures,
    capture_moves, king_safe, lemma_legal_moves_keep_king_safe, lemma_occupied_pos,
};
use crate::eval::{evaluate_position, EvalConfig, rating_ok, eval_score, noise_bound, Personality};
use crate::zobrist::{ZobristTable, table_wf, get_zobrist_keys, compute_hash, hash_of};
use crate::ordering::{order_moves, move_among, sort_desc, scored_prefix};

/// Number of transposition-table slots; a stored entry is overwritten by
/// the next position that hashes to its slot.
pub const TT_SIZE: usize = 65536;

/// Score of an immediate checkmate against the side to move; a mate found
/// `ply` levels down scores `MATE_SCORE + ply`, so faster mates win.
pub const MATE_SCORE: i32 = -30000;

/// Ceiling for a history-table entry; an update that would pass it first
/// halves every entry.
pub const HISTORY_CEILING: i32 = 100_000;

// Bound kinds of a stored transposition entry.
pub const TT_EXACT: u8 = 0;
pub const TT_ALPHA: u8 = 1;
pub const TT_BETA: u8 = 2;

/// One transposition entry: the full hash (to detect slot collisions), the
/// depth it was searched to, its score with the bound kind, and the best
/// move found.
#[derive(Clone, Copy)]
pub struct TTEntry {
    pub hash: u64,
    pub depth: i8,
    pub score: i32,
    pub flag: u8,
    pub best_move: Option<Move>,
}

/// Per-search mutable state: node counter, transposition table, an unused
/// cancellation flag, two killer slots per ply (64 plies), and the history
/// table indexed by `from * 81 + to`.
pub struct SearchContext {
    pub nodes: u64,
    pub tt: Vec<Option<TTEntry>>,
    pub stop: bool,
    pub killer_moves: Vec<Option<Move>>,
    pub history: Vec<i32>,
}

/// The node counter steps with wraparound.
pub open spec fn bump64(n: u64) -> u64 {
    if n == u64::MAX {
        0u64
    } else {
        (n + 1) as u64
    }
}

/// The table slot of a hash.
pub open spec fn tt_slot(h: u64) -> int {
    h as int % (TT_SIZE as int)
}

pub open spec fn probe_entry(tt: Seq<Option<TTEntry>>, h: u64) -> Option<TTEntry> {
    tt[tt_slot(h)]
}

/// The entry, if any, was searched no deeper than the given depth.
pub open spec fn entry_depth_at_most(e: Option<TTEntry>, d: i8) -> bool {
    match e {
        Some(e) => e.depth <= d,
        None => true,
    }
}

/// A stored entry's score is within the mate window.
pub open spec fn entry_score_ok(e: Option<TTEntry>) -> bool {
    match e {
        Some(e) => -30000 <= e.score <= 30000,
        None => true,
    }
}

/// Well-formed search state: tables have their fixed sizes, every history
/// entry is within the aging ceiling, and every stored score is within the
/// mate window.
pub open spec fn ctx_wf(c: SearchContext) -> bool {
    &&& c.tt@.len() == TT_SIZE
    &&& c.killer_moves@.len() == 128
    &&& c.history@.len() == 6561
    &&& forall|j: int| 0 <= j < 6561 ==> 0 <= #[trigger] c.history@[j] <= HISTORY_CEILING
    &&& forall|j: int| 0 <= j < TT_SIZE ==> entry_score_ok(#[trigger] c.tt@[j])
}

/// The probe answers the node without a visit to any child: the slot holds
/// an entry for this very hash, deep enough, and its bound kind cuts at
/// this window.
pub open spec fn tt_cut_hit(
    tt: Seq<Option<TTEntry>>,
    h: u64,
    depth: i8,
    alpha: i32,
    beta: i32,
) -> bool {
    match probe_entry(tt, h) {
        Some(e) => e.hash == h && e.depth >= depth && (e.flag == TT_EXACT || (e.flag == TT_ALPHA
            && e.score <= alpha) || (e.flag == TT_BETA && e.score >= beta)),
        None => false,
    }
}

/// What such a probe answers: the stored move, with the stored score for an
/// exact entry, `alpha` for an upper bound, `beta` for a lower bound.
pub open spec fn tt_cut_result(
    tt: Seq<Option<TTEntry>>,
    h: u64,
    depth: i8,
    alpha: i32,
    beta: i32,
) -> (Option<Move>, i32) {
    match probe_entry(tt, h) {
        Some(e) => if e.flag == TT_EXACT {
            (e.best_move, e.score)
        } else if e.flag == TT_ALPHA {
            (e.best_move, alpha)
        } else {
            (e.best_move, beta)
        },
        None => (None, 0),
    }
}

/// The bound kind a finished node stores, classified against its original
/// window.
pub open spec fn bound_flag(score: i32, alpha: i32, beta: i32) -> u8 {
    if score <= alpha {
        TT_ALPHA
    } else if score >= beta {
        TT_BETA
    } else {
        TT_EXACT
    }
}

/// The side to move has its king on the board and attacked.
pub open spec fn king_in_check(b: Seq<i8>, color: i8) -> bool {
    let k = find_king_from(b, color, 0);
    k < 81 && attacked(b, k, enemy_of(color))
}

fn empty_tt() -> (v: Vec<Option<TTEntry>>)
    ensures
        v@.len() == TT_SIZE,
        forall|j: int| 0 <= j < TT_SIZE ==> (#[trigger] v@[j]) is None,
{
    let mut v: Vec<Option<TTEntry>> = Vec::new();
    let mut i: usize = 0;
    while i < TT_SIZE
        invariant
            0 <= i <= TT_SIZE,
            v@.len() == i,
            forall|j: int| 0 <= j < i ==> (#[trigger] v@[j]) is None,
        decreases TT_SIZE - i,
    {
        v.push(None);
        i = i + 1;
    }
    v
}

fn empty_killers() -> (v: Vec<Option<Move>>)
    ensures
        v@.len() == 128,
        forall|j: int| 0 <= j < 128 ==> (#[trigger] v@[j]) is None,
{
    let mut v: Vec<Option<Move>> = Vec::new();
    let mut i: usize = 0;
    while i < 128
        invariant
            0 <= i <= 128,
            v@.len() == i,
            forall|j: int| 0 <= j < i ==> (#[trigger] v@[j]) is None,
        decreases 128 - i,
    {
        v.push(None);
        i = i + 1;
    }
    v
}

fn empty_history() -> (v: Vec<i32>)
    ensures
        v@.len() == 6561,
        forall|j: int| 0 <= j < 6561 ==> #[trigger] v@[j] == 0,
{
    let mut v: Vec<i32> = Vec::new();
    let mut i: usize = 0;
    while i < 6561
        invariant
            0 <= i <= 6561,
            v@.len() == i,
            forall|j: int| 0 <= j < i ==> #[trigger] v@[j] == 0,
        decreases 6561 - i,
    {
        v.push(0);
        i = i + 1;
    }
    v
}

/// The killer table a quiescence node orders with: empty.
pub open spec fn no_killers() -> Seq<Option<Move>> {
    Seq::new(128, |i: int| None)
}

/// The history table a quiescence node orders with: zeros.
pub open spec fn no_history() -> Seq<i32> {
    Seq::new(6561, |i: int| 0i32)
}

/// The captures of a position, in the order the quiescence search tries
/// them.
pub open spec fn ordered_captures(b: Seq<i8>, color: i8) -> Seq<Move> {
    sort_desc(
        scored_prefix(
            b,
            capture_moves(b, color),
            None,
            no_killers(),
            no_history(),
            0,
            capture_moves(b, color).len() as int,
        ),
    ).map_values(|p: (Move, i32)| p.0)
}

/// The fail-hard value of a leaf score against a window: clipped to `beta`
/// above and raised to `alpha` below.
pub open spec fn window_value(alpha: int, beta: int, s: int) -> int {
    if s >= beta {
        beta
    } else if s > alpha {
        s
    } else {
        alpha
    }
}

/// The quiescence value of a position, clause for clause as the search
/// computes it: the stand-pat evaluation fails high or raises the window,
/// then the ordered captures are searched in turn. `fuel` bounds the
/// capture chain; the number of occupied cells always suffices.
pub open spec fn q_value(
    b: Seq<i8>,
    alpha: int,
    beta: int,
    color: i8,
    p: Personality,
    fuel: nat,
) -> int
    decreases fuel, 1int, 0int,
{
    let sp = eval_score(b, color, p);
    if sp >= beta {
        beta
    } else {
        let a = if sp > alpha {
            sp
        } else {
            alpha
        };
        q_loop(b, ordered_captures(b, color), 0, a, beta, color, p, fuel)
    }
}

/// The quiescence capture loop from capture `i` on, with running window
/// floor `a`.
pub open spec fn q_loop(
    b: Seq<i8>,
    caps: Seq<Move>,
    i: int,
    a: int,
    beta: int,
    color: i8,
    p: Personality,
    fuel: nat,
) -> int
    decreases fuel, 0int, caps.len() - i,
{
    if i < 0 || i >= caps.len() || fuel == 0 {
        a
    } else {
        let s = -q_value(
            board_after(b, caps[i]),
            -beta,
            -a,
            enemy_of(color),
            p,
            (fuel - 1) as nat,
        );
        if s >= beta {
            beta
        } else {
            q_loop(
                b,
                caps,
                i + 1,
                if s > a {
                    s
                } else {
                    a
                },
                beta,
                color,
                p,
                fuel,
            )
        }
    }
}

/// Capture-only search at the horizon: stand-pat evaluation, then every
/// capture in order, recursing until no captures remain. Each capture
/// removes a piece, which bounds the recursion.
pub fn quiescence(board: &Board, alpha: i32, beta: i32, color: i8, config: &EvalConfig) -> (r: i32)
    requires
        board@.len() == 81,
        rating_ok(*config),
        -30000 <= alpha <= 30000,
        -30000 <= beta <= 30000,
    ensures
        -30000 <= r <= 30000,
        alpha <= beta ==> alpha <= r <= beta,
        noise_bound(*config) == 0 ==> r as int == q_value(
            board@,
            alpha as int,
            beta as int,
            color,
            config.personality,
            occupied(board@) as nat,
        ),
        eval_score(board@, color, config.personality) >= beta + noise_bound(*config) ==> r == beta,
        (noise_bound(*config) == 0 && capture_moves(board@, color).len() == 0 && alpha <= beta)
            ==> r as int == window_value(
            alpha as int,
            beta as int,
            eval_score(board@, color, config.personality),
        ),
        (capture_moves(board@, color).len() == 0 && alpha <= beta) ==> (window_value(
            alpha as int,
            beta as int,
            eval_score(board@, color, config.personality) - noise_bound(*config),
        ) <= r as int <= window_value(
            alpha as int,
            beta as int,
            eval_score(board@, color, config.personality) + noise_bound(*config),
        )),
    decreases occupied(board@),
{
    let ghost ev = eval_score(board@, color, config.personality);
    let ghost nb = noise_bound(*config);
    let ghost fuel = occupied(board@) as nat;
    proof {
        lemma_occupied_nonneg(board@, 81);
    }
    let stand_pat = evaluate_position(board, color, config);
    if stand_pat >= beta {
        return beta;
    }
    let mut a = alpha;
    if stand_pat > a {
        a = stand_pat;
    }
    let mut captures = get_all_capture_moves(board, color);
    let ghost caps0 = captures@;
    let dummy_killers = empty_killers();
    let dummy_history = empty_history();
    order_moves(board, &mut captures, None, &dummy_killers, &dummy_history, 0);
    proof {
        assert(dummy_killers@ =~= no_killers());
        assert(dummy_history@ =~= no_history());
        assert(captures@ == ordered_captures(board@, color));
    }
    let enemy_color = if color == COLOR_WHITE {
        COLOR_BLACK
    } else {
        COLOR_WHITE
    };
    let mut i: usize = 0;
    while i < captures.len()
        invariant
            board@.len() == 81,
            rating_ok(*config),
            -30000 <= beta <= 30000,
            -30000 <= a <= 30000,
            alpha <= a,
            alpha <= beta ==> a <= beta,
            enemy_color == enemy_of(color),
            caps0 == capture_moves(board@, color),
            captures@ == ordered_captures(board@, color),
            captures@.len() == caps0.len(),
            ev == eval_score(board@, color, config.personality),
            nb == noise_bound(*config),
            fuel == occupied(board@) as nat,
            stand_pat < beta,
            nb == 0 ==> stand_pat as int == ev,
            ev - nb <= stand_pat as int <= ev + nb,
            caps0.len() == 0 ==> a as int == (if stand_pat as int > alpha as int {
                stand_pat as int
            } else {
                alpha as int
            }),
            nb == 0 ==> q_value(
                board@,
                alpha as int,
                beta as int,
                color,
                config.personality,
                fuel,
            ) == q_loop(
                board@,
                captures@,
                i as int,
                a as int,
                beta as int,
                color,
                config.personality,
                fuel,
            ),
            forall|j: int|
                0 <= j < captures@.len() ==> (#[trigger] captures@[j]).from < 81
                    && captures@[j].to < 81,
            forall|j: int|
                0 <= j < captures@.len() ==> move_among(#[trigger] captures@[j], caps0),
            0 <= i <= captures@.len(),
        decreases captures@.len() - i,
    {
        let m = captures[i];
        proof {
            assert(move_among(m, caps0));
            let k = choose|k: int| 0 <= k < caps0.len() && m == #[trigger] caps0[k];
            lemma_capture_moves_are_captures(board@, color, k);
            lemma_capture_reduces_occupancy(board@, m);
            lemma_occupied_nonneg(board_after(board@, m), 81);
            lemma_occupied_pos(board@, m.to as int);
        }
        let mut next_board = clone_board(board);
        make_move(&mut next_board, m);
        let down = quiescence(&next_board, -beta, -a, enemy_color, config);
        let score = -down;
        if score >= beta {
            proof {
                if nb == 0 {
                    assert(q_loop(
                        board@,
                        captures@,
                        i as int,
                        a as int,
                        beta as int,
                        color,
                        config.personality,
                        fuel,
                    ) == beta as int);
                }
            }
            return beta;
        }
        if score > a {
            a = score;
        }
        i = i + 1;
    }
    proof {
        if nb == 0 {
            assert(q_loop(
                board@,
                captures@,
                i as int,
                a as int,
                beta as int,
                color,
                config.personality,
                fuel,
            ) == a as int);
        }
        if caps0.len() == 0 && alpha <= beta {
            assert(window_value(alpha as int, beta as int, ev - nb) <= a as int);
            assert(a as int <= window_value(alpha as int, beta as int, ev + nb));
        }
        assert(!(ev >= beta + nb));
    }
    a
}


/// The table state one search run threads through its nodes, as the
/// mirror of `SearchContext`.
#[verifier::ext_equal]
pub ghost struct SState {
    pub nodes: u64,
    pub tt: Seq<Option<TTEntry>>,
    pub killers: Seq<Option<Move>>,
    pub history: Seq<i32>,
}

/// The state a context holds.
pub open spec fn ctx_view(c: SearchContext) -> SState {
    SState { nodes: c.nodes, tt: c.tt@, killers: c.killer_moves@, history: c.history@ }
}

/// One aged history cell: halved, rounding down.
pub open spec fn halve_cell(v: i32) -> i32 {
    ((v as int) / 2) as i32
}

/// The move a probe hands the orderer: the stored move when the slot holds
/// this very hash.
pub open spec fn tt_hint(tt: Seq<Option<TTEntry>>, h: u64) -> Option<Move> {
    match probe_entry(tt, h) {
        Some(e) => if e.hash == h {
            e.best_move
        } else {
            None
        },
        None => None,
    }
}

/// A move list in the order a node searches it.
pub open spec fn ordered_moves(
    b: Seq<i8>,
    ms: Seq<Move>,
    tt_move: Option<Move>,
    killers: Seq<Option<Move>>,
    history: Seq<i32>,
    ply: i8,
) -> Seq<Move> {
    sort_desc(scored_prefix(b, ms, tt_move, killers, history, ply as int, ms.len() as int))
        .map_values(|p: (Move, i32)| p.0)
}

/// The bookkeeping of a quiet beta cutoff: the move enters the ply's front
/// killer slot (displacing the old front to the back unless it is already
/// the front), and its history cell gains `depth * depth`, every cell
/// halving once that would pass the ceiling.
pub open spec fn record_cutoff(st: SState, m: Move, depth: i8, ply: i8) -> SState {
    let pindex = 2 * (ply as int);
    let k0 = st.killers[pindex];
    let killers2 = if k0 == Some(m) {
        st.killers
    } else {
        st.killers.update(pindex + 1, k0).update(pindex, Some(m))
    };
    let h_idx = (m.from as int) * 81 + (m.to as int);
    let nh: i32 = ((st.history[h_idx] as int) + (depth as int) * (depth as int)) as i32;
    let h1 = st.history.update(h_idx, nh);
    let history2 = if nh > HISTORY_CEILING {
        Seq::new(h1.len(), |t: int| halve_cell(h1[t]))
    } else {
        h1
    };
    SState { killers: killers2, history: history2, ..st }
}

/// The value and state of one negamax node, mirrored clause for clause
/// from the implementation.
pub open spec fn ab_value(
    b: Seq<i8>,
    depth: i8,
    alpha: i32,
    beta: i32,
    color: i8,
    ply: i8,
    st: SState,
    p: Personality,
) -> (Option<Move>, i32, SState)
    decreases (if depth >= 0 { depth as int } else { 0 }), 1int, 0int,
{
    let st1 = SState { nodes: bump64(st.nodes), ..st };
    let h = hash_of(b, color);
    if tt_cut_hit(st.tt, h, depth, alpha, beta) {
        let rr = tt_cut_result(st.tt, h, depth, alpha, beta);
        (rr.0, rr.1, st1)
    } else if depth <= 0 {
        (
            None,
            q_value(b, alpha as int, beta as int, color, p, occupied(b) as nat) as i32,
            st1,
        )
    } else {
        let ms = legal_moves(b, color);
        if ms.len() == 0 {
            if king_in_check(b, color) {
                (None, (-30000 + ply as int) as i32, st1)
            } else {
                (None, 0i32, st1)
            }
        } else {
            let ordered = ordered_moves(b, ms, tt_hint(st.tt, h), st.killers, st.history, ply);
            let lr = ab_loop(
                b,
                ordered,
                0,
                alpha,
                -30000i32,
                None,
                depth,
                beta,
                color,
                ply,
                st1,
                p,
            );
            let flag = bound_flag(lr.1, alpha, beta);
            let stored = lr.2.tt.update(
                tt_slot(h),
                Some(TTEntry { hash: h, depth, score: lr.1, flag, best_move: lr.0 }),
            );
            (lr.0, lr.1, SState { tt: stored, ..lr.2 })
        }
    }
}

/// The node's move loop from move `i` on, with the running window floor,
/// best score and best move.
pub open spec fn ab_loop(
    b: Seq<i8>,
    moves: Seq<Move>,
    i: int,
    a: i32,
    best: i32,
    bm: Option<Move>,
    depth: i8,
    beta: i32,
    color: i8,
    ply: i8,
    st: SState,
    p: Personality,
) -> (Option<Move>, i32, SState)
    decreases (if depth >= 0 { depth as int } else { 0 }), 0int, moves.len() - i,
{
    if i < 0 || i >= moves.len() || depth <= 0 {
        (bm, best, st)
    } else {
        let m = moves[i];
        let child = ab_value(
            board_after(b, m),
            (depth - 1) as i8,
            (-(beta as int)) as i32,
            (-(a as int)) as i32,
            enemy_of(color),
            ((ply as int + 1)) as i8,
            st,
            p,
        );
        let s: i32 = (-(child.1 as int)) as i32;
        let best2 = if s > best {
            s
        } else {
            best
        };
        let bm2 = if s > best {
            Some(m)
        } else {
            bm
        };
        let a2 = if s > a {
            s
        } else {
            a
        };
        if a2 >= beta {
            let st2 = if b[m.to as int] == 0 && ply < 64 {
                record_cutoff(child.2, m, depth, ply)
            } else {
                child.2
            };
            (bm2, best2, st2)
        } else {
            ab_loop(b, moves, i + 1, a2, best2, bm2, depth, beta, color, ply, child.2, p)
        }
    }
}

/// Negamax with alpha-beta pruning over one node.
///
/// A transposition entry stored for this very position, deep enough and
/// cutting at this window, answers the node by itself: the stored move and
/// score come back unchanged, the node counter steps once, and no table
/// changes — no child is revisited. With no legal moves the node is a
/// checkmate (`MATE_SCORE + ply`, so nearer mates weigh more) or a
/// stalemate (zero). Otherwise the node searches its ordered moves,
/// records quiet cutoff moves in the killer and history tables (aging the
/// history before it could pass its ceiling), and stores its result in the
/// transposition table, overwriting the slot.
pub fn alphabeta(
    board: &Board,
    depth: i8,
    alpha: i32,
    beta: i32,
    color: i8,
    ply: i8,
    ctx: &mut SearchContext,
    config: &EvalConfig,
    keys: &ZobristTable,
) -> (r: (Option<Move>, i32))
    requires
        board@.len() == 81,
        ctx_wf(*old(ctx)),
        table_wf(*keys),
        rating_ok(*config),
        -30000 <= alpha <= 30000,
        -30000 <= beta <= 30000,
        0 <= ply,
        ply as int + depth as int <= 127,
    ensures
        ctx_wf(*final(ctx)),
        final(ctx).stop == old(ctx).stop,
        -30000 <= r.1 <= 30000,
        forall|j: int|
            0 <= j < TT_SIZE ==> (final(ctx).tt@[j] == old(ctx).tt@[j] || entry_depth_at_most(
                #[trigger] final(ctx).tt@[j],
                depth,
            )),
        tt_cut_hit(old(ctx).tt@, hash_of(board@, color), depth, alpha, beta) ==> (
        r == tt_cut_result(old(ctx).tt@, hash_of(board@, color), depth, alpha, beta)
            && final(ctx).tt@ == old(ctx).tt@
            && final(ctx).killer_moves@ == old(ctx).killer_moves@
            && final(ctx).history@ == old(ctx).history@
            && final(ctx).nodes == bump64(old(ctx).nodes)),
        (!tt_cut_hit(old(ctx).tt@, hash_of(board@, color), depth, alpha, beta) && depth <= 0) ==> (
        r.0 is None
            && (noise_bound(*config) == 0 ==> r.1 as int == q_value(
                board@,
                alpha as int,
                beta as int,
                color,
                config.personality,
                occupied(board@) as nat,
            ))
            && final(ctx).tt@ == old(ctx).tt@
            && final(ctx).killer_moves@ == old(ctx).killer_moves@
            && final(ctx).history@ == old(ctx).history@
            && final(ctx).nodes == bump64(old(ctx).nodes)),
        (!tt_cut_hit(old(ctx).tt@, hash_of(board@, color), depth, alpha, beta) && depth >= 1
            && legal_moves(board@, color).len() == 0) ==> (
        r.0 is None
            && (king_in_check(board@, color) ==> r.1 as int == -30000 + ply as int)
            && (!king_in_check(board@, color) ==> r.1 == 0)
            && final(ctx).tt@ == old(ctx).tt@
            && final(ctx).killer_moves@ == old(ctx).killer_moves@
            && final(ctx).history@ == old(ctx).history@
            && final(ctx).nodes == bump64(old(ctx).nodes)),
        (!tt_cut_hit(old(ctx).tt@, hash_of(board@, color), depth, alpha, beta) && depth >= 1
            && legal_moves(board@, color).len() > 0) ==> (match r.0 {
            Some(m) => move_among(m, legal_moves(board@, color)),
            None => r.1 == -30000,
        }),
        (!tt_cut_hit(old(ctx).tt@, hash_of(board@, color), depth, alpha, beta) && depth >= 1
            && legal_moves(board@, color).len() > 0) ==> final(ctx).tt@[tt_slot(
            hash_of(board@, color),
        )] == Some(
            TTEntry {
                hash: hash_of(board@, color),
                depth,
                score: r.1,
                flag: bound_flag(r.1, alpha, beta),
                best_move: r.0,
            },
        ),
        noise_bound(*config) == 0 ==> ({
            let res = ab_value(
                board@,
                depth,
                alpha,
                beta,
                color,
                ply,
                ctx_view(*old(ctx)),
                config.personality,
            );
            r.0 == res.0 && r.1 == res.1 && ctx_view(*final(ctx)) == res.2
        }),
    decreases depth,
{
    let ghost st0 = ctx_view(*old(ctx));
    let ghost stv = ab_value(board@, depth, alpha, beta, color, ply, st0, config.personality);
    let ghost nb = noise_bound(*config);
    if ctx.nodes == u64::MAX {
        ctx.nodes = 0;
    } else {
        ctx.nodes = ctx.nodes + 1;
    }
    proof {
        assert(ctx_view(*ctx) =~= SState { nodes: bump64(st0.nodes), ..st0 });
    }
    let hash = compute_hash(keys, board, color);
    let tt_index = (hash % (TT_SIZE as u64)) as usize;
    proof {
        assert(tt_index as int == tt_slot(hash));
    }
    let mut tt_move: Option<Move> = None;
    let entry_opt = ctx.tt[tt_index];
    match entry_opt {
        Some(entry) => {
            if entry.hash == hash && entry.depth >= depth {
                if entry.flag == TT_EXACT {
                    return (entry.best_move, entry.score);
                }
                if entry.flag == TT_ALPHA && entry.score <= alpha {
                    return (entry.best_move, alpha);
                }
                if entry.flag == TT_BETA && entry.score >= beta {
                    return (entry.best_move, beta);
                }
            }
            if entry.hash == hash {
                tt_move = entry.best_move;
            }
        },
        None => {},
    }
    proof {
        assert(tt_move == tt_hint(st0.tt, hash));
    }
    if depth <= 0 {
        let q = quiescence(board, alpha, beta, color, config);
        return (None, q);
    }
    let mut moves = get_all_legal_moves(board, color);
    let enemy_color = if color == COLOR_WHITE {
        COLOR_BLACK
    } else {
        COLOR_WHITE
    };
    if moves.len() == 0 {
        let kp = find_king(board, color);
        proof {
            crate::move_gen::lemma_find_king_range(board@, color, 0);
        }
        if kp < SQUARE_COUNT && is_square_attacked(board, kp, enemy_color) {
            return (None, -30000 + ply as i32);
        }
        return (None, 0);
    }
    order_moves(board, &mut moves, tt_move, &ctx.killer_moves, &ctx.history, ply as usize);
    proof {
        assert(ply as usize as int == ply as int);
        assert(moves@ == ordered_moves(
            board@,
            legal_moves(board@, color),
            tt_move,
            st0.killers,
            st0.history,
            ply,
        ));
    }
    let mut best_move: Option<Move> = None;
    let mut best_score: i32 = -30000;
    let mut a = alpha;
    let mut i: usize = 0;
    let mut cut = false;
    while i < moves.len() && !cut
        invariant
            board@.len() == 81,
            table_wf(*keys),
            rating_ok(*config),
            ctx_wf(*ctx),
            ctx.stop == old(ctx).stop,
            depth >= 1,
            0 <= ply,
            ply as int + depth as int <= 127,
            -30000 <= beta <= 30000,
            -30000 <= a <= 30000,
            -30000 <= best_score <= 30000,
            0 <= i <= moves@.len(),
            enemy_color == enemy_of(color),
            forall|j: int|
                0 <= j < moves@.len() ==> (#[trigger] moves@[j]).from < 81 && moves@[j].to < 81,
            forall|j: int|
                0 <= j < moves@.len() ==> move_among(
                    #[trigger] moves@[j],
                    legal_moves(board@, color),
                ),
            forall|j: int|
                0 <= j < TT_SIZE ==> (ctx.tt@[j] == old(ctx).tt@[j] || entry_depth_at_most(
                    #[trigger] ctx.tt@[j],
                    (depth - 1) as i8,
                )),
            match best_move {
                Some(m) => move_among(m, legal_moves(board@, color)),
                None => best_score == -30000,
            },
            nb == noise_bound(*config),
            st0 == ctx_view(*old(ctx)),
            nb == 0 ==> ab_loop(
                board@,
                moves@,
                0,
                alpha,
                -30000i32,
                None,
                depth,
                beta,
                color,
                ply,
                SState { nodes: bump64(st0.nodes), ..st0 },
                config.personality,
            ) == (if cut {
                (best_move, best_score, ctx_view(*ctx))
            } else {
                ab_loop(
                    board@,
                    moves@,
                    i as int,
                    a,
                    best_score,
                    best_move,
                    depth,
                    beta,
                    color,
                    ply,
                    ctx_view(*ctx),
                    config.personality,
                )
            }),
        decreases moves@.len() - i,
    {
        let m = moves[i];
        let ghost st_pre = ctx_view(*ctx);
        let mut next_board = clone_board(board);
        make_move(&mut next_board, m);
        let ghost tt_pre = ctx.tt@;
        let child = alphabeta(
            &next_board,
            depth - 1,
            -beta,
            -a,
            enemy_color,
            ply + 1,
            ctx,
            config,
            keys,
        );
        proof {
            assert forall|j: int|
                0 <= j < TT_SIZE implies (ctx.tt@[j] == old(ctx).tt@[j] || entry_depth_at_most(
                #[trigger] ctx.tt@[j],
                (depth - 1) as i8,
            )) by {
                assert(ctx.tt@[j] == tt_pre[j] || entry_depth_at_most(
                    ctx.tt@[j],
                    (depth - 1) as i8,
                ));
                assert(tt_pre[j] == old(ctx).tt@[j] || entry_depth_at_most(
                    tt_pre[j],
                    (depth - 1) as i8,
                ));
            }
        }
        let ghost st_child = ctx_view(*ctx);
        proof {
            if nb == 0 {
                let spec_child = ab_value(
                    board_after(board@, m),
                    (depth - 1) as i8,
                    (-(beta as int)) as i32,
                    (-(a as int)) as i32,
                    enemy_of(color),
                    ((ply as int + 1)) as i8,
                    st_pre,
                    config.personality,
                );
                assert(child.0 == spec_child.0 && child.1 == spec_child.1 && st_child
                    == spec_child.2);
            }
        }
        let score = -child.1;
        if score > best_score {
            best_score = score;
            best_move = Some(m);
        }
        if score > a {
            a = score;
        }
        if a >= beta {
            if board[m.to] == PIECE_NONE {
                let plyu = ply as usize;
                if plyu < 64 {
                    let pindex = 2 * plyu;
                    let k0 = ctx.killer_moves[pindex];
                    let same = match k0 {
                        Some(kmv) => kmv == m,
                        None => false,
                    };
                    if !same {
                        ctx.killer_moves.set(pindex + 1, k0);
                        ctx.killer_moves.set(pindex, Some(m));
                    }
                    let h_idx = m.from * 81 + m.to;
                    proof {
                        assert(1 <= (depth as int) * (depth as int) <= 16129) by (nonlinear_arith)
                            requires
                                1 <= depth as int <= 127,
                        ;
                    }
                    let dd = (depth as i32) * (depth as i32);
                    let nh = ctx.history[h_idx] + dd;
                    ctx.history.set(h_idx, nh);
                    let ghost h1 = ctx.history@;
                    let ghost kills1 = ctx.killer_moves@;
                    if nh > HISTORY_CEILING {
                        let mut j: usize = 0;
                        while j < 6561
                            invariant
                                ctx.tt@.len() == TT_SIZE,
                                ctx.killer_moves@.len() == 128,
                                ctx.history@.len() == 6561,
                                ctx.stop == old(ctx).stop,
                                ctx.killer_moves@ == kills1,
                                ctx.nodes == st_child.nodes,
                                ctx.tt@ == st_child.tt,
                                h1.len() == 6561,
                                forall|t: int|
                                    0 <= t < TT_SIZE ==> entry_score_ok(#[trigger] ctx.tt@[t]),
                                forall|t: int|
                                    0 <= t < TT_SIZE ==> (ctx.tt@[t] == old(ctx).tt@[t]
                                        || entry_depth_at_most(
                                        #[trigger] ctx.tt@[t],
                                        (depth - 1) as i8,
                                    )),
                                0 <= j <= 6561,
                                forall|t: int|
                                    0 <= t < j ==> #[trigger] ctx.history@[t] == halve_cell(h1[t]),
                                forall|t: int|
                                    j <= t < 6561 ==> #[trigger] ctx.history@[t] == h1[t],
                                forall|t: int|
                                    0 <= t < j ==> 0 <= #[trigger] ctx.history@[t] <= 58_100,
                                forall|t: int|
                                    j <= t < 6561 ==> 0 <= #[trigger] ctx.history@[t] <= 116_200,
                            decreases 6561 - j,
                        {
                            let v = ctx.history[j];
                            ctx.history.set(j, ((v as u64) / 2) as i32);
                            proof {
                                assert(((v as u64) / 2) as i32 == halve_cell(h1[j as int]));
                            }
                            j = j + 1;
                        }
                        proof {
                            assert(ctx.history@ =~= Seq::new(h1.len(), |t: int| halve_cell(h1[t])));
                        }
                    }
                }
            }
            proof {
                if nb == 0 {
                    if board@[m.to as int] == 0 && ply < 64 {
                        assert(ctx_view(*ctx) =~= record_cutoff(st_child, m, depth, ply));
                    } else {
                        assert(ctx_view(*ctx) =~= st_child);
                    }
                }
            }
            cut = true;
        }
        i = i + 1;
    }
    let flag = if best_score <= alpha {
        TT_ALPHA
    } else if best_score >= beta {
        TT_BETA
    } else {
        TT_EXACT
    };
    let ghost st_fin = ctx_view(*ctx);
    ctx.tt.set(
        tt_index,
        Some(TTEntry { hash, depth, score: best_score, flag, best_move }),
    );
    proof {
        if nb == 0 {
            assert(ctx_view(*ctx) =~= SState {
                tt: st_fin.tt.update(
                    tt_slot(hash),
                    Some(
                        TTEntry {
                            hash,
                            depth,
                            score: best_score,
                            flag: bound_flag(best_score, alpha, beta),
                            best_move,
                        },
                    ),
                ),
                ..st_fin
            });
            assert(stv.0 == best_move && stv.1 == best_score);
            assert(stv.2 =~= ctx_view(*ctx));
        }
    }
    (best_move, best_score)
}

/// A move that `search` hands back is a legal move, so applying it never
/// leaves the mover's own king attacked by the opponent.
pub proof fn lemma_search_move_keeps_king_safe(b: Seq<i8>, color: i8, m: Move)
    requires
        b.len() == 81,
        move_among(m, legal_moves(b, color)),
    ensures
        king_safe(b, color, find_king_from(b, color, 0), m),
{
    let ls = legal_moves(b, color);
    let j = choose|j: int| 0 <= j < ls.len() && m == #[trigger] ls[j];
    lemma_legal_moves_keep_king_safe(b, color, j);
}

/// Transposition round-trip: a slot holding an exact entry for a hash, at
/// depth at least the probe's, answers any later probe of that hash with
/// the stored move and score unchanged. Together with `alphabeta`'s
/// contract this says such a probe returns at once: one node counted, no
/// table touched, no child revisited.
pub proof fn lemma_exact_entry_round_trip(
    tt: Seq<Option<TTEntry>>,
    e: TTEntry,
    d: i8,
    alpha: i32,
    beta: i32,
)
    requires
        tt.len() == TT_SIZE,
        tt[tt_slot(e.hash)] == Some(e),
        e.flag == TT_EXACT,
        d <= e.depth,
    ensures
        tt_cut_hit(tt, e.hash, d, alpha, beta),
        tt_cut_result(tt, e.hash, d, alpha, beta) == (e.best_move, e.score),
{
}

/// The state a fresh search starts from: zero nodes, empty tables.
pub open spec fn fresh_state() -> SState {
    SState {
        nodes: 0,
        tt: Seq::new(TT_SIZE as nat, |j: int| None),
        killers: no_killers(),
        history: no_history(),
    }
}

/// The iterative-deepening loop from depth `d` on, carrying the best move
/// and score so far.
pub open spec fn search_loop(
    b: Seq<i8>,
    depth: i8,
    color: i8,
    p: Personality,
    d: int,
    bm: Option<Move>,
    bs: i32,
    st: SState,
) -> (Option<Move>, i32, u64)
    decreases depth as int + 1 - d,
{
    if d < 1 || d > depth as int {
        (bm, bs, st.nodes)
    } else {
        let res = ab_value(b, d as i8, -30000i32, 30000i32, color, 0, st, p);
        search_loop(b, depth, color, p, d + 1, res.0, res.1, res.2)
    }
}

/// The engine's whole answer — best move, score and node count — as a
/// function of its inputs, when noise is disabled. Two calls with the same
/// inputs therefore return bit-identical triples.
pub open spec fn search_value(b: Seq<i8>, depth: i8, color: i8, p: Personality) -> (
    Option<Move>,
    i32,
    u64,
) {
    if depth <= 0 {
        (None, q_value(b, -30000, 30000, color, p, occupied(b) as nat) as i32, 0u64)
    } else {
        search_loop(b, depth, color, p, 1, None, 0i32, fresh_state())
    }
}

/// Iterative-deepening search: one full-window negamax run per depth from
/// one up to the requested depth, each run inheriting the transposition,
/// killer and history tables of the previous ones; the last uncancelled
/// run's move and score are the answer, with the total node count. A
/// non-positive depth asks for a single quiescence-only evaluation.
///
/// A position without legal moves comes back as checkmate
/// (`move = none, score = MATE_SCORE`) when the king is attacked, and as
/// stalemate (`move = none, score = 0`) otherwise. A returned move is
/// always one of the position's legal moves: the table can never answer
/// the root by itself, because no stored entry is ever deeper than the
/// run that wrote it.
///
/// This build plays without a skill-degradation step: a low rating only
/// widens the evaluation noise, and the searched move is never swapped
/// for another one afterwards.
pub fn search(board: &Board, depth: i8, color: i8, config: &EvalConfig) -> (r: (
    Option<Move>,
    i32,
    u64,
))
    requires
        board@.len() == 81,
        rating_ok(*config),
    ensures
        -30000 <= r.1 <= 30000,
        depth >= 1 ==> (match r.0 {
            Some(m) => move_among(m, legal_moves(board@, color)),
            None => true,
        }),
        (depth >= 1 && legal_moves(board@, color).len() > 0) ==> (r.0 is Some || r.1 == -30000),
        depth <= 0 ==> r.0 is None && r.2 == 0,
        (depth <= 0 && noise_bound(*config) == 0) ==> r.1 as int == q_value(
            board@,
            -30000,
            30000,
            color,
            config.personality,
            occupied(board@) as nat,
        ),
        noise_bound(*config) == 0 ==> ({
            let res = search_value(board@, depth, color, config.personality);
            r.0 == res.0 && r.1 == res.1 && r.2 == res.2
        }),
        (depth >= 1 && legal_moves(board@, color).len() == 0) ==> r.0 is None && r.2 == depth
            as u64 && (king_in_check(board@, color) ==> r.1 == -30000) && (!king_in_check(
            board@,
            color,
        ) ==> r.1 == 0),
{
    if depth <= 0 {
        proof {
            lemma_occupied_nonneg(board@, 81);
        }
        let s = quiescence(board, -30000, 30000, color, config);
        return (None, s, 0);
    }
    let keys = get_zobrist_keys();
    let ghost nb = noise_bound(*config);
    let mut ctx = SearchContext {
        nodes: 0,
        tt: empty_tt(),
        stop: false,
        killer_moves: empty_killers(),
        history: empty_history(),
    };
    proof {
        assert(ctx.tt@ =~= Seq::new(TT_SIZE as nat, |j: int| None));
        assert(ctx.killer_moves@ =~= no_killers());
        assert(ctx.history@ =~= no_history());
        assert(ctx_view(ctx) =~= fresh_state());
    }
    let mut overall_best_move: Option<Move> = None;
    let mut best_score: i32 = 0;
    let mut d: i32 = 1;
    while d <= depth as i32
        invariant
            board@.len() == 81,
            rating_ok(*config),
            table_wf(keys),
            ctx_wf(ctx),
            depth >= 1,
            1 <= d <= depth as int + 1,
            ctx.stop == false,
            -30000 <= best_score <= 30000,
            forall|j: int|
                0 <= j < TT_SIZE ==> entry_depth_at_most(#[trigger] ctx.tt@[j], (d - 1) as i8),
            match overall_best_move {
                Some(m) => move_among(m, legal_moves(board@, color)),
                None => true,
            },
            (legal_moves(board@, color).len() > 0 && d >= 2) ==> (overall_best_move is Some
                || best_score == -30000),
            nb == noise_bound(*config),
            nb == 0 ==> search_loop(
                board@,
                depth,
                color,
                config.personality,
                1,
                None,
                0i32,
                fresh_state(),
            ) == search_loop(
                board@,
                depth,
                color,
                config.personality,
                d as int,
                overall_best_move,
                best_score,
                ctx_view(ctx),
            ),
            legal_moves(board@, color).len() == 0 ==> ((forall|j: int|
                0 <= j < TT_SIZE ==> (#[trigger] ctx.tt@[j]) is None) && ctx.nodes as int == d - 1
                && overall_best_move is None && (d >= 2 ==> ((king_in_check(board@, color)
                ==> best_score == -30000) && (!king_in_check(board@, color) ==> best_score == 0)))),
        decreases depth as int + 1 - d,
    {
        let ghost tt_before = ctx.tt@;
        let ghost st_before = ctx_view(ctx);
        let res = alphabeta(board, d as i8, -30000, 30000, color, 0, &mut ctx, config, &keys);
        proof {
            if nb == 0 {
                let spec_res = ab_value(
                    board@,
                    d as i8,
                    -30000i32,
                    30000i32,
                    color,
                    0,
                    st_before,
                    config.personality,
                );
                assert(res.0 == spec_res.0 && res.1 == spec_res.1 && ctx_view(ctx)
                    == spec_res.2);
            }
        }
        if !ctx.stop {
            overall_best_move = res.0;
            best_score = res.1;
        }
        proof {
            let h = hash_of(board@, color);
            assert(0 <= tt_slot(h) < TT_SIZE as int);
            assert(entry_depth_at_most(tt_before[tt_slot(h)], (d - 1) as i8));
            assert(!tt_cut_hit(tt_before, h, d as i8, -30000i32, 30000i32));
        }
        d = d + 1;
    }
    (overall_best_move, best_score, ctx.nodes)
}

} // verus!
