use angelchess::definitions::{
    coords_to_index, index_to_col, index_to_row, is_valid_square, Board, Move, COLOR_BLACK,
    COLOR_WHITE, FLAG_DOUBLE, FLAG_NONE, PIECE_KING, PIECE_KNIGHT, PIECE_PAWN, PIECE_QUEEN,
    PIECE_ROOK,
};
use angelchess::eval::{evaluate_position, get_pst, EvalConfig, Personality};
use angelchess::move_gen::{
    find_king, get_all_capture_moves, get_all_legal_moves, is_square_attacked, make_move,
    undo_move,
};
use angelchess::ordering::order_moves;
use angelchess::search::{alphabeta, search, SearchContext, TTEntry, TT_EXACT, TT_SIZE};
use angelchess::zobrist::{compute_hash, get_side_key, get_zobrist_keys, xorshift64};

const W_PAWN: i8 = COLOR_WHITE | PIECE_PAWN;
const W_KNIGHT: i8 = COLOR_WHITE | PIECE_KNIGHT;
const W_ROOK: i8 = COLOR_WHITE | PIECE_ROOK;
const W_QUEEN: i8 = COLOR_WHITE | PIECE_QUEEN;
const W_KING: i8 = COLOR_WHITE | PIECE_KING;
const B_PAWN: i8 = COLOR_BLACK | PIECE_PAWN;
const B_KNIGHT: i8 = COLOR_BLACK | PIECE_KNIGHT;
const B_ROOK: i8 = COLOR_BLACK | PIECE_ROOK;
const B_KING: i8 = COLOR_BLACK | PIECE_KING;

fn empty_board() -> Board {
    vec![0i8; 81]
}

fn mv(from: usize, to: usize) -> Move {
    Move { from, to, promotion: None, flags: FLAG_NONE }
}

fn normal_cfg() -> EvalConfig {
    EvalConfig { personality: Personality::NORMAL, elo: None, noise_seed: None }
}

fn fresh_ctx() -> SearchContext {
    SearchContext {
        nodes: 0,
        tt: vec![None; TT_SIZE],
        stop: false,
        killer_moves: vec![None; 128],
        history: vec![0i32; 6561],
    }
}

/// Mirror the board top-to-bottom and swap the colors of every piece.
fn color_swapped_mirrored(b: &Board) -> Board {
    let mut out = empty_board();
    for r in 0..9 {
        for c in 0..9 {
            let p = b[r * 9 + c];
            let q = if p == 0 {
                0
            } else {
                let t = p & 15;
                if (p & 48) == COLOR_WHITE {
                    COLOR_BLACK | t
                } else {
                    COLOR_WHITE | t
                }
            };
            out[(8 - r) * 9 + c] = q;
        }
    }
    out
}

#[test]
fn index_helpers() {
    assert_eq!(index_to_row(40), 4);
    assert_eq!(index_to_col(40), 4);
    assert_eq!(coords_to_index(4, 4), 40);
    assert!(is_valid_square(0));
    assert!(is_valid_square(80));
    assert!(!is_valid_square(81));
    assert!(!is_valid_square(-1));
}

#[test]
fn zobrist_fixed_values() {
    assert_eq!(xorshift64(123456789), 132100702508589007u64);
    assert_eq!(get_side_key(), 1056805612344039456u64);
    let t = get_zobrist_keys();
    assert_eq!(t.keys.len(), 5184);
    assert_eq!(t.keys[0], 132100702508589007u64);
}

#[test]
fn zobrist_hash_depends_on_side() {
    let keys = get_zobrist_keys();
    let mut b = empty_board();
    b[40] = W_KING;
    b[4] = B_KING;
    let hw = compute_hash(&keys, &b, COLOR_WHITE);
    let hb = compute_hash(&keys, &b, COLOR_BLACK);
    assert_ne!(hw, hb);
    let keys2 = get_zobrist_keys();
    assert_eq!(hw, compute_hash(&keys2, &b, COLOR_WHITE));
}

#[test]
fn king_moves_from_center() {
    let mut b = empty_board();
    b[40] = W_KING;
    let moves = get_all_legal_moves(&b, COLOR_WHITE);
    assert_eq!(moves.len(), 8);
    let targets: Vec<usize> = moves.iter().map(|m| m.to).collect();
    for t in [30usize, 31, 32, 39, 41, 48, 49, 50] {
        assert!(targets.contains(&t));
    }
}

#[test]
fn knight_moves_from_corner_do_not_wrap() {
    let mut b = empty_board();
    b[0] = W_KNIGHT;
    b[80] = W_KING;
    let moves = get_all_legal_moves(&b, COLOR_WHITE);
    let knight_targets: Vec<usize> = moves.iter().filter(|m| m.from == 0).map(|m| m.to).collect();
    assert_eq!(knight_targets.len(), 2);
    assert!(knight_targets.contains(&11));
    assert!(knight_targets.contains(&19));
}

#[test]
fn pawn_single_and_double_push() {
    let mut b = empty_board();
    b[58] = W_PAWN;
    b[80] = W_KING;
    let moves = get_all_legal_moves(&b, COLOR_WHITE);
    let pawn_moves: Vec<Move> = moves.into_iter().filter(|m| m.from == 58).collect();
    assert_eq!(pawn_moves.len(), 2);
    assert_eq!(pawn_moves[0].to, 49);
    assert_eq!(pawn_moves[0].flags, FLAG_NONE);
    assert_eq!(pawn_moves[1].to, 40);
    assert_eq!(pawn_moves[1].flags, FLAG_DOUBLE);
}

#[test]
fn pawn_capture_and_block() {
    let mut b = empty_board();
    b[58] = W_PAWN;
    b[49] = B_PAWN;
    b[48] = B_PAWN;
    b[80] = W_KING;
    let moves = get_all_legal_moves(&b, COLOR_WHITE);
    let pawn_targets: Vec<usize> = moves.iter().filter(|m| m.from == 58).map(|m| m.to).collect();
    assert_eq!(pawn_targets, vec![48]);
}

#[test]
fn pawn_capture_never_wraps_rows() {
    let mut b = empty_board();
    b[54] = W_PAWN;
    b[44] = B_PAWN;
    b[80] = W_KING;
    let moves = get_all_legal_moves(&b, COLOR_WHITE);
    assert!(moves.iter().all(|m| !(m.from == 54 && m.to == 44)));
}

#[test]
fn pinned_rook_stays_on_file() {
    let mut b = empty_board();
    b[72] = W_KING;
    b[63] = W_ROOK;
    b[0] = B_ROOK;
    b[8] = B_KING;
    let moves = get_all_legal_moves(&b, COLOR_WHITE);
    for m in moves.iter().filter(|m| m.from == 63) {
        assert_eq!(m.to % 9, 0, "pinned rook left its file: {:?}", m);
    }
}

#[test]
fn legal_moves_never_leave_own_king_attacked() {
    let mut b = empty_board();
    b[72] = W_KING;
    b[63] = W_ROOK;
    b[58] = W_PAWN;
    b[0] = B_ROOK;
    b[8] = B_KING;
    b[20] = B_KNIGHT;
    let moves = get_all_legal_moves(&b, COLOR_WHITE);
    assert!(!moves.is_empty());
    for m in moves {
        let mut after = b.clone();
        make_move(&mut after, m);
        let kp = find_king(&after, COLOR_WHITE);
        assert!(kp < 81);
        assert!(
            !is_square_attacked(&after, kp, COLOR_BLACK),
            "move {:?} leaves the king attacked",
            m
        );
    }
}

#[test]
fn find_king_sentinel_for_absent_king() {
    let b = empty_board();
    assert_eq!(find_king(&b, COLOR_WHITE), usize::MAX);
    let mut b2 = empty_board();
    b2[40] = W_KING;
    assert_eq!(find_king(&b2, COLOR_WHITE), 40);
    assert_eq!(find_king(&b2, COLOR_BLACK), usize::MAX);
}

#[test]
fn make_then_undo_restores_position() {
    let mut b = empty_board();
    b[40] = W_ROOK;
    b[44] = B_PAWN;
    b[80] = W_KING;
    b[0] = B_KING;
    let before = b.clone();
    let undo = make_move(&mut b, mv(40, 44));
    assert_ne!(b, before);
    undo_move(&mut b, undo);
    assert_eq!(b, before);
}

#[test]
fn rook_attack_is_blocked_by_a_piece() {
    let mut b = empty_board();
    b[0] = W_ROOK;
    b[2] = W_PAWN;
    assert!(is_square_attacked(&b, 1, COLOR_WHITE));
    assert!(!is_square_attacked(&b, 3, COLOR_WHITE));
}

#[test]
fn capture_list_holds_only_captures() {
    let mut b = empty_board();
    b[40] = W_KNIGHT;
    b[23] = B_PAWN;
    b[80] = W_KING;
    let caps = get_all_capture_moves(&b, COLOR_WHITE);
    assert_eq!(caps.len(), 1);
    assert_eq!(caps[0].from, 40);
    assert_eq!(caps[0].to, 23);
}

#[test]
fn get_pst_mirrors_black_ranks() {
    assert_eq!(get_pst(PIECE_PAWN, 1, 0, COLOR_WHITE, false), 50);
    assert_eq!(get_pst(PIECE_PAWN, 7, 0, COLOR_BLACK, false), 50);
}

#[test]
fn evaluate_kings_only_is_the_tempo_term() {
    let mut b = empty_board();
    b[76] = W_KING;
    b[4] = B_KING;
    let cfg = normal_cfg();
    assert_eq!(evaluate_position(&b, COLOR_WHITE, &cfg), 5);
    assert_eq!(evaluate_position(&b, COLOR_BLACK, &cfg), 5);
}

#[test]
fn evaluate_is_color_symmetric() {
    let mut b = empty_board();
    b[76] = W_KING;
    b[60] = W_ROOK;
    b[58] = W_PAWN;
    b[4] = B_KING;
    b[20] = B_KNIGHT;
    let swapped = color_swapped_mirrored(&b);
    for personality in [
        Personality::NORMAL,
        Personality::AGGRESSIVE,
        Personality::SOLID,
        Personality::GENTLE,
    ] {
        let cfg = EvalConfig { personality, elo: None, noise_seed: None };
        let side_view_white = evaluate_position(&b, COLOR_WHITE, &cfg);
        let side_view_black = evaluate_position(&swapped, COLOR_BLACK, &cfg);
        assert_eq!(side_view_white, side_view_black);
    }
}

#[test]
fn evaluate_is_deterministic_without_a_rating() {
    let mut b = empty_board();
    b[76] = W_KING;
    b[60] = W_ROOK;
    b[4] = B_KING;
    let cfg = normal_cfg();
    assert_eq!(
        evaluate_position(&b, COLOR_WHITE, &cfg),
        evaluate_position(&b, COLOR_WHITE, &cfg)
    );
}

#[test]
fn evaluate_noise_stays_within_its_band() {
    let mut b = empty_board();
    b[76] = W_KING;
    b[4] = B_KING;
    let quiet = evaluate_position(&b, COLOR_WHITE, &normal_cfg());
    let noisy_cfg = EvalConfig { personality: Personality::NORMAL, elo: Some(800), noise_seed: None };
    let band = (2500 - 800) / 8;
    for _ in 0..20 {
        let noisy = evaluate_position(&b, COLOR_WHITE, &noisy_cfg);
        assert!((noisy - quiet).abs() <= band);
    }
}

#[test]
fn seeded_noise_is_reproducible_and_banded() {
    let mut b = empty_board();
    b[76] = W_KING;
    b[4] = B_KING;
    let quiet = evaluate_position(&b, COLOR_WHITE, &normal_cfg());
    let seeded_cfg = EvalConfig {
        personality: Personality::NORMAL,
        elo: Some(800),
        noise_seed: Some(42),
    };
    let band = (2500 - 800) / 8;
    let first = evaluate_position(&b, COLOR_WHITE, &seeded_cfg);
    for _ in 0..5 {
        assert_eq!(evaluate_position(&b, COLOR_WHITE, &seeded_cfg), first);
    }
    assert!((first - quiet).abs() <= band);
    let seeded_search_cfg = EvalConfig {
        personality: Personality::NORMAL,
        elo: Some(800),
        noise_seed: Some(42),
    };
    let one = search(&b, 2, COLOR_WHITE, &seeded_search_cfg);
    let two = search(&b, 2, COLOR_WHITE, &seeded_search_cfg);
    assert_eq!(one.1, two.1);
    assert_eq!(one.2, two.2);
}

#[test]
fn order_moves_puts_captures_then_quiets() {
    let mut b = empty_board();
    b[40] = W_KNIGHT;
    b[23] = B_PAWN;
    let quiet = mv(40, 21);
    let capture = mv(40, 23);
    let killers: Vec<Option<Move>> = vec![None; 128];
    let history: Vec<i32> = vec![0; 6561];
    let mut moves = vec![quiet, capture];
    order_moves(&b, &mut moves, None, &killers, &history, 0);
    assert_eq!(moves, vec![capture, quiet]);
}

#[test]
fn order_moves_puts_the_table_move_first() {
    let mut b = empty_board();
    b[40] = W_KNIGHT;
    b[23] = B_PAWN;
    let quiet = mv(40, 21);
    let capture = mv(40, 23);
    let killers: Vec<Option<Move>> = vec![None; 128];
    let history: Vec<i32> = vec![0; 6561];
    let mut moves = vec![quiet, capture];
    order_moves(&b, &mut moves, Some(quiet), &killers, &history, 0);
    assert_eq!(moves, vec![quiet, capture]);
}

#[test]
fn stalemate_returns_no_move_and_zero() {
    let mut b = empty_board();
    b[0] = B_KING;
    b[19] = W_QUEEN;
    b[80] = W_KING;
    let cfg = normal_cfg();
    assert!(get_all_legal_moves(&b, COLOR_BLACK).is_empty());
    assert!(!is_square_attacked(&b, 0, COLOR_WHITE));
    let (best, score, nodes) = search(&b, 3, COLOR_BLACK, &cfg);
    assert!(best.is_none());
    assert_eq!(score, 0);
    assert_eq!(nodes, 3);
}

#[test]
fn checkmate_returns_no_move_and_the_mate_score() {
    let mut b = empty_board();
    b[0] = B_KING;
    b[5] = W_ROOK;
    b[14] = W_ROOK;
    b[80] = W_KING;
    let cfg = normal_cfg();
    assert!(get_all_legal_moves(&b, COLOR_BLACK).is_empty());
    assert!(is_square_attacked(&b, 0, COLOR_WHITE));
    let (best, score, nodes) = search(&b, 2, COLOR_BLACK, &cfg);
    assert!(best.is_none());
    assert_eq!(score, -30000);
    assert_eq!(nodes, 2);
}

#[test]
fn search_finds_a_mate_in_one() {
    let mut b = empty_board();
    b[0] = B_KING;
    b[17] = W_ROOK;
    b[74] = W_ROOK;
    b[80] = W_KING;
    let cfg = normal_cfg();
    let (best, score, _nodes) = search(&b, 2, COLOR_WHITE, &cfg);
    assert_eq!(score, 29999);
    let m = best.expect("a mating move");
    assert_eq!((m.from, m.to), (74, 2));
    let mut after = b.clone();
    make_move(&mut after, m);
    assert!(get_all_legal_moves(&after, COLOR_BLACK).is_empty());
    assert!(is_square_attacked(&after, 0, COLOR_WHITE));
}

#[test]
fn depth_zero_search_returns_no_move_and_no_nodes() {
    let mut b = empty_board();
    b[76] = W_KING;
    b[4] = B_KING;
    let (best, _score, nodes) = search(&b, 0, COLOR_WHITE, &normal_cfg());
    assert!(best.is_none());
    assert_eq!(nodes, 0);
}

#[test]
fn search_is_deterministic_without_a_rating() {
    let mut b = empty_board();
    b[76] = W_KING;
    b[60] = W_ROOK;
    b[58] = W_PAWN;
    b[4] = B_KING;
    b[20] = B_KNIGHT;
    b[24] = B_PAWN;
    let cfg = normal_cfg();
    let first = search(&b, 2, COLOR_WHITE, &cfg);
    let second = search(&b, 2, COLOR_WHITE, &cfg);
    assert_eq!(first.0, second.0);
    assert_eq!(first.1, second.1);
    assert_eq!(first.2, second.2);
}

#[test]
fn exact_table_entry_answers_the_probe_unchanged() {
    let mut b = empty_board();
    b[76] = W_KING;
    b[4] = B_KING;
    let cfg = normal_cfg();
    let keys = get_zobrist_keys();
    let hash = compute_hash(&keys, &b, COLOR_WHITE);
    let idx = (hash % (TT_SIZE as u64)) as usize;
    let stored_move = mv(76, 67);
    let mut ctx = fresh_ctx();
    ctx.tt[idx] = Some(TTEntry {
        hash,
        depth: 3,
        score: 123,
        flag: TT_EXACT,
        best_move: Some(stored_move),
    });
    let (best, score) = alphabeta(&b, 2, -30000, 30000, COLOR_WHITE, 0, &mut ctx, &cfg, &keys);
    assert_eq!(best, Some(stored_move));
    assert_eq!(score, 123);
    assert_eq!(ctx.nodes, 1, "a table answer visits no children");
}

#[test]
fn history_entries_stay_under_the_ceiling() {
    let mut b = empty_board();
    b[76] = W_KING;
    b[72] = W_ROOK;
    b[60] = W_KNIGHT;
    b[62] = W_KNIGHT;
    b[58] = W_PAWN;
    b[4] = B_KING;
    b[8] = B_ROOK;
    b[20] = B_KNIGHT;
    b[24] = B_KNIGHT;
    b[22] = B_PAWN;
    let cfg = normal_cfg();
    let keys = get_zobrist_keys();
    let mut ctx = fresh_ctx();
    alphabeta(&b, 4, -30000, 30000, COLOR_WHITE, 0, &mut ctx, &cfg, &keys);
    for &h in ctx.history.iter() {
        assert!(0 <= h && h <= 100_000);
    }
}
