use chess_engine::engines::First;
use chess_engine::engines::FirstPar;
use chess_engine::engines::FirstTrans;
use chess_engine::engines::search::{
    capture_key, order_moves, order_moves_in_parallel, Searcher,
};
use chess_engine::engines::table::{bucket_key, same_board, same_state, TranspositionTable};
use chess_engine::engines::{preferred_moves, select_move, Engine, MoveStatus};
use chess_engine::score_functions::{bad_placement, is_unprotected, score1};
use chess_engine::types::{GameState, IsPiece, Move, Score, KING, SCORE_INF};
use chess_engine::utils::parse_fen;

fn state(fen: &str) -> GameState {
    let s = parse_fen(fen).unwrap().state();
    assert!(s.validate(), "not a position to play from: {}", fen);
    s
}

fn moves(s: &GameState) -> Vec<Move> {
    let mut board = s.board;
    board.get_valid(s.player, &s.can_castle, s.en_passant)
}

fn sorted(mut m: Vec<Move>) -> Vec<Move> {
    m.sort();
    m
}

/// The value of `s` by plain minimax, without pruning and without a table.
fn minimax(s: &GameState, depth: usize) -> Score {
    if depth == 0 {
        return score1(&s.board, -s.player);
    }
    let list = moves(s);
    if list.is_empty() {
        let king = s.board.get_king_pos(s.player);
        if s.board.is_checked(king, s.player) {
            return -(1000 + 10 * depth as Score) * s.player as Score;
        }
        return 0;
    }
    let mut best: Option<Score> = None;
    for mv in list {
        assert!(!s.board.at(mv.1).is(KING));
        let mut t = *s;
        t.do_move(mv);
        let v = minimax(&t, depth - 1);
        best = match best {
            None => Some(v),
            Some(b) => Some(if s.player == 1 { b.max(v) } else { b.min(v) }),
        };
    }
    best.unwrap()
}

fn minimax_root(s: &GameState, depth: usize) -> (Vec<Move>, Score) {
    let score = minimax(s, depth);
    let mut best = Vec::new();
    for mv in moves(s) {
        let mut t = *s;
        t.do_move(mv);
        if minimax(&t, depth - 1) == score {
            best.push(mv);
        }
    }
    (best, score)
}

const MATE_IN_ONE: &str = "6k1/5ppp/8/8/8/8/8/R5K1 w - - 0 1";
const STALEMATE: &str = "7k/5K2/6Q1/8/8/8/8/8 b - - 0 1";
const TACTICS: [&str; 5] = [
    "6k1/5ppp/8/8/8/8/8/R5K1 w - - 0 1",
    "4k3/8/8/2q1p3/3Q4/2P5/8/3RK3 w - - 0 1",
    "r3k2r/8/8/8/8/8/8/R3K2R b KQkq - 0 1",
    "4k3/3p4/8/4P3/8/8/8/4K3 b - - 0 1",
    "2kr4/ppp5/8/8/8/5B2/5PPP/6K1 b - - 0 1",
];

#[test]
fn static_score_counts_material() {
    let rook = state("4k3/8/8/8/8/8/8/R3K3 w - - 0 1");
    assert_eq!(rook.board.count_material(), 50);
    assert_eq!(score1(&rook.board, 1), 50);
    assert_eq!(score1(&rook.board, -1), 50);
    let start = state("rnbqkbnr/pppppppp/8/8/8/8/PPPPPPPP/RNBQKBNR w KQkq - 0 1");
    assert_eq!(start.board.count_material(), 0);
    assert_eq!(bad_placement(&start.board), 0);
    assert_eq!(score1(&start.board, 1), 0);
    let black = state("q3k3/8/8/8/8/8/8/4K2P w - - 0 1");
    assert_eq!(black.board.count_material(), -80);
}

#[test]
fn static_score_counts_the_worst_hanging_piece() {
    let loose = state("4k3/8/8/4p3/3Q4/8/8/4K3 w - - 0 1");
    assert_eq!(loose.board.count_material(), 80);
    assert_eq!(score1(&loose.board, 1), -10);
    assert_eq!(score1(&loose.board, -1), 90);
    let held = state("4k3/8/8/4p3/3Q4/2P5/8/4K3 w - - 0 1");
    assert_eq!(held.board.count_material(), 90);
    assert_eq!(score1(&held.board, 1), 80);
    let even = state("4k3/8/8/4p3/3P4/2P5/8/4K3 w - - 0 1");
    assert_eq!(score1(&even.board, 1), 10);
}

#[test]
fn hanging_means_attacked_and_loose_or_cheaper_attacker() {
    assert!(is_unprotected(90, 10, 0));
    assert!(is_unprotected(90, 10, 30));
    assert!(!is_unprotected(10, 90, 30));
    assert!(!is_unprotected(30, 30, 10));
    assert!(is_unprotected(10, 90, 0));
    assert!(!is_unprotected(90, 0, 0));
    assert!(!is_unprotected(90, 0, 30));
}

#[test]
fn static_score_counts_bad_placement() {
    let edge = state("4k3/8/8/8/N7/8/8/4K3 w - - 0 1");
    assert_eq!(bad_placement(&edge.board), -1);
    assert_eq!(score1(&edge.board, 1), 29);
    let corner = state("4k3/8/8/8/8/8/8/N3K3 w - - 0 1");
    assert_eq!(bad_placement(&corner.board), -1);
    let back = state("2b1k1n1/8/8/8/8/8/8/4K3 w - - 0 1");
    assert_eq!(bad_placement(&back.board), 2);
    assert_eq!(score1(&back.board, 1), -58);
    let files = state("4k3/8/8/8/8/P7/P7/R3K3 w - - 0 1");
    assert_eq!(bad_placement(&files.board), -2);
    assert_eq!(score1(&files.board, 1), 68);
    let others = state("4k3/p7/8/8/8/8/8/R3K3 w - - 0 1");
    assert_eq!(bad_placement(&others.board), 0);
    let black = state("r3k3/p7/p7/p7/8/8/8/4K3 w - - 0 1");
    assert_eq!(bad_placement(&black.board), 3);
    let free = state("4k3/8/8/3NB3/8/8/8/4K3 w - - 0 1");
    assert_eq!(bad_placement(&free.board), 0);
}

#[test]
fn mate_in_one_is_found_and_scored_as_a_mate() {
    for depth in [2usize, 3] {
        let mut engine = First::new(MATE_IN_ONE, depth).ok().unwrap();
        let (mv, score) = engine.make_move().unwrap();
        assert_eq!(mv, Some(((0, 0), (0, 7))));
        assert_eq!(score, 1000 + 10 * (depth as Score - 1));
        let (best, again) = engine.get_best_moves().unwrap();
        assert_eq!(best, vec![((0, 0), (0, 7))]);
        assert_eq!(again, score);
    }
}

#[test]
fn a_mated_side_has_no_move_and_a_mate_score() {
    let mut engine = First::new("R5k1/5ppp/8/8/8/8/8/6K1 b - - 0 1", 2).ok().unwrap();
    let (best, score) = engine.get_best_moves().unwrap();
    assert!(best.is_empty());
    assert_eq!(score, 1020);
    assert_eq!(engine.make_move(), Some((None, 1020)));
    let mut white = First::new("6k1/8/8/8/8/8/5PPP/r5K1 w - - 0 1", 3).ok().unwrap();
    assert_eq!(white.make_move(), Some((None, -1030)));
}

#[test]
fn stalemate_scores_nothing_and_has_no_move() {
    for depth in [1usize, 2, 4] {
        let mut engine = First::new(STALEMATE, depth).ok().unwrap();
        let (best, score) = engine.get_best_moves().unwrap();
        assert!(best.is_empty());
        assert_eq!(score, 0);
        assert_eq!(engine.make_move(), Some((None, 0)));
    }
}

#[test]
fn pruning_changes_neither_score_nor_moves() {
    for fen in TACTICS {
        let s = state(fen);
        for depth in 1..=3usize {
            let (want_moves, want_score) = minimax_root(&s, depth);
            let mut engine = First::new(fen, depth).ok().unwrap();
            let (got_moves, got_score) = engine.get_best_moves().unwrap();
            assert_eq!(got_score, want_score, "{} at depth {}", fen, depth);
            assert_eq!(sorted(got_moves), sorted(want_moves), "{} at depth {}", fen, depth);
            assert_eq!(engine.searcher.state.board, s.board);
            assert_eq!(engine.searcher.depth, depth);
        }
    }
}

#[test]
fn a_narrow_window_bounds_the_value_from_the_right_side() {
    for fen in TACTICS {
        let s = state(fen);
        for depth in 0..=2usize {
            let value = minimax(&s, depth);
            let windows = [
                (-SCORE_INF, SCORE_INF),
                (value - 1, value + 1),
                (value, value + 5),
                (value - 5, value),
                (value + 3, value + 9),
                (value - 9, value - 3),
            ];
            for (alpha, beta) in windows {
                let mut engine = First::new(fen, depth).ok().unwrap();
                let got = engine.recursive_best(alpha, beta).unwrap();
                if alpha < got && got < beta {
                    assert_eq!(got, value);
                }
                if got <= alpha {
                    assert!(value <= got);
                }
                if got >= beta {
                    assert!(value >= got);
                }
                if alpha < value && value < beta {
                    assert_eq!(got, value);
                }
            }
        }
    }
}

#[test]
fn the_table_changes_neither_score_nor_moves() {
    for fen in TACTICS {
        for depth in 1..=3usize {
            let mut plain = First::new(fen, depth).ok().unwrap();
            let mut table = FirstTrans::new(fen, depth).ok().unwrap();
            let (plain_moves, plain_score) = plain.get_best_moves().unwrap();
            let (table_moves, table_score) = table.get_best_moves().unwrap();
            assert_eq!(table_score, plain_score, "{} at depth {}", fen, depth);
            assert_eq!(sorted(table_moves), sorted(plain_moves), "{} at depth {}", fen, depth);
        }
    }
    let mut deep = FirstTrans::new(TACTICS[1], 4).ok().unwrap();
    let (_, score) = deep.get_best_moves().unwrap();
    assert_eq!(score, minimax(&state(TACTICS[1]), 4));
    assert!(deep.num_skips() > 0);
    assert!(deep.num_leafs() > 0);
}

#[test]
fn searching_each_root_move_apart_changes_neither_score_nor_moves() {
    for fen in TACTICS {
        for depth in 1..=3usize {
            let mut plain = First::new(fen, depth).ok().unwrap();
            let mut apart = FirstPar::new(fen, depth).ok().unwrap();
            let (plain_moves, plain_score) = plain.get_best_moves().unwrap();
            let (apart_moves, apart_score) = apart.get_best_moves().unwrap();
            assert_eq!(apart_score, plain_score, "{} at depth {}", fen, depth);
            assert_eq!(sorted(apart_moves), sorted(plain_moves), "{} at depth {}", fen, depth);
        }
    }
    let mut engine = FirstPar::new(TACTICS[0], 2).ok().unwrap();
    let list = engine.root_moves();
    assert_eq!(sorted(list.clone()), sorted(moves(&state(TACTICS[0]))));
    let outcomes = engine.explore_all(&list);
    assert_eq!(outcomes.len(), list.len());
    for (mv, o) in list.iter().zip(outcomes.iter()) {
        let o = o.unwrap();
        assert_eq!(o.mv, *mv);
        let mut t = state(TACTICS[0]);
        t.do_move(*mv);
        assert_eq!(o.score, minimax(&t, 1));
        assert_eq!(engine.explore(*mv).unwrap().score, o.score);
    }
    let (best, score) = engine.finish(&list, &outcomes).unwrap();
    assert_eq!(best, vec![((0, 0), (0, 7))]);
    assert_eq!(score, 1010);
    assert!(engine.num_leafs() > 0);
    let (mv, s2) = engine.make_move().unwrap();
    assert_eq!((mv, s2), (Some(((0, 0), (0, 7))), 1010));
}

#[test]
fn a_move_onto_a_king_ends_the_search_without_an_answer() {
    let mut s = state("4k3/8/8/8/8/8/8/4K2R w - - 0 1");
    s.board.put((4, 7), 0);
    s.board.put((7, 7), -KING);
    let mut searcher = Searcher::new(s, 2, false);
    assert_eq!(searcher.best_moves(), None);
    assert_eq!(searcher.state.board, s.board);
    let mut below = Searcher::new(s, 1, false);
    assert_eq!(below.recursive_best(-SCORE_INF, SCORE_INF), None);
}

#[test]
fn doing_and_undoing_on_an_engine_counts_the_depth() {
    let mut engine = First::new("4k3/8/8/8/8/8/4P3/4K3 w - - 0 1", 3).ok().unwrap();
    let before = engine.searcher.state;
    assert_eq!(engine.score_function(), 10);
    let mv = ((4, 1), (4, 3));
    let status: MoveStatus = engine.do_move(mv);
    assert_eq!(engine.searcher.depth, 2);
    assert_eq!(engine.searcher.state.en_passant, Some((4, 2)));
    assert!(!engine.is_white());
    engine.undo_move(mv, status);
    assert_eq!(engine.searcher.depth, 3);
    assert_eq!(engine.searcher.state.board, before.board);
    assert_eq!(engine.searcher.state.en_passant, None);
    assert!(engine.is_white());
    let blank = MoveStatus::default();
    assert_eq!((blank.piece, blank.capture), (0, 0));
    assert!(blank.en_passant.is_none() && blank.castle_status.is_none());
}

#[test]
fn moves_are_ordered_by_what_they_take() {
    let s = state("4k3/8/8/1q1r1p2/2N1N3/8/8/4K3 w - - 0 1");
    assert_eq!(capture_key(&s.board, (1, 4)), -90);
    assert_eq!(capture_key(&s.board, (3, 4)), -50);
    assert_eq!(capture_key(&s.board, (5, 4)), -10);
    assert_eq!(capture_key(&s.board, (4, 7)), -10000);
    assert_eq!(capture_key(&s.board, (0, 0)), 0);
    let list = vec![
        ((2, 3), (0, 2)),
        ((4, 3), (5, 4)),
        ((2, 3), (3, 4)),
        ((4, 3), (6, 2)),
        ((2, 3), (1, 4)),
    ];
    let ordered = order_moves(list.clone(), &s.board);
    assert_eq!(ordered.len(), 5);
    assert_eq!(ordered[0], ((2, 3), (1, 4)));
    assert_eq!(ordered[1], ((2, 3), (3, 4)));
    assert_eq!(ordered[2], ((4, 3), (5, 4)));
    assert_eq!(sorted(ordered), sorted(list.clone()));
    let by_many = order_moves_in_parallel(list.clone(), &s.board);
    assert_eq!(by_many.len(), 5);
    assert_eq!(by_many[0], ((2, 3), (1, 4)));
    assert_eq!(by_many[1], ((2, 3), (3, 4)));
    assert_eq!(by_many[2], ((4, 3), (5, 4)));
    assert_eq!(sorted(by_many), sorted(list));
    let engine = FirstPar::new("4k3/8/8/1q1r1p2/2P1P3/8/8/4K3 w - - 0 1", 1).ok().unwrap();
    let roots = engine.root_moves();
    assert_eq!(roots[0], ((2, 3), (1, 4)));
    assert_eq!(roots[1].1, (3, 4));
    assert_eq!(roots[2].1, (3, 4));
    assert_eq!(roots[3], ((4, 3), (5, 4)));
}

#[test]
fn the_selector_prefers_castling() {
    let s = state("r3k2r/8/8/8/8/8/8/R3K2R w KQkq - 0 1");
    let list = vec![((0, 0), (0, 5)), ((4, 0), (2, 0)), ((4, 0), (4, 1)), ((4, 0), (6, 0))];
    assert_eq!(preferred_moves(&s.board, (4, 7), &list), vec![((4, 0), (2, 0))]);
    for _ in 0..10 {
        assert_eq!(select_move(&s, &list), ((4, 0), (2, 0)));
    }
}

#[test]
fn the_selector_prefers_moves_towards_the_other_king() {
    let s = state("7k/8/8/8/8/8/8/RN2K3 w - - 0 1");
    let list = vec![((0, 0), (0, 5)), ((4, 0), (3, 0)), ((1, 0), (2, 2)), ((4, 0), (5, 1))];
    let nearer = preferred_moves(&s.board, (7, 7), &list);
    assert_eq!(nearer, vec![((1, 0), (2, 2)), ((4, 0), (5, 1))]);
    for _ in 0..20 {
        assert!(nearer.contains(&select_move(&s, &list)));
    }
    let away = vec![((0, 0), (0, 5)), ((4, 0), (3, 0))];
    assert_eq!(preferred_moves(&s.board, (7, 7), &away), away);
    for _ in 0..20 {
        assert!(away.contains(&select_move(&s, &away)));
    }
    let engine = First::new("7k/8/8/8/8/8/8/RN2K3 w - - 0 1", 1).ok().unwrap();
    for _ in 0..20 {
        assert!(nearer.contains(&engine.choose_move(list.clone())));
    }
}

#[test]
fn the_table_gives_back_what_was_stored() {
    let a = state("4k3/8/8/8/8/8/8/R3K3 w - - 0 1");
    let b = state("4k3/8/8/8/8/8/8/R3K3 b - - 0 1");
    let mut table = TranspositionTable::new();
    assert_eq!(table.lookup(&a, 2), None);
    table.store(a, 2, 50);
    assert_eq!(table.lookup(&a, 2), Some(50));
    assert_eq!(table.lookup(&a, 3), None);
    assert_eq!(table.lookup(&b, 2), None);
    table.store(b, 2, -7);
    table.store(a, 3, 12);
    assert_eq!(table.lookup(&a, 2), Some(50));
    assert_eq!(table.lookup(&b, 2), Some(-7));
    assert_eq!(table.lookup(&a, 3), Some(12));
    assert!(same_state(&a, &a));
    assert!(!same_state(&a, &b));
    assert!(same_board(&a.board, &b.board));
    let mut c = a;
    c.board.put((0, 0), 0);
    assert!(!same_board(&a.board, &c.board));
    assert_eq!(bucket_key(&a, 2), bucket_key(&a, 2));
    assert!(bucket_key(&a, 2) < 1_000_000_007);
    let mut d = a;
    d.en_passant = Some((3, 5));
    assert!(!same_state(&a, &d));
    let mut e = a;
    e.can_castle.white.q = true;
    assert!(!same_state(&a, &e));
}

#[test]
fn a_king_taken_one_ply_below_ends_the_search_without_an_answer() {
    let fen = "K3k3/8/8/8/8/8/8/7R w q - 0 1";
    let root = state(fen);
    let mut after = root;
    after.do_move(((7, 0), (7, 1)));
    let long = ((4, 7), (2, 7));
    assert!(moves(&after).contains(&long));
    assert!(after.takes_king(long));
    let mut shallow = First::new(fen, 1).ok().unwrap();
    assert!(shallow.get_best_moves().is_some());
    for depth in [2usize, 3] {
        let mut plain = First::new(fen, depth).ok().unwrap();
        assert_eq!(plain.get_best_moves(), None);
        assert_eq!(plain.make_move(), None);
        assert_eq!(plain.searcher.state.board, root.board);
        let mut table = FirstTrans::new(fen, depth).ok().unwrap();
        assert_eq!(table.get_best_moves(), None);
        let mut apart = FirstPar::new(fen, depth).ok().unwrap();
        assert_eq!(apart.get_best_moves(), None);
    }
    let mut below = Searcher::new(after, 1, false);
    assert_eq!(below.recursive_best(-SCORE_INF, SCORE_INF), None);
    assert_eq!(below.recursive_best(5, 6), None);
}

#[test]
fn the_horizon_and_the_end_of_the_game_answer_whatever_the_window() {
    let mut leaf = First::new("4k3/8/8/4p3/3Q4/8/8/4K3 w - - 0 1", 0).ok().unwrap();
    for (alpha, beta) in [(-SCORE_INF, SCORE_INF), (500, 600), (-600, -500)] {
        let before = leaf.num_leafs();
        assert_eq!(leaf.recursive_best(alpha, beta), Some(90));
        assert_eq!(leaf.num_leafs(), before + 1);
    }
    let mut mated = First::new("R5k1/5ppp/8/8/8/8/8/6K1 b - - 0 1", 3).ok().unwrap();
    for (alpha, beta) in [(-SCORE_INF, SCORE_INF), (2000, 3000), (-10, 10)] {
        assert_eq!(mated.recursive_best(alpha, beta), Some(1030));
        assert_eq!(mated.num_leafs(), 0);
    }
    let mut stuck = First::new("7k/5K2/6Q1/8/8/8/8/8 b - - 0 1", 2).ok().unwrap();
    assert_eq!(stuck.recursive_best(40, 50), Some(0));
}

#[test]
fn a_deeper_search_from_the_start_agrees_with_and_without_the_table() {
    let fen = "rnbqkbnr/pppppppp/8/8/8/8/PPPPPPPP/RNBQKBNR w KQkq - 0 1";
    let mut plain = First::new(fen, 4).ok().unwrap();
    let mut table = FirstTrans::new(fen, 4).ok().unwrap();
    let (plain_moves, plain_score) = plain.get_best_moves().unwrap();
    let (table_moves, table_score) = table.get_best_moves().unwrap();
    assert_eq!(plain_score, table_score);
    assert_eq!(sorted(plain_moves), sorted(table_moves));
    assert!(table.num_skips() > 0);
    assert!(table.num_leafs() <= plain.num_leafs());
}
