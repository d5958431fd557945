use chess_engine::engines::MoveStatus;
use chess_engine::types::{GameState, Move};
use chess_engine::utils::parse_fen;

fn state(fen: &str) -> GameState {
    let s = parse_fen(fen).unwrap().state();
    assert!(s.validate(), "not a position to play from: {}", fen);
    s
}

fn offered(s: &GameState) -> Vec<Move> {
    let mut board = s.board;
    board.get_valid(s.player, &s.can_castle, s.en_passant)
}

/// Whether the mover's king is attacked once `mv` is made in `s`.
fn leaves_king_attacked(s: &GameState, mv: Move) -> bool {
    let mut t = *s;
    let _: MoveStatus = t.do_move(mv);
    let king = t.board.get_king_pos(s.player);
    t.board.is_checked(king, s.player)
}

/// How many lines of play of `depth` moves start in `s`.
fn count_lines(s: &GameState, depth: usize) -> u64 {
    if depth == 0 {
        return 1;
    }
    let mut lines = 0;
    for mv in offered(s) {
        let mut t = *s;
        t.do_move(mv);
        lines += count_lines(&t, depth - 1);
    }
    lines
}

/// Looks at every position within `depth` moves of `s` and checks that no
/// move that is offered leaves the mover's king attacked, and that every
/// move that obeys the movement rules and keeps the king safe is offered.
fn check_safety(s: &GameState, depth: usize) {
    let list = offered(s);
    for mv in s.board.get_pseudo_legal(s.player, &s.can_castle, s.en_passant) {
        assert_eq!(list.contains(&mv), !leaves_king_attacked(s, mv), "{:?}", mv);
    }
    if depth > 1 {
        for mv in list {
            let mut t = *s;
            t.do_move(mv);
            check_safety(&t, depth - 1);
        }
    }
}

#[test]
fn lines_of_play_from_the_start() {
    let s = state("rnbqkbnr/pppppppp/8/8/8/8/PPPPPPPP/RNBQKBNR w KQkq - 0 1");
    assert_eq!(count_lines(&s, 1), 20);
    assert_eq!(count_lines(&s, 2), 400);
    assert_eq!(count_lines(&s, 3), 8902);
}

#[test]
fn lines_of_play_in_a_full_middle_game() {
    let s = state("r3k2r/p1ppqpb1/bn2pnp1/3PN3/1p2P3/2N2Q1p/PPPBBPPP/R3K2R w KQkq - 0 1");
    assert_eq!(count_lines(&s, 1), 48);
    assert_eq!(count_lines(&s, 2), 2039);
}

#[test]
fn lines_of_play_in_an_endgame() {
    let s = state("8/2p5/3p4/KP5r/1R3p1k/8/4P1P1/8 w - - 0 1");
    assert_eq!(count_lines(&s, 1), 14);
    assert_eq!(count_lines(&s, 2), 191);
    assert_eq!(count_lines(&s, 3), 2812);
}

#[test]
fn the_offered_moves_are_those_that_keep_the_king_safe() {
    for fen in [
        "rnbqkbnr/pppppppp/8/8/8/8/PPPPPPPP/RNBQKBNR w KQkq - 0 1",
        "r3k2r/p1ppqpb1/bn2pnp1/3PN3/1p2P3/2N2Q1p/PPPBBPPP/R3K2R w KQkq - 0 1",
        "8/2p5/3p4/KP5r/1R3p1k/8/4P1P1/8 w - - 0 1",
        "rnbq1k1r/pp1Pbppp/2p5/8/2B5/8/PPP1NnPP/RNBQK2R w KQ - 1 8",
    ] {
        check_safety(&state(fen), 3);
    }
}
