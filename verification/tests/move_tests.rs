use chess_engine::types::{
    CastleStatus, GameState, Move, PlayerCastleStatus, BISHOP, KING, KNIGHT, PAWN, QUEEN, ROOK,
};
use chess_engine::utils::parse_fen;

fn state(fen: &str) -> GameState {
    let s = parse_fen(fen).unwrap().state();
    assert!(s.validate(), "not a position to play from: {}", fen);
    s
}

fn moves(s: &GameState) -> Vec<Move> {
    let mut board = s.board;
    let out = board.get_valid(s.player, &s.can_castle, s.en_passant);
    assert_eq!(board, s.board);
    out
}

fn same(a: &GameState, b: &GameState) -> bool {
    a.board == b.board
        && a.player == b.player
        && a.can_castle == b.can_castle
        && a.en_passant == b.en_passant
}

const START: &str = "rnbqkbnr/pppppppp/8/8/8/8/PPPPPPPP/RNBQKBNR w KQkq - 0 1";
const MIDDLE: &str = "r3k2r/p1ppqpb1/bn2pnp1/3PN3/1p2P3/2N2Q1p/PPPBBPPP/R3K2R w KQkq - 0 1";
const ENDGAME: &str = "8/2p5/3p4/KP5r/1R3p1k/8/4P1P1/8 w - - 0 1";

#[test]
fn attacks_by_pawns() {
    let s = state("4k3/8/4P3/8/8/8/3p4/4K3 w - - 0 1");
    assert!(s.board.is_checked((4, 0), 1));
    assert!(s.board.is_checked((2, 0), 1));
    assert!(!s.board.is_checked((3, 0), 1));
    assert!(s.board.is_checked((3, 6), -1));
    assert!(s.board.is_checked((5, 6), -1));
    assert!(!s.board.is_checked((4, 6), -1));
    assert!(!s.board.is_checked((3, 4), -1));
}

#[test]
fn attacks_by_knights() {
    let s = state("4k3/8/8/8/8/2n5/8/4K3 w - - 0 1");
    assert!(s.board.is_checked((3, 0), 1));
    assert!(s.board.is_checked((4, 1), 1));
    assert!(s.board.is_checked((0, 3), 1));
    assert!(!s.board.is_checked((4, 0), 1));
    assert!(!s.board.is_checked((2, 2), 1));
}

#[test]
fn attacks_along_lines_stop_at_the_first_piece() {
    let s = state("4k3/8/8/8/r2P1K1q/8/8/b7 w - - 0 1");
    assert!(s.board.is_checked((5, 3), 1));
    assert!(s.board.is_checked((6, 3), 1));
    assert!(s.board.is_checked((1, 3), 1));
    assert!(s.board.is_checked((3, 3), 1));
    assert!(!s.board.is_checked((4, 3), 1));
    assert!(s.board.is_checked((2, 2), 1));
    assert!(!s.board.is_checked((4, 4), 1));
    assert!(s.board.is_checked((7, 0), 1));
}

#[test]
fn attacks_by_the_king() {
    let s = state("8/8/8/3k4/8/8/8/4K3 w - - 0 1");
    assert!(s.board.is_checked((4, 3), 1));
    assert!(s.board.is_checked((2, 5), 1));
    assert!(s.board.is_checked((3, 4), 1));
    assert!(!s.board.is_checked((5, 4), 1));
    assert!(s.board.is_checked((3, 1), -1));
    assert!(!s.board.is_checked((3, 2), -1));
}

#[test]
fn cheapest_attacker_and_defender() {
    let s = state("4k3/8/8/2q1p3/3Q4/2P5/8/3RK3 w - - 0 1");
    assert_eq!(s.board.check_pos((3, 3), 1, false), 10);
    assert_eq!(s.board.check_pos((3, 3), 1, true), 10);
    assert_eq!(s.board.check_pos((2, 4), -1, false), 90);
    assert_eq!(s.board.check_pos((2, 4), -1, true), 0);
    assert_eq!(s.board.check_pos((3, 1), 1, true), 50);
    assert_eq!(s.board.check_pos((3, 1), 1, false), 0);
    assert_eq!(s.board.check_pos((4, 6), -1, true), 90);
    assert_eq!(s.board.check_pos((3, 7), -1, true), 10000);
    assert_eq!(s.board.check_pos((0, 0), 1, false), 0);
    let n = state("4k3/8/8/8/8/2n2b2/8/4K3 w - - 0 1");
    assert_eq!(n.board.check_pos((3, 0), 1, false), 30);
    assert_eq!(n.board.check_pos((4, 1), 1, false), 30);
    assert_eq!(n.board.check_pos((6, 1), 1, false), 30);
    assert_eq!(n.board.check_pos((5, 1), 1, true), 10000);
}

#[test]
fn twenty_moves_from_the_start() {
    let s = state(START);
    let m = moves(&s);
    assert_eq!(m.len(), 20);
    assert!(m.contains(&((4, 1), (4, 3))));
    assert!(m.contains(&((4, 1), (4, 2))));
    assert!(m.contains(&((6, 0), (5, 2))));
    assert!(m.contains(&((1, 0), (0, 2))));
    assert!(!m.contains(&((4, 0), (4, 1))));
    assert!(!m.contains(&((0, 0), (0, 1))));
}

#[test]
fn forty_eight_moves_in_a_full_middle_game() {
    let s = state(MIDDLE);
    let m = moves(&s);
    assert_eq!(m.len(), 48);
    assert!(m.contains(&((4, 0), (6, 0))));
    assert!(m.contains(&((4, 0), (2, 0))));
    assert!(m.contains(&((5, 2), (5, 5))));
}

#[test]
fn a_pinned_pawn_stays() {
    let s = state(ENDGAME);
    let m = moves(&s);
    assert_eq!(m.len(), 14);
    assert!(!m.contains(&((1, 4), (1, 5))));
    assert!(!m.contains(&((0, 4), (1, 5))));
    assert!(m.contains(&((1, 3), (5, 3))));
    assert!(s.board.smart_checked(1, (0, 4), ((1, 4), (1, 5))));
    assert!(!s.board.smart_checked(1, (0, 4), ((1, 4), (2, 4))));
    assert!(!s.board.smart_checked(1, (0, 4), ((1, 3), (1, 2))));
}

#[test]
fn a_line_is_uncovered_from_far_away() {
    let s = state("4k3/8/8/K4N1r/8/8/8/8 w - - 0 1");
    assert!(s.board.smart_checked(1, (0, 4), ((5, 4), (4, 6))));
    assert!(!s.board.smart_checked(1, (0, 4), ((5, 4), (6, 4))));
    let m = moves(&s);
    assert!(!m.iter().any(|mv| mv.0 == (5, 4)));
    let d = state("7k/6b1/8/8/3N4/8/8/K7 w - - 0 1");
    assert!(d.board.smart_checked(1, (0, 0), ((3, 3), (4, 5))));
    let e = state("7k/6r1/8/8/3N4/8/8/K7 w - - 0 1");
    assert!(!e.board.smart_checked(1, (0, 0), ((3, 3), (4, 5))));
}

#[test]
fn in_check_only_moves_that_end_it() {
    let s = state("4k3/8/8/8/8/8/3PPP2/r3K3 w - - 0 1");
    let m = moves(&s);
    assert!(m.is_empty());
    let t = state("4k3/8/8/8/8/8/3P1P2/r3K3 w - - 0 1");
    assert_eq!(moves(&t), vec![((4, 0), (4, 1))]);
    let u = state("4k3/8/8/8/8/8/3PPP2/r2RK3 w - - 0 1");
    assert!(!u.board.is_checked((4, 0), 1));
    assert!(moves(&u).contains(&((3, 0), (0, 0))));
    let v = state("4k3/8/8/8/8/8/R2PPP2/r3K3 w - - 0 1");
    let mv = moves(&v);
    assert_eq!(mv.len(), 1);
    assert!(mv.contains(&((0, 1), (0, 0))));
}

#[test]
fn castling_needs_right_room_and_safety() {
    let both = state("r3k2r/8/8/8/8/8/8/R3K2R w KQkq - 0 1");
    let m = moves(&both);
    assert!(m.contains(&((4, 0), (6, 0))));
    assert!(m.contains(&((4, 0), (2, 0))));
    let no_right = state("r3k2r/8/8/8/8/8/8/R3K2R w Qkq - 0 1");
    let m = moves(&no_right);
    assert!(!m.contains(&((4, 0), (6, 0))));
    assert!(m.contains(&((4, 0), (2, 0))));
    let blocked = state("r3k2r/8/8/8/8/8/8/RN2K1NR w KQkq - 0 1");
    let m = moves(&blocked);
    assert!(!m.contains(&((4, 0), (6, 0))));
    assert!(!m.contains(&((4, 0), (2, 0))));
    let crossed = state("r3k2r/8/8/8/8/5r2/8/R3K2R w KQkq - 0 1");
    let m = moves(&crossed);
    assert!(!m.contains(&((4, 0), (6, 0))));
    assert!(m.contains(&((4, 0), (2, 0))));
    let checked = state("r3k2r/8/8/8/8/4r3/8/R3K2R w KQkq - 0 1");
    let m = moves(&checked);
    assert!(!m.contains(&((4, 0), (6, 0))));
    assert!(!m.contains(&((4, 0), (2, 0))));
    let landing = state("r3k2r/8/8/8/8/6r1/8/R3K2R w KQkq - 0 1");
    let m = moves(&landing);
    assert!(!m.contains(&((4, 0), (6, 0))));
    let black = state("r3k2r/8/8/8/8/8/8/R3K2R b KQkq - 0 1");
    let m = moves(&black);
    assert!(m.contains(&((4, 7), (6, 7))));
    assert!(m.contains(&((4, 7), (2, 7))));
}

#[test]
fn castling_moves_king_and_rook_and_ends_both_rights() {
    let before = state("r3k2r/8/8/8/8/8/8/R3K2R w KQkq - 0 1");
    let mut s = before;
    let mv = ((4, 0), (6, 0));
    assert!(moves(&s).contains(&mv));
    let status = s.do_move(mv);
    assert_eq!(s.board.at((6, 0)), KING);
    assert_eq!(s.board.at((5, 0)), ROOK);
    assert_eq!(s.board.at((4, 0)), 0);
    assert_eq!(s.board.at((7, 0)), 0);
    assert_eq!(s.board.at((0, 0)), ROOK);
    assert_eq!(s.can_castle.white, PlayerCastleStatus { k: false, q: false });
    assert_eq!(s.can_castle.black, PlayerCastleStatus { k: true, q: true });
    assert_eq!(s.player, -1);
    assert!(s.validate());
    s.undo_move(mv, status);
    assert!(same(&s, &before));

    let mut q = before;
    let long = ((4, 0), (2, 0));
    let status = q.do_move(long);
    assert_eq!(q.board.at((2, 0)), KING);
    assert_eq!(q.board.at((3, 0)), ROOK);
    assert_eq!(q.board.at((0, 0)), 0);
    assert_eq!(q.board.at((4, 0)), 0);
    assert_eq!(q.board.at((7, 0)), ROOK);
    assert_eq!(q.can_castle.white, PlayerCastleStatus { k: false, q: false });
    q.undo_move(long, status);
    assert!(same(&q, &before));
}

#[test]
fn rook_moves_and_rook_captures_end_one_right() {
    let before = state("r3k2r/8/8/8/8/8/8/R3K2R w KQkq - 0 1");
    let mut s = before;
    let mv = ((7, 0), (7, 7));
    assert!(moves(&s).contains(&mv));
    let status = s.do_move(mv);
    assert_eq!(s.can_castle.white, PlayerCastleStatus { k: false, q: true });
    assert_eq!(s.can_castle.black, PlayerCastleStatus { k: true, q: true });
    assert_eq!(status.castle_status, Some(CastleStatus::default(true)));
    assert_eq!(status.capture, -ROOK);
    assert!(s.validate());
    s.undo_move(mv, status);
    assert!(same(&s, &before));

    let mut t = before;
    let quiet = ((0, 0), (0, 3));
    let status = t.do_move(quiet);
    assert_eq!(t.can_castle.white, PlayerCastleStatus { k: true, q: false });
    assert_eq!(t.can_castle.black, PlayerCastleStatus { k: true, q: true });
    t.undo_move(quiet, status);
    assert!(same(&t, &before));

    let mut u = before;
    let king = ((4, 0), (4, 1));
    let status = u.do_move(king);
    assert_eq!(u.can_castle.white, PlayerCastleStatus { k: false, q: false });
    assert_eq!(status.piece, KING);
    assert_eq!(status.capture, 0);
    u.undo_move(king, status);
    assert!(same(&u, &before));
}

#[test]
fn en_passant_takes_the_pawn_that_has_just_passed() {
    let before = state("4k3/3p4/8/4P3/8/8/8/4K3 b - - 0 1");
    let mut s = before;
    let double = ((3, 6), (3, 4));
    assert!(moves(&s).contains(&double));
    let first = s.do_move(double);
    assert_eq!(s.en_passant, Some((3, 5)));
    assert_eq!(s.board.at((3, 4)), -PAWN);
    assert!(s.validate());
    let after_double = s;
    let capture = ((4, 4), (3, 5));
    assert!(moves(&s).contains(&capture));
    let second = s.do_move(capture);
    assert_eq!(s.board.at((3, 5)), PAWN);
    assert_eq!(s.board.at((3, 4)), 0);
    assert_eq!(s.board.at((4, 4)), 0);
    assert_eq!(s.en_passant, None);
    assert_eq!(second.capture, 0);
    assert_eq!(second.en_passant, Some((3, 5)));
    assert!(s.validate());
    s.undo_move(capture, second);
    assert!(same(&s, &after_double));
    assert_eq!(s.board.at((3, 4)), -PAWN);
    s.undo_move(double, first);
    assert!(same(&s, &before));
}

#[test]
fn en_passant_only_right_after_the_double_step() {
    let s = state("4k3/8/8/3pP3/8/8/8/4K3 w - - 0 1");
    assert!(!moves(&s).contains(&((4, 4), (3, 5))));
    let t = state("4k3/8/8/3pP3/8/8/8/4K3 w - d6 0 1");
    assert!(moves(&t).contains(&((4, 4), (3, 5))));
    let black = state("4k3/8/8/8/3pP3/8/8/4K3 b - e3 0 1");
    assert!(moves(&black).contains(&((3, 3), (4, 2))));
    let mut b = black;
    b.do_move(((3, 3), (4, 2)));
    assert_eq!(b.board.at((4, 2)), -PAWN);
    assert_eq!(b.board.at((4, 3)), 0);
}

#[test]
fn a_pawn_on_the_far_rank_becomes_a_queen() {
    let before = state("1n2k3/P7/8/8/8/8/7p/4K3 w - - 0 1");
    let mut s = before;
    let push = ((0, 6), (0, 7));
    let take = ((0, 6), (1, 7));
    let m = moves(&s);
    assert!(m.contains(&push));
    assert!(m.contains(&take));
    let status = s.do_move(take);
    assert_eq!(s.board.at((1, 7)), QUEEN);
    assert_eq!(status.piece, PAWN);
    assert_eq!(status.capture, -KNIGHT);
    s.undo_move(take, status);
    assert!(same(&s, &before));
    let mut b = state("4k3/8/8/8/8/8/7p/4K3 b - - 0 1");
    b.do_move(((7, 1), (7, 0)));
    assert_eq!(b.board.at((7, 0)), -QUEEN);
}

#[test]
fn pawns_step_double_step_and_take() {
    let s = state("4k3/8/8/8/8/2p1p3/3P4/4K3 w - - 0 1");
    let m: Vec<Move> = moves(&s).into_iter().filter(|mv| mv.0 == (3, 1)).collect();
    assert_eq!(m.len(), 4);
    assert!(m.contains(&((3, 1), (3, 2))));
    assert!(m.contains(&((3, 1), (3, 3))));
    assert!(m.contains(&((3, 1), (2, 2))));
    assert!(m.contains(&((3, 1), (4, 2))));
    let blocked = state("4k3/8/8/8/3p4/8/3P4/4K3 w - - 0 1");
    let m: Vec<Move> = moves(&blocked).into_iter().filter(|mv| mv.0 == (3, 1)).collect();
    assert_eq!(m, vec![((3, 1), (3, 2))]);
    let stuck = state("4k3/8/8/8/8/3p4/3P4/4K3 w - - 0 1");
    assert!(!moves(&stuck).iter().any(|mv| mv.0 == (3, 1)));
}

#[test]
fn sliders_stop_at_their_own_and_take_the_others() {
    let s = state("4k3/8/8/3p4/8/8/1B1R2P1/4K3 w - - 0 1");
    let mut list: Vec<Move> = Vec::new();
    s.board.get_rook_moves(&mut list, 1, (3, 1));
    let mut to: Vec<(usize, usize)> = list.iter().map(|m| m.1).collect();
    to.sort();
    assert_eq!(to, vec![(2, 1), (3, 0), (3, 2), (3, 3), (3, 4), (4, 1), (5, 1)]);
    let mut diag: Vec<Move> = Vec::new();
    s.board.get_bishop_moves(&mut diag, 1, (1, 1));
    let mut to: Vec<(usize, usize)> = diag.iter().map(|m| m.1).collect();
    to.sort();
    assert_eq!(to, vec![(0, 0), (0, 2), (2, 0), (2, 2), (3, 3), (4, 4), (5, 5), (6, 6), (7, 7)]);
    assert_eq!(s.board.at((1, 1)), BISHOP);
}

#[test]
fn pseudo_legal_moves_ignore_the_king() {
    let s = state(ENDGAME);
    let pseudo = s.board.get_pseudo_legal(s.player, &s.can_castle, s.en_passant);
    assert!(pseudo.contains(&((1, 4), (1, 5))));
    assert!(pseudo.contains(&((0, 4), (1, 5))));
    assert_eq!(pseudo.len(), 16);
}

#[test]
fn taking_back_restores_every_position() {
    let positions = [
        START,
        MIDDLE,
        ENDGAME,
        "r3k2r/8/8/8/8/8/8/R3K2R b KQkq - 0 1",
        "4k3/8/8/3pP3/8/8/8/4K3 w - d6 0 1",
        "1n2k3/P7/8/8/8/8/7p/4K3 w - - 0 1",
        "rnbq1k1r/pp1Pbppp/2p5/8/2B5/8/PPP1NnPP/RNBQK2R w KQ - 1 8",
    ];
    for fen in positions {
        let before = state(fen);
        for mv in moves(&before) {
            let mut s = before;
            let status = s.do_move(mv);
            assert_eq!(s.player, -before.player);
            assert!(s.validate(), "{} after {:?}", fen, mv);
            s.undo_move(mv, status);
            assert!(same(&s, &before), "{} after {:?}", fen, mv);
        }
    }
}

#[test]
fn no_offered_move_leaves_the_own_king_attacked() {
    let positions = [
        START,
        MIDDLE,
        ENDGAME,
        "r3k2r/8/8/8/8/8/8/R3K2R b KQkq - 0 1",
        "4k3/8/8/8/8/8/3P1P2/r3K3 w - - 0 1",
        "rnbq1k1r/pp1Pbppp/2p5/8/2B5/8/PPP1NnPP/RNBQK2R w KQ - 1 8",
        "r4rk1/1pp1qppp/p1np1n2/2b1p1B1/2B1P1b1/P1NP1N2/1PP1QPPP/R4RK1 w - - 0 10",
        "4k3/8/8/b7/8/2N5/8/4K2R w K - 0 1",
    ];
    for fen in positions {
        let before = state(fen);
        for mv in moves(&before) {
            let mut s = before;
            s.do_move(mv);
            let king = s.board.get_king_pos(before.player);
            assert!(!s.board.is_checked(king, before.player), "{} after {:?}", fen, mv);
        }
    }
}

#[test]
fn a_capture_en_passant_that_bares_the_king_is_not_offered() {
    let shielded = state("8/8/8/K2pP2r/8/8/8/4k3 w - d6 0 1");
    assert!(!moves(&shielded).contains(&((4, 4), (3, 5))));
    let bared = state("8/8/8/K2Pp2r/8/8/8/4k3 w - e6 0 1");
    assert!(!moves(&bared).contains(&((3, 4), (4, 5))));
    assert!(moves(&bared).contains(&((3, 4), (3, 5))));
    let from_the_left = state("7k/8/8/rpPK4/8/8/8/8 w - b6 0 1");
    assert!(!moves(&from_the_left).contains(&((2, 4), (1, 5))));
    assert!(moves(&from_the_left).contains(&((2, 4), (2, 5))));
    let free = state("7k/8/8/1pPK4/8/8/8/8 w - b6 0 1");
    assert!(moves(&free).contains(&((2, 4), (1, 5))));
}

#[test]
fn a_piece_behind_a_shield_is_not_pinned() {
    let s = state("4k3/8/8/8/8/8/8/KNR4r w - - 0 1");
    assert!(!s.board.smart_checked(1, (0, 0), ((2, 0), (2, 5))));
    assert!(moves(&s).contains(&((2, 0), (2, 5))));
    assert!(s.board.smart_checked(1, (0, 0), ((1, 0), (2, 2))) == false);
    let t = state("4r1k1/8/8/8/4N3/4P3/8/4K3 w - - 0 1");
    assert!(!t.board.smart_checked(1, (4, 0), ((4, 3), (2, 4))));
    assert!(moves(&t).contains(&((4, 3), (2, 4))));
    assert!(t.board.reaches((4, 0), 0, 1, (4, 2)));
    assert!(!t.board.reaches((4, 0), 0, 1, (4, 3)));
    assert!(!t.board.reaches((4, 0), 1, 0, (4, 2)));
    let pinned = state("4r1k1/8/8/8/4N3/8/8/4K3 w - - 0 1");
    assert!(pinned.board.smart_checked(1, (4, 0), ((4, 3), (2, 4))));
    assert!(!moves(&pinned).iter().any(|mv| mv.0 == (4, 3)));
}

#[test]
fn castling_without_the_rook_can_be_taken_back() {
    let bare = state("4k3/8/8/8/8/8/8/4K3 w K - 0 1");
    let mv = ((4, 0), (6, 0));
    assert!(moves(&bare).contains(&mv));
    let mut s = bare;
    let status = s.do_move(mv);
    assert_eq!(s.board.at((5, 0)), ROOK);
    assert_eq!(s.board.at((7, 0)), 0);
    assert_eq!(status.corner, 0);
    s.undo_move(mv, status);
    assert!(same(&s, &bare));
    let guest = state("4k3/8/8/8/8/8/8/n3K3 w Q - 0 1");
    let long = ((4, 0), (2, 0));
    assert!(moves(&guest).contains(&long));
    let mut t = guest;
    assert!(!t.takes_king(long));
    let status = t.do_move(long);
    assert_eq!(t.board.at((3, 0)), ROOK);
    assert_eq!(t.board.at((0, 0)), 0);
    assert_eq!(status.corner, -KNIGHT);
    t.undo_move(long, status);
    assert!(same(&t, &guest));
    let king = state("4k3/8/8/8/8/8/8/R3K2R w KQ - 0 1");
    let mut u = king;
    let status = u.do_move(mv);
    assert_eq!(status.corner, ROOK);
    u.undo_move(mv, status);
    assert!(same(&u, &king));
}

#[test]
fn a_capture_in_a_rook_corner_leaves_the_rights_of_the_other_side() {
    let before = state("r3k2r/8/8/8/8/8/6B1/4K3 w kq - 0 1");
    let mv = ((6, 1), (0, 7));
    assert!(moves(&before).contains(&mv));
    let mut s = before;
    let status = s.do_move(mv);
    assert_eq!(s.can_castle.black, PlayerCastleStatus { k: true, q: true });
    assert_eq!(s.can_castle.white, PlayerCastleStatus { k: false, q: false });
    assert_eq!(status.castle_status, None);
    assert!(s.validate());
    assert!(moves(&s).contains(&((4, 7), (6, 7))));
    s.undo_move(mv, status);
    assert!(same(&s, &before));
}

#[test]
fn the_king_may_not_stay_on_the_line_of_a_check() {
    let s = state("4k3/8/8/8/8/8/8/r3K3 w - - 0 1");
    let m = moves(&s);
    assert!(!m.contains(&((4, 0), (5, 0))));
    assert!(!m.contains(&((4, 0), (3, 0))));
    assert!(m.contains(&((4, 0), (4, 1))));
    assert!(m.contains(&((4, 0), (3, 1))));
    assert!(m.contains(&((4, 0), (5, 1))));
    assert_eq!(m.len(), 3);
}

#[test]
fn a_pinned_piece_may_move_along_the_pin() {
    let file = state("4r1k1/8/8/8/8/8/4R3/4K3 w - - 0 1");
    let m = moves(&file);
    assert!(m.contains(&((4, 1), (4, 7))));
    assert!(m.contains(&((4, 1), (4, 4))));
    assert!(!m.contains(&((4, 1), (3, 1))));
    let diagonal = state("6k1/8/8/7b/8/5B2/8/3K4 w - - 0 1");
    let m = moves(&diagonal);
    assert!(m.contains(&((5, 2), (6, 3))));
    assert!(m.contains(&((5, 2), (7, 4))));
    assert!(m.contains(&((5, 2), (4, 1))));
    assert!(!m.contains(&((5, 2), (4, 3))));
    let rank = state("6k1/8/8/8/8/8/8/K2R3r w - - 0 1");
    let m = moves(&rank);
    assert!(m.contains(&((3, 0), (7, 0))));
    assert!(m.contains(&((3, 0), (1, 0))));
    assert!(!m.contains(&((3, 0), (3, 4))));
}

#[test]
fn no_move_is_offered_twice() {
    for fen in [START, MIDDLE, ENDGAME, "r3k2r/8/8/8/8/8/8/R3K2R b KQkq - 0 1"] {
        let s = state(fen);
        let mut listed = moves(&s);
        let all = listed.len();
        listed.sort();
        listed.dedup();
        assert_eq!(listed.len(), all);
        let mut pseudo = s.board.get_pseudo_legal(s.player, &s.can_castle, s.en_passant);
        let all = pseudo.len();
        pseudo.sort();
        pseudo.dedup();
        assert_eq!(pseudo.len(), all);
    }
}
