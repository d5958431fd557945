use chess_engine::engines::First;
use chess_engine::engines::Engine;
use chess_engine::types::{CastleStatus, BISHOP, KING, KNIGHT, PAWN, QUEEN, ROOK};
use chess_engine::utils::{
    _move_to_string, _valid_pos, board_from_fen, castle_from_fen, char_to_piece, cmp_scores,
    counter_from_fen, en_passant_from_fen, max_score, min_score, parse_fen, player_from_fen,
    pos_to_string, FenError,
};
use std::cmp::Ordering;

fn chars(s: &str) -> Vec<char> {
    s.chars().collect()
}

#[test]
fn squares_are_named_by_file_letter_and_rank_digit() {
    assert_eq!(pos_to_string((0, 0)), "a1");
    assert_eq!(pos_to_string((4, 3)), "e4");
    assert_eq!(pos_to_string((7, 7)), "h8");
    assert_eq!(pos_to_string((2, 6)), "c7");
}

#[test]
fn moves_are_named_by_their_two_squares() {
    assert_eq!(_move_to_string(((4, 1), (4, 3))), "e2, e4");
    assert_eq!(_move_to_string(((6, 7), (5, 5))), "g8, f6");
}

#[test]
fn letters_name_pieces() {
    assert_eq!(char_to_piece('P'), Ok(PAWN));
    assert_eq!(char_to_piece('N'), Ok(KNIGHT));
    assert_eq!(char_to_piece('B'), Ok(BISHOP));
    assert_eq!(char_to_piece('R'), Ok(ROOK));
    assert_eq!(char_to_piece('Q'), Ok(QUEEN));
    assert_eq!(char_to_piece('K'), Ok(KING));
    assert_eq!(char_to_piece('p'), Ok(-PAWN));
    assert_eq!(char_to_piece('n'), Ok(-KNIGHT));
    assert_eq!(char_to_piece('b'), Ok(-BISHOP));
    assert_eq!(char_to_piece('r'), Ok(-ROOK));
    assert_eq!(char_to_piece('q'), Ok(-QUEEN));
    assert_eq!(char_to_piece('k'), Ok(-KING));
    assert_eq!(char_to_piece('x'), Err(FenError::Piece));
    assert_eq!(char_to_piece('3'), Err(FenError::Piece));
}

#[test]
fn the_kelvin_sign_names_the_white_king() {
    assert_eq!(char_to_piece('\u{212A}'), Ok(KING));
    assert_eq!(char_to_piece('\u{212B}'), Err(FenError::Piece));
}

#[test]
fn start_position_is_read_row_by_row_from_the_top() {
    let data = parse_fen("rnbqkbnr/pppppppp/8/8/8/8/PPPPPPPP/RNBQKBNR w KQkq - 0 1").unwrap();
    let back = [ROOK, KNIGHT, BISHOP, QUEEN, KING, BISHOP, KNIGHT, ROOK];
    for x in 0..8 {
        assert_eq!(data.board.at((x, 0)), back[x]);
        assert_eq!(data.board.at((x, 1)), PAWN);
        assert_eq!(data.board.at((x, 6)), -PAWN);
        assert_eq!(data.board.at((x, 7)), -back[x]);
        for y in 2..6 {
            assert_eq!(data.board.at((x, y)), 0);
        }
    }
    assert_eq!(data.player, 1);
    assert_eq!(data.can_castle, CastleStatus::default(true));
    assert_eq!(data.en_passant, None);
    assert_eq!(data.half_moves, 0);
    assert_eq!(data.move_number, 1);
}

#[test]
fn fields_may_be_parted_by_several_blanks() {
    let data = parse_fen("  4k3/8/8/8/4P3/8/8/4K3   b  -   e3  12 \t 34  ").unwrap();
    assert_eq!(data.player, -1);
    assert_eq!(data.en_passant, Some((4, 2)));
    assert_eq!(data.half_moves, 12);
    assert_eq!(data.move_number, 34);
    assert_eq!(data.board.at((4, 3)), PAWN);
    assert_eq!(data.can_castle, CastleStatus::default(false));
}

#[test]
fn digits_skip_files_and_strokes_end_rows() {
    let b = board_from_fen(&chars("2p1/3P//k")).unwrap();
    assert_eq!(b.at((2, 7)), -PAWN);
    assert_eq!(b.at((3, 6)), PAWN);
    assert_eq!(b.at((0, 4)), -KING);
    let mut pieces = 0;
    for x in 0..8 {
        for y in 0..8 {
            if b.at((x, y)) != 0 {
                pieces += 1;
            }
        }
    }
    assert_eq!(pieces, 3);
}

#[test]
fn board_field_errors() {
    assert_eq!(board_from_fen(&chars("8/8/x7")), Err(FenError::Piece));
    assert_eq!(board_from_fen(&chars("8/0p")), Err(FenError::Piece));
    assert_eq!(board_from_fen(&chars("8p")), Err(FenError::OutsideBoard));
    assert_eq!(board_from_fen(&chars("ppppppppp")), Err(FenError::OutsideBoard));
    assert_eq!(board_from_fen(&chars("8/8/8/8/8/8/8/8/p")), Err(FenError::OutsideBoard));
    assert!(board_from_fen(&chars("9/99/8")).is_ok());
}

#[test]
fn side_field() {
    assert_eq!(player_from_fen(&chars("w")), Ok(1));
    assert_eq!(player_from_fen(&chars("b")), Ok(-1));
    assert_eq!(player_from_fen(&chars("W")), Err(FenError::Player));
    assert_eq!(player_from_fen(&chars("wb")), Err(FenError::Player));
    assert_eq!(player_from_fen(&chars("")), Err(FenError::Player));
}

#[test]
fn castling_field() {
    assert_eq!(castle_from_fen(&chars("-")), Ok(CastleStatus::default(false)));
    assert_eq!(castle_from_fen(&chars("KQkq")), Ok(CastleStatus::default(true)));
    let some = castle_from_fen(&chars("qK")).unwrap();
    assert!(some.white.k && !some.white.q && !some.black.k && some.black.q);
    assert_eq!(castle_from_fen(&chars("KK")), Err(FenError::Castle));
    assert_eq!(castle_from_fen(&chars("Kx")), Err(FenError::Castle));
    assert_eq!(castle_from_fen(&chars("K-")), Err(FenError::Castle));
}

#[test]
fn en_passant_field() {
    assert_eq!(en_passant_from_fen(&chars("-")), Ok(None));
    assert_eq!(en_passant_from_fen(&chars("e3")), Ok(Some((4, 2))));
    assert_eq!(en_passant_from_fen(&chars("a6")), Ok(Some((0, 5))));
    assert_eq!(en_passant_from_fen(&chars("h8")), Ok(Some((7, 7))));
    assert_eq!(en_passant_from_fen(&chars("i3")), Err(FenError::EnPassant));
    assert_eq!(en_passant_from_fen(&chars("e0")), Err(FenError::EnPassant));
    assert_eq!(en_passant_from_fen(&chars("e9")), Err(FenError::EnPassant));
    assert_eq!(en_passant_from_fen(&chars("e")), Err(FenError::EnPassant));
    assert_eq!(en_passant_from_fen(&chars("")), Err(FenError::EnPassant));
}

#[test]
fn counter_field() {
    assert_eq!(counter_from_fen(&chars("0")), Ok(0));
    assert_eq!(counter_from_fen(&chars("42")), Ok(42));
    assert_eq!(counter_from_fen(&chars("+7")), Ok(7));
    assert_eq!(counter_from_fen(&chars("007")), Ok(7));
    assert_eq!(counter_from_fen(&chars("18446744073709551615")), Ok(usize::MAX));
    assert_eq!(counter_from_fen(&chars("18446744073709551616")), Err(FenError::Counter));
    assert_eq!(counter_from_fen(&chars("")), Err(FenError::Counter));
    assert_eq!(counter_from_fen(&chars("+")), Err(FenError::Counter));
    assert_eq!(counter_from_fen(&chars("-1")), Err(FenError::Counter));
    assert_eq!(counter_from_fen(&chars("1a")), Err(FenError::Counter));
}

#[test]
fn each_error_of_a_description() {
    let err = |fen: &str| parse_fen(fen).err();
    assert_eq!(err("4k3/8/8/8/8/8/8/4K3 w - - 0"), Some(FenError::MissingField));
    assert_eq!(err(""), Some(FenError::MissingField));
    assert_eq!(err("4k3/8/8/8/8/8/8/4K2z w - - 0 1"), Some(FenError::Piece));
    assert_eq!(err("4k3/8/8/8/8/8/8/4K3P2 w - - 0 1"), Some(FenError::OutsideBoard));
    assert_eq!(err("4k3/8/8/8/8/8/8/4K3 x - - 0 1"), Some(FenError::Player));
    assert_eq!(err("4k3/8/8/8/8/8/8/4K3 w KK - 0 1"), Some(FenError::Castle));
    assert_eq!(err("4k3/8/8/8/8/8/8/4K3 w - z9 0 1"), Some(FenError::EnPassant));
    assert_eq!(err("4k3/8/8/8/8/8/8/4K3 w - - x 1"), Some(FenError::Counter));
    assert_eq!(err("4k3/8/8/8/8/8/8/4K3 w - - 0 y"), Some(FenError::Counter));
}

#[test]
fn an_engine_is_made_only_for_a_sound_position_and_depth() {
    assert_eq!(First::new("4k3/8/8/8/8/8/8/4K3 w - - 0", 2).err(), Some(FenError::MissingField));
    assert_eq!(First::new("8/8/8/8/8/8/8/4K3 w - - 0 1", 2).err(), Some(FenError::Position));
    assert_eq!(
        First::new("4k3/8/8/8/8/8/8/4K3 w - - 0 1", 1_000_001).err(),
        Some(FenError::Depth)
    );
    let engine = First::new("4k3/8/8/8/8/8/8/4K3 b - - 0 1", 3).ok().unwrap();
    assert_eq!(engine.searcher.depth, 3);
    assert_eq!(engine.searcher.state.player, -1);
    assert!(!engine.is_white());
    assert_eq!(engine.num_leafs(), 0);
}

#[test]
fn every_error_has_a_message() {
    let all = [
        FenError::MissingField,
        FenError::Piece,
        FenError::OutsideBoard,
        FenError::Player,
        FenError::Castle,
        FenError::EnPassant,
        FenError::Counter,
        FenError::Position,
        FenError::Depth,
    ];
    for e in all {
        assert!(!e.message().is_empty());
    }
    assert_eq!(FenError::Player.message(), "Invalid player field");
}

#[test]
fn scores_compare_as_numbers() {
    assert_eq!(cmp_scores(&-5, &3), Ordering::Less);
    assert_eq!(cmp_scores(&3, &3), Ordering::Equal);
    assert_eq!(cmp_scores(&4, &3), Ordering::Greater);
    assert_eq!(max_score(-5, 3), 3);
    assert_eq!(max_score(7, 3), 7);
    assert_eq!(min_score(-5, 3), -5);
    assert_eq!(min_score(7, 3), 3);
}

#[test]
fn squares_on_and_off_the_board() {
    assert!(_valid_pos((0, 7)));
    assert!(!_valid_pos((8, 0)));
    assert!(!_valid_pos((0, 8)));
}
