use chess_engine::game::{all_coords, get_all_king_moves, offset};
use chess_engine::types::{
    sub_pos, Board, BoardIndex, CastleStatus, IsPiece, PlayerCastleStatus, PlayerTrait, PosTrait,
    _to_index, BISHOP, KING, KNIGHT, PAWN, QUEEN, ROOK,
};
use chess_engine::utils::{board_from_fen, parse_fen};

fn board(rows: &str) -> Board {
    let chars: Vec<char> = rows.chars().collect();
    board_from_fen(&chars).unwrap()
}

#[test]
fn all_coords_lists_the_board_file_by_file() {
    let coords = all_coords();
    assert_eq!(coords.len(), 64);
    assert_eq!(coords[0], (0, 0));
    assert_eq!(coords[1], (0, 1));
    assert_eq!(coords[7], (0, 7));
    assert_eq!(coords[8], (1, 0));
    assert_eq!(coords[63], (7, 7));
    for k in 0..64 {
        assert_eq!(coords[k], (k / 8, k % 8));
    }
}

#[test]
fn king_zone_in_the_middle_has_nine_squares() {
    let zone = get_all_king_moves((4, 4));
    assert_eq!(
        zone,
        vec![(3, 3), (3, 4), (3, 5), (4, 3), (4, 4), (4, 5), (5, 3), (5, 4), (5, 5)]
    );
}

#[test]
fn king_zone_in_the_corner_has_four_squares() {
    assert_eq!(get_all_king_moves((0, 0)), vec![(0, 0), (0, 1), (1, 0), (1, 1)]);
    assert_eq!(get_all_king_moves((7, 7)), vec![(6, 6), (6, 7), (7, 6), (7, 7)]);
    assert_eq!(
        get_all_king_moves((0, 3)),
        vec![(0, 2), (0, 3), (0, 4), (1, 2), (1, 3), (1, 4)]
    );
}

#[test]
fn offset_stays_on_the_board() {
    assert_eq!(offset((0, 0), -1, 0), None);
    assert_eq!(offset((0, 0), 1, 2), Some((1, 2)));
    assert_eq!(offset((7, 7), 1, 0), None);
    assert_eq!(offset((7, 7), -2, -1), Some((5, 6)));
}

#[test]
fn board_at_and_put() {
    let mut b = Board::empty();
    for pos in all_coords() {
        assert_eq!(b.at(pos), 0);
    }
    b.put((3, 5), -QUEEN);
    assert_eq!(b.at((3, 5)), -QUEEN);
    assert_eq!(b.0[5][3], -QUEEN);
    assert_eq!(b.at((5, 3)), 0);
}

#[test]
fn castle_status_default_sets_all_four() {
    let all = CastleStatus::default(true);
    assert!(all.white.k && all.white.q && all.black.k && all.black.q);
    let none = CastleStatus::default(false);
    assert!(!none.white.k && !none.white.q && !none.black.k && !none.black.q);
}

#[test]
fn castle_status_get_and_set_by_side() {
    let mut c = CastleStatus::default(false);
    c.set(1, PlayerCastleStatus { k: true, q: false });
    assert_eq!(c.get(1), PlayerCastleStatus { k: true, q: false });
    assert_eq!(c.get(-1), PlayerCastleStatus { k: false, q: false });
    c.set(-1, PlayerCastleStatus { k: false, q: true });
    assert_eq!(c.get(-1), PlayerCastleStatus { k: false, q: true });
    assert_eq!(c.get(1), PlayerCastleStatus { k: true, q: false });
}

#[test]
fn player_castle_status_disable_and_any() {
    let mut p = PlayerCastleStatus { k: true, q: false };
    assert!(p.any());
    p.disable();
    assert!(!p.k && !p.q);
    assert!(!p.any());
    assert!(PlayerCastleStatus { k: false, q: true }.any());
}

#[test]
fn piece_values_in_tenths_of_a_pawn() {
    assert_eq!(PAWN.value(), 10);
    assert_eq!(KNIGHT.value(), 30);
    assert_eq!(BISHOP.value(), 30);
    assert_eq!(ROOK.value(), 50);
    assert_eq!(QUEEN.value(), 90);
    assert_eq!(KING.value(), 10000);
    assert_eq!(0i8.value(), 0);
    assert_eq!((-PAWN).value(), -10);
    assert_eq!((-QUEEN).value(), -90);
    assert_eq!((-QUEEN).value_unsigned(), 90);
    assert_eq!((-KING).value_unsigned(), 10000);
}

#[test]
fn piece_kind_and_colour() {
    assert!((-ROOK).is(ROOK));
    assert!(ROOK.is(ROOK));
    assert!(!ROOK.is(QUEEN));
    assert!(KNIGHT.is_white());
    assert!(!(-KNIGHT).is_white());
    assert!(!0i8.is_white());
    assert!(0i8.is_empty());
    assert!(!PAWN.is_empty());
}

#[test]
fn player_relations_to_pieces() {
    let white: i8 = 1;
    let black: i8 = -1;
    assert!(white.can_capture(-PAWN));
    assert!(!white.can_capture(PAWN));
    assert!(!white.can_capture(0));
    assert!(white.can_move(0));
    assert!(white.can_move(-KING));
    assert!(!white.can_move(QUEEN));
    assert!(black.can_control(-BISHOP));
    assert!(!black.can_control(BISHOP));
    assert!(!black.can_control(0));
    assert_eq!(white.back_rank(), 0);
    assert_eq!(black.back_rank(), 7);
    assert_eq!(white.pawn_base(), 1);
    assert_eq!(black.pawn_base(), 6);
    assert_eq!(white.pawn_move(1), 2);
    assert_eq!(black.pawn_move(6), 5);
}

#[test]
fn board_index_validity() {
    assert!(0usize.is_valid());
    assert!(7usize.is_valid());
    assert!(!8usize.is_valid());
    assert!(!(-1i8).is_valid());
    assert!(7i8.is_valid());
    assert!(!8i8.is_valid());
    assert!(!(-1isize).is_valid());
    assert!(3isize.is_valid());
    assert_eq!(_to_index(5), Some(5));
    assert_eq!(_to_index(-1), None);
    assert_eq!(_to_index(8), None);
}

#[test]
fn sub_pos_is_the_signed_difference() {
    assert_eq!(sub_pos((4, 4), (1, 6)), (3, -2));
    assert_eq!(sub_pos((0, 0), (7, 7)), (-7, -7));
    assert_eq!(sub_pos((3, 3), (3, 3)), (0, 0));
}

#[test]
fn offsets_add_scale_and_classify() {
    let d: (i8, i8) = (2, -3);
    assert_eq!(d.add((1, 1)), (3, -2));
    assert_eq!(d.mul(2), (4, -6));
    assert!(!d.is_axis());
    assert!(!d.is_diagonal());
    assert!((0i8, 5i8).is_axis());
    assert!((3i8, -3i8).is_diagonal());
    assert!((-3i8, -3i8).is_diagonal());
    assert_eq!((3i8, 7i8).to_valid(), Some((3, 7)));
    assert_eq!((3i8, 8i8).to_valid(), None);
    assert_eq!((-1i8, 0i8).to_valid(), None);
    let p: (usize, usize) = (2, 3);
    assert_eq!(p.add((1, 1)), (3, 4));
    assert_eq!(p.mul(2), (4, 6));
    assert!(!p.is_axis());
    assert!((0usize, 3usize).is_axis());
    assert!((3usize, 3usize).is_diagonal());
    assert_eq!(p.to_valid(), Some((2, 3)));
    assert_eq!((8usize, 0usize).to_valid(), None);
}

#[test]
fn king_is_found_file_by_file() {
    let b = board("4k3/8/8/8/8/8/8/4K3");
    assert_eq!(b.get_king_pos(1), (4, 0));
    assert_eq!(b.get_king_pos(-1), (4, 7));
    let two = board("8/8/8/8/8/K7/8/1K6");
    assert_eq!(two.get_king_pos(1), (0, 2));
}

#[test]
fn first_piece_on_a_ray() {
    let b = board("4k3/8/8/8/1p2R2q/8/8/4K3");
    assert_eq!(b.first_on_ray((4, 3), 1, 0), -QUEEN);
    assert_eq!(b.first_on_ray((4, 3), -1, 0), -PAWN);
    assert_eq!(b.first_on_ray((4, 3), 0, 1), -KING);
    assert_eq!(b.first_on_ray((4, 3), 0, -1), KING);
    assert_eq!(b.first_on_ray((4, 3), 1, 1), 0);
    assert_eq!(b.first_on_ray((7, 3), 1, 0), 0);
}

#[test]
fn position_validation() {
    let start = parse_fen("rnbqkbnr/pppppppp/8/8/8/8/PPPPPPPP/RNBQKBNR w KQkq - 0 1").unwrap();
    assert!(start.state().validate());
    let no_black_king = parse_fen("8/8/8/8/8/8/8/4K3 w - - 0 1").unwrap();
    assert!(!no_black_king.state().validate());
    let two_kings = parse_fen("4k3/8/8/8/8/8/8/3KK3 w - - 0 1").unwrap();
    assert!(!two_kings.state().validate());
    let pawn_on_last_rank = parse_fen("P3k3/8/8/8/8/8/8/4K3 w - - 0 1").unwrap();
    assert!(!pawn_on_last_rank.state().validate());
    let right_without_rook = parse_fen("4k3/8/8/8/8/8/8/4K3 w K - 0 1").unwrap();
    assert!(right_without_rook.state().validate());
    let right_without_king = parse_fen("4k3/8/8/8/8/8/4K3/7R w K - 0 1").unwrap();
    assert!(!right_without_king.state().validate());
    let target_without_pawn = parse_fen("4k3/8/8/8/8/8/8/4K3 w - e6 0 1").unwrap();
    assert!(!target_without_pawn.state().validate());
    let target_with_pawn = parse_fen("4k3/8/8/4p3/8/8/8/4K3 w - e6 0 1").unwrap();
    assert!(target_with_pawn.state().validate());
    let mut odd = start.state();
    odd.board.put((3, 3), 9);
    assert!(!odd.validate());
    let mut nobody = start.state();
    nobody.player = 0;
    assert!(!nobody.validate());
}
