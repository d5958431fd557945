//! When the search answers: from a sound position no move lands on a king.

use crate::engines::search::{
    child_value, is_root_reply, lemma_leaf_value, lemma_node_value_is_best, lemma_terminal_value,
    node_value,
};
use crate::engines::{apply, castling_takes_king, lemma_apply_wf, removes_king};
use crate::game::{
    attacked, coord_rank, king_attacks, king_square, knight_attacks, legal, lemma_king_square,
    lemma_reach_on_ray, moved_kind, on_ray, pawn_attacks, pseudo_legal, ray_first, reach,
};
use crate::king_safety::{
    between, lemma_king_stays_safe, lemma_lands_on_no_own_piece, lemma_ray_stops,
    lemma_reach_clear,
};
use crate::types::{
    on_board, piece_kind, valid_move, Board, GameState, Move, Score, BISHOP, KING, KNIGHT, PAWN,
    QUEEN, ROOK,
};
use vstd::prelude::*;

verus! {

/// A position in which the side that has just moved has not left its king
/// to be taken: it is well formed, and the king of the side that is not to
/// move is not attacked.
pub open spec fn sound(s: GameState) -> bool {
    s.wf() && !attacked(
        s.board,
        king_square(s.board, -s.player).0,
        king_square(s.board, -s.player).1,
        s.player as int,
    )
}

/// Within `depth` plies of `s` no castling move that the generator offers
/// empties a corner in which a king stands.
pub open spec fn corners_clear(s: GameState, depth: nat) -> bool
    decreases depth,
{
    depth == 0 || forall|m: Move| #[trigger]
        legal(s, m) ==> !castling_takes_king(s, m) && corners_clear(
            apply(s, m),
            (depth - 1) as nat,
        )
}

/// Neither side holds a castling right.
pub open spec fn without_rights(s: GameState) -> bool {
    !s.can_castle.white.k && !s.can_castle.white.q && !s.can_castle.black.k
        && !s.can_castle.black.q
}

/// Where neither side holds a castling right no castling move is offered,
/// now or later: no corner is emptied at whatever depth.
pub proof fn lemma_corners_clear_without_rights(s: GameState, depth: nat)
    requires
        without_rights(s),
    ensures
        corners_clear(s, depth),
    decreases depth,
{
    if depth > 0 {
        assert forall|m: Move| #[trigger] legal(s, m) implies !castling_takes_king(s, m)
            && corners_clear(apply(s, m), (depth - 1) as nat) by {
            reveal(legal);
            reveal(apply);
            assert(without_rights(apply(s, m)));
            lemma_corners_clear_without_rights(apply(s, m), (depth - 1) as nat);
        }
    }
}

/// A piece that slides in direction `(dx, dy)` onto a square is the first
/// piece that is seen from that square in the opposite direction.
proof fn lemma_slide_is_seen(b: Board, fx: int, fy: int, tx: int, ty: int, dx: int, dy: int)
    requires
        on_board(fx, fy),
        b.piece(fx, fy) != 0,
        reach(b, fx, fy, dx, dy, tx, ty),
    ensures
        ray_first(b, tx, ty, -dx, -dy) == b.piece(fx, fy),
{
    lemma_reach_on_ray(b, fx, fy, dx, dy, tx, ty);
    assert(on_ray(tx, ty, -dx, -dy, fx, fy));
    assert forall|zx: int, zy: int|
        on_board(zx, zy) && between(tx, ty, -dx, -dy, zx, zy, fx, fy) implies #[trigger] b.piece(
        zx,
        zy,
    ) == 0 by {
        assert(between(fx, fy, dx, dy, zx, zy, tx, ty));
        lemma_reach_clear(b, fx, fy, dx, dy, tx, ty, zx, zy);
    }
    lemma_ray_stops(b, tx, ty, -dx, -dy, fx, fy);
}

/// A move onto a piece of the other side is made by a piece that attacks
/// the square of that piece.
pub proof fn lemma_capture_is_attack(s: GameState, m: Move)
    requires
        s.wf(),
        pseudo_legal(s, m),
        s.board.piece(m.1.0 as int, m.1.1 as int) != 0,
    ensures
        attacked(s.board, m.1.0 as int, m.1.1 as int, s.player as int),
{
    let b = s.board;
    let p = s.player as int;
    let fx = m.0.0 as int;
    let fy = m.0.1 as int;
    let tx = m.1.0 as int;
    let ty = m.1.1 as int;
    let piece = b.piece(fx, fy);
    assert(p == 1 || p == -1);
    assert(-6 <= piece <= 6);
    if moved_kind(s, m) == PAWN {
        assert(piece == PAWN * p);
        assert(pawn_attacks(b, tx, ty, p));
    } else if moved_kind(s, m) == KNIGHT {
        assert(piece == KNIGHT * p);
        assert(knight_attacks(b, tx, ty, p));
    } else if moved_kind(s, m) == KING {
        assert(piece == KING * p);
        assert(king_attacks(b, tx, ty, p));
    } else {
        if reach(b, fx, fy, -1, -1, tx, ty) {
            lemma_slide_is_seen(b, fx, fy, tx, ty, -1, -1);
        }
        if reach(b, fx, fy, -1, 1, tx, ty) {
            lemma_slide_is_seen(b, fx, fy, tx, ty, -1, 1);
        }
        if reach(b, fx, fy, 1, -1, tx, ty) {
            lemma_slide_is_seen(b, fx, fy, tx, ty, 1, -1);
        }
        if reach(b, fx, fy, 1, 1, tx, ty) {
            lemma_slide_is_seen(b, fx, fy, tx, ty, 1, 1);
        }
        if reach(b, fx, fy, -1, 0, tx, ty) {
            lemma_slide_is_seen(b, fx, fy, tx, ty, -1, 0);
        }
        if reach(b, fx, fy, 1, 0, tx, ty) {
            lemma_slide_is_seen(b, fx, fy, tx, ty, 1, 0);
        }
        if reach(b, fx, fy, 0, -1, tx, ty) {
            lemma_slide_is_seen(b, fx, fy, tx, ty, 0, -1);
        }
        if reach(b, fx, fy, 0, 1, tx, ty) {
            lemma_slide_is_seen(b, fx, fy, tx, ty, 0, 1);
        }
        if moved_kind(s, m) == BISHOP {
            assert(piece == BISHOP * p);
        } else if moved_kind(s, m) == ROOK {
            assert(piece == ROOK * p);
        } else {
            assert(piece == QUEEN * p);
        }
    }
}

/// In a sound position no move that the generator offers lands on a king.
pub proof fn lemma_no_king_is_taken(s: GameState, m: Move)
    requires
        sound(s),
        legal(s, m),
        !castling_takes_king(s, m),
    ensures
        !removes_king(s, m),
{
    reveal(legal);
    let b = s.board;
    let p = s.player as int;
    let tx = m.1.0 as int;
    let ty = m.1.1 as int;
    if piece_kind(b.piece(tx, ty) as int) == KING {
        lemma_lands_on_no_own_piece(s, m);
        assert(-6 <= b.piece(tx, ty) <= 6);
        assert(b.piece(tx, ty) == KING * -p);
        lemma_capture_is_attack(s, m);
        let (ex, ey) = choose|x: int, y: int| on_board(x, y) && #[trigger] b.piece(x, y) == KING * -p;
        assert(b.piece(ex, ey) == KING * -p);
        assert(ex == tx && ey == ty);
        assert(b.first_holding(tx, ty, KING * -p)) by {
            assert forall|i: int, j: int|
                on_board(i, j) && coord_rank(i, j) < coord_rank(
                    tx,
                    ty,
                ) implies #[trigger] b.piece(i, j) != KING * -p by {
                if b.piece(i, j) == KING * -p {
                    assert(i == tx && j == ty);
                }
            }
        }
        lemma_king_square(b, -p, tx, ty);
    }
}

/// A move that the generator offers in a sound position and that takes no
/// king leads to a sound position.
pub proof fn lemma_sound_after_move(s: GameState, m: Move)
    requires
        sound(s),
        legal(s, m),
        !castling_takes_king(s, m),
    ensures
        sound(apply(s, m)),
{
    lemma_no_king_is_taken(s, m);
    lemma_king_stays_safe(s, m);
    assert(pseudo_legal(s, m)) by {
        reveal(legal);
    }
    lemma_apply_wf(s, m);
    assert(apply(s, m).player == -s.player) by {
        reveal(apply);
    }
}

/// The move with number `i` among all pairs of squares.
pub open spec fn nth_move(i: int) -> Move {
    let rest = i / 8;
    let start = rest / 8;
    (((start / 8) as usize, (start % 8) as usize), ((rest % 8) as usize, (i % 8) as usize))
}

/// The moves that the generator offers in `s` among the first `n` pairs of squares.
pub open spec fn moves_upto(s: GameState, n: int) -> Seq<Move>
    decreases n,
{
    if n <= 0 {
        Seq::<Move>::empty()
    } else if legal(s, nth_move(n - 1)) {
        moves_upto(s, n - 1).push(nth_move(n - 1))
    } else {
        moves_upto(s, n - 1)
    }
}

/// The list holds the offered moves among the first `n` pairs of squares, and no others.
proof fn lemma_moves_upto(s: GameState, n: int)
    requires
        0 <= n <= 4096,
    ensures
        forall|m: Move| #[trigger]
            moves_upto(s, n).contains(m) <==> legal(s, m) && exists|i: int|
                0 <= i < n && nth_move(i) == m,
    decreases n,
{
    if n > 0 {
        lemma_moves_upto(s, n - 1);
        let before = moves_upto(s, n - 1);
        let now = moves_upto(s, n);
        let last = nth_move(n - 1);
        assert forall|m: Move| #[trigger]
            now.contains(m) <==> legal(s, m) && exists|i: int| 0 <= i < n && nth_move(i) == m by {
            if now.contains(m) {
                let j = choose|j: int| 0 <= j < now.len() && now[j] == m;
                if j < before.len() {
                    assert(before[j] == m);
                    assert(before.contains(m));
                    let i = choose|i: int| 0 <= i < n - 1 && nth_move(i) == m;
                    assert(0 <= i < n && nth_move(i) == m);
                } else {
                    assert(m == last);
                    assert(0 <= n - 1 < n && nth_move(n - 1) == m);
                }
            }
            if legal(s, m) && exists|i: int| 0 <= i < n && nth_move(i) == m {
                let i = choose|i: int| 0 <= i < n && nth_move(i) == m;
                if i < n - 1 {
                    assert(0 <= i < n - 1 && nth_move(i) == m);
                    assert(before.contains(m));
                    let j = choose|j: int| 0 <= j < before.len() && before[j] == m;
                    assert(now[j] == m);
                } else {
                    assert(now[before.len() as int] == m);
                }
            }
        }
    }
}

/// The moves that the generator offers in a position make a finite list.
pub proof fn lemma_moves_are_listed(s: GameState) -> (q: Seq<Move>)
    ensures
        forall|m: Move| #[trigger] q.contains(m) <==> legal(s, m),
{
    let q = moves_upto(s, 4096);
    lemma_moves_upto(s, 4096);
    assert forall|m: Move| #[trigger] q.contains(m) <==> legal(s, m) by {
        if legal(s, m) {
            assert(valid_move(m)) by {
                reveal(legal);
            }
            let start = m.0.0 * 8 + m.0.1;
            let rest = start * 8 + m.1.0;
            let i = rest * 8 + m.1.1;
            assert(i / 8 == rest && i % 8 == m.1.1);
            assert(rest / 8 == start && rest % 8 == m.1.0);
            assert(start / 8 == m.0.0 && start % 8 == m.0.1);
            assert(nth_move(i) == m);
            assert(0 <= i < 4096);
        }
    }
    q
}

/// A sound position has a value at whatever depth, if within that depth no
/// castling move empties a corner in which a king stands: then no move
/// within the horizon takes a king.
pub proof fn lemma_sound_position_has_value(s: GameState, depth: nat)
    requires
        sound(s),
        corners_clear(s, depth),
    ensures
        node_value(s, depth) is Some,
    decreases depth,
{
    if depth == 0 {
        lemma_leaf_value(s);
    } else {
        let q = lemma_moves_are_listed(s);
        if q.len() == 0 {
            assert forall|m: Move| !legal(s, m) by {
                assert(!q.contains(m));
            }
            lemma_terminal_value(s, depth);
        } else {
            assert forall|k: int| 0 <= k < q.len() implies (#[trigger] child_value(
                s,
                q[k],
                depth,
            )) is Some by {
                assert(q.contains(q[k]));
                let m = q[k];
                assert(legal(s, m));
                lemma_no_king_is_taken(s, m);
                lemma_sound_after_move(s, m);
                assert(corners_clear(apply(s, m), (depth - 1) as nat));
                lemma_sound_position_has_value(apply(s, m), (depth - 1) as nat);
            }
            lemma_node_value_is_best(s, depth, q);
        }
    }
}

/// Two searches of one sound position to one depth both answer, and with
/// the same score and the same moves, however each goes about it: with or
/// without pruning, with or without a table of scores, with the moves of
/// the root searched one after the other or apart. This holds if within
/// that depth no castling move empties a corner in which a king stands.
pub proof fn lemma_sound_searches_agree(
    s: GameState,
    depth: nat,
    first: Option<(Vec<Move>, Score)>,
    second: Option<(Vec<Move>, Score)>,
)
    requires
        sound(s),
        corners_clear(s, depth),
        is_root_reply(s, depth, first),
        is_root_reply(s, depth, second),
    ensures
        first is Some,
        second is Some,
        first matches Some(a) ==> (second matches Some(b) ==> a.1 == b.1 && forall|m: Move|
            a.0@.contains(m) <==> b.0@.contains(m)),
{
    lemma_sound_position_has_value(s, depth);
}

} // verus!
