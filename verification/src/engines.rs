//! Making and taking back moves, the move selector, and the engines.

use crate::engines::search::{
    child_value, is_root_answer, is_root_reply, is_score_below, king_taken_soon,
    lemma_legal_is_valid, node_value,
    terminal_value, Searcher, VALUE_LIMIT,
};
use crate::game::{
    board_after, castles_king_side, castles_queen_side, en_passant_wf, is_double_step,
    is_en_passant, king_square, legal, lemma_king_square, moved_kind, one_king, pseudo_legal,
    square,
};
use crate::types::{
    back_rank_of, on_board, piece_kind, valid_move, valid_piece, valid_player, Board, CastleStatus,
    GameState, IsPiece, Move, Piece, Player, PlayerCastleStatus, PlayerTrait, Position, Score, KING,
    MAX_DEPTH, PAWN, ROOK,
};
use crate::utils::{fen_of, FenError};
use rand::seq::SliceRandom;
use vstd::prelude::*;

pub mod first;
pub mod first_par;
pub mod first_trans;
pub mod guard;
pub mod search;
pub mod table;

pub use first::First;
pub use first_par::FirstPar;
pub use first_trans::FirstTrans;

verus! {

/// What has to be remembered of a position to take a move back.
#[derive(Clone, Copy, Debug)]
pub struct MoveStatus {
    pub piece: Piece,
    pub capture: Piece,
    /// What stood in the corner that a castling move has emptied.
    pub corner: Piece,
    pub en_passant: Option<Position>,
    pub castle_status: Option<CastleStatus>,
}

impl MoveStatus {
    pub fn default() -> (st: MoveStatus)
        ensures
            st.piece == 0,
            st.capture == 0,
            st.corner == 0,
            st.en_passant is None,
            st.castle_status is None,
    {
        MoveStatus { piece: 0, capture: 0, corner: 0, en_passant: None, castle_status: None }
    }
}

/// The rights of the side that moves after `m`: a rook that leaves the corner
/// of a right still held gives that right up, a king that moves gives up both.
pub open spec fn own_rights_after(s: GameState, m: Move) -> PlayerCastleStatus {
    let rights = s.can_castle.of(s.player as int);
    let back = back_rank_of(s.player as int);
    if moved_kind(s, m) == ROOK {
        if rights.k && m.0.0 == 7 && m.0.1 == back {
            PlayerCastleStatus { k: false, q: rights.q }
        } else if rights.q && m.0.0 == 0 && m.0.1 == back {
            PlayerCastleStatus { k: rights.k, q: false }
        } else {
            rights
        }
    } else if moved_kind(s, m) == KING {
        PlayerCastleStatus { k: false, q: false }
    } else {
        rights
    }
}

/// The castling rights after `m`: those of the side that moves as its move
/// leaves them, those of the other side as they were.
pub open spec fn rights_after(s: GameState, m: Move) -> CastleStatus {
    s.can_castle.with(s.player as int, own_rights_after(s, m))
}

/// Whether `m` changes the castling rights.
pub open spec fn changes_rights(s: GameState, m: Move) -> bool {
    rights_after(s, m) != s.can_castle
}

/// The en-passant target after `m`: the square a pawn has skipped, if one has.
pub open spec fn en_passant_after(s: GameState, m: Move) -> Option<Position> {
    if is_double_step(s, m) {
        Some((m.0.0, ((m.0.1 + m.1.1) / 2) as usize))
    } else {
        None
    }
}

/// The position after `m`, the other side to move.
#[verifier::opaque]
pub open spec fn apply(s: GameState, m: Move) -> GameState {
    GameState {
        board: board_after(s, m),
        player: (-s.player) as Player,
        can_castle: rights_after(s, m),
        en_passant: en_passant_after(s, m),
    }
}

/// What `do_move` records of `s` when it makes `m`.
pub open spec fn status_of(s: GameState, m: Move) -> MoveStatus {
    MoveStatus {
        piece: s.board.piece(m.0.0 as int, m.0.1 as int),
        capture: s.board.piece(m.1.0 as int, m.1.1 as int),
        corner: if castles_king_side(s, m) {
            s.board.piece(7, m.0.1 as int)
        } else if castles_queen_side(s, m) {
            s.board.piece(0, m.0.1 as int)
        } else {
            0
        },
        en_passant: s.en_passant,
        castle_status: if changes_rights(s, m) {
            Some(s.can_castle)
        } else {
            None
        },
    }
}

/// The position before `m`, rebuilt from the position `s` after it and the record `st`.
pub open spec fn revert(s: GameState, m: Move, st: MoveStatus) -> GameState {
    let (from, to) = m;
    let player = (-s.player) as Player;
    let b0 = s.board.with(from.0 as int, from.1 as int, st.piece).with(
        to.0 as int,
        to.1 as int,
        st.capture,
    );
    let b1 = if piece_kind(st.piece as int) == KING && (from.0 + 2 == to.0 || from.0 == to.0 + 2) {
        if from.0 < to.0 {
            b0.with(7, from.1 as int, st.corner).with(5, from.1 as int, 0)
        } else {
            b0.with(0, from.1 as int, st.corner).with(3, from.1 as int, 0)
        }
    } else {
        b0
    };
    let b2 = if piece_kind(st.piece as int) == PAWN && st.en_passant == Some(to) && from.0
        != to.0 {
        b1.with(to.0 as int, from.1 as int, (PAWN * -player) as Piece)
    } else {
        b1
    };
    GameState {
        board: b2,
        player,
        can_castle: match st.castle_status {
            Some(c) => c,
            None => s.can_castle,
        },
        en_passant: st.en_passant,
    }
}

impl GameState {
    /// The castling rights after the move `mv`.
    fn rights_after_move(&self, mv: Move) -> (rights: CastleStatus)
        requires
            valid_move(mv),
            self.board.wf(),
            valid_player(self.player as int),
        ensures
            rights == rights_after(*self, mv),
    {
        let from = mv.0;
        let piece = self.board.at(from);
        let player = self.player;
        let mut own = self.can_castle.get(player);
        if piece.is(ROOK) {
            // A rook that leaves its corner gives up the right of that corner.
            if own.k && from.0 == 7 && from.1 == player.back_rank() {
                own.k = false;
            } else if own.q && from.0 == 0 && from.1 == player.back_rank() {
                own.q = false;
            }
        } else if piece.is(KING) {
            own.disable();
        }
        let mut rights = self.can_castle;
        rights.set(player, own);
        rights
    }

    /// Makes the move `mv` and hands back what is needed to take it back.
    pub fn do_move(&mut self, mv: Move) -> (status: MoveStatus)
        requires
            valid_move(mv),
            old(self).board.wf(),
            valid_player(old(self).player as int),
        ensures
            *final(self) == apply(*old(self), mv),
            status == status_of(*old(self), mv),
            final(self).player == -old(self).player,
            final(self).can_castle.of(-old(self).player) == old(self).can_castle.of(
                -old(self).player,
            ),
    {
        proof {
            reveal(apply);
        }
        let (from, to) = mv;
        let piece = self.board.at(from);
        let rights = self.rights_after_move(mv);
        let mut status = MoveStatus::default();
        status.piece = piece;
        status.capture = self.board.at(to);
        if piece.is(KING) {
            if from.0 + 2 == to.0 {
                status.corner = self.board.at((7, from.1));
            } else if from.0 == to.0 + 2 {
                status.corner = self.board.at((0, from.1));
            }
        }
        status.en_passant = self.en_passant;
        if rights != self.can_castle {
            status.castle_status = Some(self.can_castle);
        }
        self.move_pieces(mv);
        self.can_castle = rights;
        // The target lasts for one move; a double step sets a new one.
        self.en_passant = if piece.is(PAWN) && (from.1 + 2 == to.1 || to.1 + 2 == from.1) {
            Some((from.0, (from.1 + to.1) / 2))
        } else {
            None
        };
        self.player = -self.player;
        status
    }

    /// Whether the move `mv` takes a king off the board.
    pub fn takes_king(&self, mv: Move) -> (r: bool)
        requires
            valid_move(mv),
            self.board.wf(),
        ensures
            r == removes_king(*self, mv),
    {
        let (from, to) = mv;
        if self.board.at(to).is(KING) {
            return true;
        }
        if self.board.at(from).is(KING) {
            if from.0 + 2 == to.0 {
                return self.board.at((7, from.1)).is(KING);
            } else if from.0 == to.0 + 2 {
                return self.board.at((0, from.1)).is(KING);
            }
        }
        false
    }

    /// Whether the move `mv` is a capture en passant in this position.
    pub fn is_en_passant(&self, mv: Move) -> (r: bool)
        requires
            valid_move(mv),
            self.board.wf(),
        ensures
            r == is_en_passant(*self, mv),
    {
        let piece = self.board.at(mv.0);
        piece.is(PAWN) && self.en_passant == Some(mv.1) && mv.0.0 != mv.1.0
    }

    /// Takes back the move `mv`, which `do_move` made and answered with `status`.
    pub fn undo_move(&mut self, mv: Move, status: MoveStatus)
        requires
            valid_move(mv),
            valid_player(old(self).player as int),
            -6 <= status.piece <= 6,
        ensures
            *final(self) == revert(*old(self), mv, status),
    {
        let (from, to) = mv;
        self.board.put(from, status.piece);
        self.board.put(to, status.capture);
        self.en_passant = status.en_passant;
        if let Some(castle_status) = status.castle_status {
            self.can_castle = castle_status;
        }
        self.player = -self.player;
        let player = self.player;

        if status.piece.is(KING) && (from.0 + 2 == to.0 || from.0 == to.0 + 2) {
            if from.0 < to.0 {
                // King side castle
                self.board.put((7, from.1), status.corner);
                self.board.put((5, from.1), 0);
            } else {
                // Queen side castle
                self.board.put((0, from.1), status.corner);
                self.board.put((3, from.1), 0);
            }
        }
        if status.piece.is(PAWN) && status.en_passant == Some(to) && from.0 != to.0 {
            self.board.put((to.0, from.1), PAWN * -player);
        }
    }
}


/// Taking a move back restores the position it was made in, square for
/// square, with the side to move, the castling rights and the en-passant
/// target. This holds of every move that obeys the movement rules in a
/// well-formed position.
pub proof fn lemma_undo_restores(s: GameState, m: Move)
    requires
        s.wf(),
        pseudo_legal(s, m),
    ensures
        revert(apply(s, m), m, status_of(s, m)) == s,
{
    reveal(apply);
    let after = apply(s, m);
    let back = revert(after, m, status_of(s, m));
    assert(back.can_castle == s.can_castle);
    assert(back.player == s.player);
    assert(back.en_passant == s.en_passant);
    assert forall|x: int, y: int| on_board(x, y) implies #[trigger] back.board.piece(x, y)
        == s.board.piece(x, y) by {
    }
    Board::lemma_ext(back.board, s.board);
}


/// A capture en passant takes the pawn that has just made its double step,
/// which stands beside the capturing pawn and behind the target, and leaves
/// the capturing pawn on the target, which was empty.
pub proof fn lemma_en_passant_takes_pawn(s: GameState, m: Move)
    requires
        s.wf(),
        pseudo_legal(s, m),
        is_en_passant(s, m),
    ensures
        s.board.piece(m.1.0 as int, m.1.1 as int) == 0,
        s.board.piece(m.1.0 as int, m.0.1 as int) == PAWN * -s.player,
        apply(s, m).board.piece(m.1.0 as int, m.0.1 as int) == 0,
        apply(s, m).board.piece(m.1.0 as int, m.1.1 as int) == PAWN * s.player,
        apply(s, m).board.piece(m.0.0 as int, m.0.1 as int) == 0,
        apply(s, m).en_passant is None,
{
    reveal(apply);
}

/// Castling puts the king two files towards the corner and a rook on the
/// square that the king has crossed, empties the king's square and the
/// corner, ends both castling rights of the side and leaves those of the
/// other side.
pub proof fn lemma_castling_moves_both(s: GameState, m: Move)
    requires
        s.wf(),
        pseudo_legal(s, m),
        castles_king_side(s, m) || castles_queen_side(s, m),
    ensures
        m.0.0 == 4 && m.0.1 == m.1.1 && m.0.1 == back_rank_of(s.player as int),
        apply(s, m).board.piece(m.1.0 as int, m.1.1 as int) == KING * s.player,
        apply(s, m).board.piece(4, m.0.1 as int) == 0,
        castles_king_side(s, m) ==> m.1.0 == 6 && apply(s, m).board.piece(5, m.0.1 as int)
            == ROOK * s.player && apply(s, m).board.piece(7, m.0.1 as int) == 0,
        castles_queen_side(s, m) ==> m.1.0 == 2 && apply(s, m).board.piece(3, m.0.1 as int)
            == ROOK * s.player && apply(s, m).board.piece(0, m.0.1 as int) == 0,
        !apply(s, m).can_castle.of(s.player as int).k,
        !apply(s, m).can_castle.of(s.player as int).q,
        apply(s, m).can_castle.of(-s.player) == s.can_castle.of(-s.player),
{
    reveal(apply);
}

/// The move is a castling move that empties a corner in which a king stands.
pub open spec fn castling_takes_king(s: GameState, m: Move) -> bool {
    ||| castles_king_side(s, m) && piece_kind(s.board.piece(7, m.0.1 as int) as int) == KING
    ||| castles_queen_side(s, m) && piece_kind(s.board.piece(0, m.0.1 as int) as int) == KING
}

/// The move takes a king off the board: it lands on one, or it is a
/// castling move that empties a corner in which one stands.
pub open spec fn removes_king(s: GameState, m: Move) -> bool {
    piece_kind(s.board.piece(m.1.0 as int, m.1.1 as int) as int) == KING || castling_takes_king(
        s,
        m,
    )
}

/// After a move that obeys the movement rules and takes no king each side
/// still has exactly one king, and the board holds known pieces only.
proof fn lemma_kings_stay(s: GameState, m: Move)
    requires
        s.wf(),
        pseudo_legal(s, m),
        !removes_king(s, m),
    ensures
        board_after(s, m).wf(),
        one_king(board_after(s, m), 1),
        one_king(board_after(s, m), -1),
{
    let t = board_after(s, m);
    let (from, to) = m;
    let player = s.player as int;
    let (ox, oy) = choose|x: int, y: int|
        on_board(x, y) && #[trigger] s.board.piece(x, y) == KING * player;
    let (ex, ey) = choose|x: int, y: int|
        on_board(x, y) && #[trigger] s.board.piece(x, y) == KING * -player;
    assert forall|x: int, y: int| on_board(x, y) implies valid_piece(
        #[trigger] t.piece(x, y) as int,
    ) by {
        assert(valid_piece(s.board.piece(x, y) as int));
        assert(valid_piece(s.board.piece(from.0 as int, from.1 as int) as int));
    }
    assert(s.board.piece(ox, oy) == KING * player);
    assert(s.board.piece(ex, ey) == KING * -player);
    assert(t.piece(ex, ey) == KING * -player);
    assert forall|x: int, y: int| on_board(x, y) && #[trigger] t.piece(x, y) == KING
        * -player implies x == ex && y == ey by {
        assert(s.board.piece(x, y) == KING * -player);
    }
    let (nx, ny) = if moved_kind(s, m) == KING {
        (to.0 as int, to.1 as int)
    } else {
        (ox, oy)
    };
    if moved_kind(s, m) == KING {
        assert(ox == from.0 && oy == from.1);
    }
    assert(t.piece(nx, ny) == KING * player);
    assert forall|x: int, y: int| on_board(x, y) && #[trigger] t.piece(x, y) == KING
        * player implies x == nx && y == ny by {
        if !(x == to.0 && y == to.1) {
            assert(s.board.piece(x, y) == KING * player);
        }
    }
    assert(one_king(t, player));
    assert(one_king(t, -player));
}

/// After a move that obeys the movement rules no pawn stands on the rank
/// where it would have been promoted.
proof fn lemma_pawns_are_promoted(s: GameState, m: Move)
    requires
        s.wf(),
        pseudo_legal(s, m),
    ensures
        forall|x: int| 0 <= x < 8 ==> #[trigger] board_after(s, m).piece(x, 7) != PAWN,
        forall|x: int| 0 <= x < 8 ==> #[trigger] board_after(s, m).piece(x, 0) != -PAWN,
{
    let t = board_after(s, m);
    assert forall|x: int| 0 <= x < 8 implies #[trigger] t.piece(x, 7) != PAWN by {
        assert(s.board.piece(x, 7) != PAWN);
    }
    assert forall|x: int| 0 <= x < 8 implies #[trigger] t.piece(x, 0) != -PAWN by {
        assert(s.board.piece(x, 0) != -PAWN);
    }
}

/// After a move that obeys the movement rules and takes no king a castling
/// right is held only with the king on its home square.
proof fn lemma_rights_stay_sound(s: GameState, m: Move)
    requires
        s.wf(),
        pseudo_legal(s, m),
        !removes_king(s, m),
    ensures
        ({
            let t = board_after(s, m);
            let c = rights_after(s, m);
            &&& (c.white.k || c.white.q) ==> t.piece(4, 0) == KING
            &&& (c.black.k || c.black.q) ==> t.piece(4, 7) == -KING
        }),
{
}

/// After a move that obeys the movement rules the en-passant target, if
/// there is one, is the empty square behind the pawn that has just moved.
proof fn lemma_target_is_sound(s: GameState, m: Move)
    requires
        s.wf(),
        pseudo_legal(s, m),
    ensures
        en_passant_wf(board_after(s, m), -s.player, en_passant_after(s, m)),
{
}

/// A move that obeys the movement rules and takes no king leads from a
/// well-formed position to a well-formed position.
pub proof fn lemma_apply_wf(s: GameState, m: Move)
    requires
        s.wf(),
        pseudo_legal(s, m),
        !removes_king(s, m),
    ensures
        apply(s, m).wf(),
{
    reveal(apply);
    lemma_kings_stay(s, m);
    lemma_pawns_are_promoted(s, m);
    lemma_rights_stay_sound(s, m);
    lemma_target_is_sound(s, m);
}

/// The king goes two files: a castling move.
pub open spec fn is_castling(b: Board, m: Move) -> bool {
    piece_kind(b.piece(m.0.0 as int, m.0.1 as int) as int) == KING && (m.0.0 + 2 == m.1.0
        || m.1.0 + 2 == m.0.0)
}

pub open spec fn gap(a: int, b: int) -> int {
    if a > b {
        a - b
    } else {
        b - a
    }
}

/// How many king steps lie between two squares.
pub open spec fn distance(p: Position, q: Position) -> int {
    let dx = gap(p.0 as int, q.0 as int);
    let dy = gap(p.1 as int, q.1 as int);
    if dx > dy {
        dx
    } else {
        dy
    }
}

/// The move ends nearer to `king` than it began.
pub open spec fn approaches(m: Move, king: Position) -> bool {
    distance(m.0, king) > distance(m.1, king)
}

/// The move with index `i` is the first castling move of the list.
pub open spec fn first_castling(b: Board, best: Seq<Move>, i: int) -> bool {
    &&& 0 <= i < best.len()
    &&& is_castling(b, best[i])
    &&& forall|j: int| 0 <= j < i ==> !is_castling(b, #[trigger] best[j])
}

/// Whether the selector may pick `m` from the list `best` of equally good
/// moves: the first castling move if the list holds one; else any move that
/// approaches the other side's king on `king` if the list holds one; else
/// any move of the list.
pub open spec fn is_preferred(b: Board, king: Position, best: Seq<Move>, m: Move) -> bool {
    if exists|i: int| 0 <= i < best.len() && is_castling(b, #[trigger] best[i]) {
        exists|i: int| first_castling(b, best, i) && #[trigger] best[i] == m
    } else if exists|i: int| 0 <= i < best.len() && approaches(#[trigger] best[i], king) {
        best.contains(m) && approaches(m, king)
    } else {
        best.contains(m)
    }
}

fn span(a: usize, b: usize) -> (d: usize)
    ensures
        d == gap(a as int, b as int),
{
    if a > b {
        a - b
    } else {
        b - a
    }
}

fn king_steps(p: Position, q: Position) -> (d: usize)
    ensures
        d == distance(p, q),
{
    let dx = span(p.0, q.0);
    let dy = span(p.1, q.1);
    if dx > dy {
        dx
    } else {
        dy
    }
}

/// The moves among which the selector picks.
pub fn preferred_moves(board: &Board, king: Position, best_moves: &Vec<Move>) -> (out: Vec<Move>)
    requires
        board.wf(),
        forall|k: int| 0 <= k < best_moves@.len() ==> valid_move(#[trigger] best_moves@[k]),
    ensures
        forall|m: Move| #[trigger] out@.contains(m) <==> is_preferred(*board, king, best_moves@, m),
        best_moves@.len() > 0 ==> out@.len() > 0,
        forall|k: int| 0 <= k < out@.len() ==> best_moves@.contains(#[trigger] out@[k]),
{
    let ghost best = best_moves@;
    let mut i: usize = 0;
    while i < best_moves.len()
        invariant
            0 <= i <= best.len(),
            best == best_moves@,
            board.wf(),
            forall|k: int| 0 <= k < best.len() ==> valid_move(#[trigger] best[k]),
            forall|j: int| 0 <= j < i ==> !is_castling(*board, #[trigger] best[j]),
        decreases best.len() - i,
    {
        let mv = best_moves[i];
        assert(valid_piece(board.piece(mv.0.0 as int, mv.0.1 as int) as int));
        if board.at(mv.0).is(KING) && (mv.0.0 + 2 == mv.1.0 || mv.1.0 + 2 == mv.0.0) {
            let mut out: Vec<Move> = Vec::new();
            out.push(mv);
            proof {
                assert(first_castling(*board, best, i as int));
                assert(out@[0] == mv);
                assert(best.contains(mv));
                assert forall|m: Move| #[trigger] out@.contains(m) <==> is_preferred(
                    *board,
                    king,
                    best,
                    m,
                ) by {
                    if is_preferred(*board, king, best, m) {
                        let k = choose|k: int| first_castling(*board, best, k) && #[trigger] best[k] == m;
                        assert(k == i) by {
                            if k < i {
                                assert(!is_castling(*board, best[k]));
                            }
                            if i < k {
                                assert(!is_castling(*board, best[i as int]));
                            }
                        }
                    }
                    if out@.contains(m) {
                        assert(m == mv);
                        assert(first_castling(*board, best, i as int) && best[i as int] == m);
                    }
                }
            }
            return out;
        }
        i += 1;
    }
    let mut closer: Vec<Move> = Vec::new();
    let mut i: usize = 0;
    while i < best_moves.len()
        invariant
            0 <= i <= best.len(),
            best == best_moves@,
            forall|m: Move| #[trigger]
                closer@.contains(m) <==> approaches(m, king) && exists|k: int|
                    0 <= k < i && best[k] == m,
        decreases best.len() - i,
    {
        let mv = best_moves[i];
        let ghost before = closer@;
        if king_steps(mv.0, king) > king_steps(mv.1, king) {
            closer.push(mv);
        }
        proof {
            assert forall|m: Move| #[trigger]
                closer@.contains(m) <==> approaches(m, king) && exists|k: int|
                    0 <= k < i + 1 && best[k] == m by {
                if before.contains(m) {
                    let k = choose|k: int| 0 <= k < i && best[k] == m;
                    assert(0 <= k < i + 1 && best[k] == m);
                    let j = choose|j: int| 0 <= j < before.len() && before[j] == m;
                    if approaches(mv, king) {
                        assert(closer@[j] == m);
                    }
                }
                if closer@.contains(m) && !before.contains(m) {
                    let j = choose|j: int| 0 <= j < closer@.len() && closer@[j] == m;
                    if j < before.len() {
                        assert(before[j] == m);
                    }
                    assert(m == mv);
                    assert(0 <= i < i + 1 && best[i as int] == m);
                }
                if approaches(m, king) && exists|k: int| 0 <= k < i + 1 && best[k] == m {
                    let k = choose|k: int| 0 <= k < i + 1 && best[k] == m;
                    if k < i {
                        assert(0 <= k < i && best[k] == m);
                    } else {
                        assert(closer@[before.len() as int] == m);
                    }
                }
            }
        }
        i += 1;
    }
    proof {
        assert(!(exists|k: int| 0 <= k < best.len() && is_castling(*board, #[trigger] best[k])));
    }
    if closer.len() > 0 {
        proof {
            let m0 = closer@[0];
            assert(closer@.contains(m0));
            let k0 = choose|k: int| 0 <= k < i && best[k] == m0;
            assert(0 <= k0 < best.len() && approaches(best[k0], king));
            assert forall|m: Move| #[trigger] closer@.contains(m) <==> is_preferred(
                *board,
                king,
                best,
                m,
            ) by {
                if closer@.contains(m) {
                    let k = choose|k: int| 0 <= k < i && best[k] == m;
                    assert(best.contains(m));
                }
                if best.contains(m) && approaches(m, king) {
                    let k = choose|k: int| 0 <= k < best.len() && best[k] == m;
                    assert(0 <= k < i && best[k] == m);
                }
            }
            assert forall|k: int| 0 <= k < closer@.len() implies best.contains(
                #[trigger] closer@[k],
            ) by {
                assert(closer@.contains(closer@[k]));
                let j = choose|j: int| 0 <= j < i && best[j] == closer@[k];
                assert(best[j] == closer@[k]);
            }
        }
        return closer;
    }
    proof {
        assert forall|k: int| 0 <= k < best.len() implies !approaches(#[trigger] best[k], king) by {
            if approaches(best[k], king) {
                assert(0 <= k < i && best[k] == best[k]);
                assert(closer@.contains(best[k]));
            }
        }
    }
    let mut out: Vec<Move> = Vec::new();
    let mut i: usize = 0;
    while i < best_moves.len()
        invariant
            0 <= i <= best.len(),
            best == best_moves@,
            out@ == best.subrange(0, i as int),
        decreases best.len() - i,
    {
        out.push(best_moves[i]);
        assert(out@ =~= best.subrange(0, i + 1));
        i += 1;
    }
    assert(out@ =~= best);
    proof {
        assert forall|k: int| 0 <= k < out@.len() implies best.contains(#[trigger] out@[k]) by {
            assert(best[k] == out@[k]);
        }
    }
    out
}

/// Calls `rand::seq::SliceRandom::choose` with `rand::thread_rng()` as the
/// source. Trusted: the result is one of the moves of the list.
#[verifier::external_body]
fn pick_any(moves: &Vec<Move>) -> (m: Move)
    requires
        moves@.len() > 0,
    ensures
        moves@.contains(m),
{
    *moves.choose(&mut rand::thread_rng()).unwrap()
}

/// Picks one of the equally good moves `best_moves` in the position `state`:
/// the first castling move; else at random a move that approaches the other
/// side's king; else at random any of them.
pub fn select_move(state: &GameState, best_moves: &Vec<Move>) -> (m: Move)
    requires
        state.wf(),
        best_moves@.len() > 0,
        forall|k: int| 0 <= k < best_moves@.len() ==> valid_move(#[trigger] best_moves@[k]),
    ensures
        best_moves@.contains(m),
        is_preferred(
            state.board,
            square(
                king_square(state.board, -state.player).0,
                king_square(state.board, -state.player).1,
            ),
            best_moves@,
            m,
        ),
{
    let other: Player = -state.player;
    let king = state.board.get_king_pos(other);
    proof {
        lemma_king_square(state.board, other as int, king.0 as int, king.1 as int);
    }
    let candidates = preferred_moves(&state.board, king, best_moves);
    let m = pick_any(&candidates);
    proof {
        let k = choose|k: int| 0 <= k < candidates@.len() && candidates@[k] == m;
        assert(best_moves@.contains(candidates@[k]));
    }
    m
}

/// What an engine answers when asked for a move in `s` at depth `depth`:
/// the value of the position, and with it no move where there is none, else
/// a move that the selector may pick among those that lead to that value.
pub open spec fn is_move_answer(s: GameState, depth: nat, mv: Option<Move>, score: int) -> bool {
    &&& node_value(s, depth) == Some(score)
    &&& match mv {
        None => forall|m: Move| !legal(s, m),
        Some(m) => legal(s, m) && child_value(s, m, depth) == Some(score) && exists|best: Seq<Move>|
            #[trigger] is_root_answer(s, depth, best, score) && is_preferred(
                s.board,
                square(king_square(s.board, -s.player).0, king_square(s.board, -s.player).1),
                best,
                m,
            ),
    }
}

/// What an engine answers when asked for a move in `s` at depth `depth`.
/// Every answer holds no move exactly when the side to move has none, with
/// the terminal value as the score, and else a move that the generator
/// offers. There is no answer where a move takes a king at the root or, if
/// the search goes that deep, one ply below. Where the position has a
/// value, the answer is that value with a move that leads to it.
pub open spec fn is_move_reply(s: GameState, depth: nat, r: Option<(Option<Move>, Score)>) -> bool {
    &&& r matches Some(a) ==> {
        &&& -VALUE_LIMIT <= a.1 <= VALUE_LIMIT
        &&& is_score_below(s, depth, a.1 as int)
        &&& a.0 is None <==> forall|m: Move| !legal(s, m)
        &&& a.0 is None ==> a.1 == terminal_value(s, depth)
        &&& a.0 matches Some(m) ==> legal(s, m)
    }
    &&& king_taken_soon(s, depth) ==> r is None
    &&& node_value(s, depth) is Some ==> (r matches Some(a) && is_move_answer(
        s,
        depth,
        a.0,
        a.1 as int,
    ))
}

/// A search engine: made from a position description and a depth, it finds
/// the best moves of the position and picks one of them.
pub trait Engine: Sized {
    /// The searcher that the engine runs.
    spec fn searcher(&self) -> Searcher;

    /// Makes an engine for the position that `fen` describes, to search
    /// `depth` plies deep.
    fn new(fen: &str, depth: usize) -> (r: Result<Self, FenError>)
        ensures
            match fen_of(fen@) {
                Err(e) => r matches Err(x) && x == e,
                Ok(data) => if !data.position().wf() {
                    r matches Err(x) && x == FenError::Position
                } else if depth > MAX_DEPTH {
                    r matches Err(x) && x == FenError::Depth
                } else {
                    r matches Ok(engine) && engine.searcher().state == data.position()
                        && engine.searcher().depth == depth && engine.searcher().inv()
                },
            },
    ;

    /// The value of the position and the moves that lead to it; no answer
    /// where a move takes a king at the root or one ply below.
    fn get_best_moves(&mut self) -> (r: Option<(Vec<Move>, Score)>)
        requires
            old(self).searcher().inv(),
            old(self).searcher().depth >= 1,
        ensures
            final(self).searcher().state == old(self).searcher().state,
            final(self).searcher().depth == old(self).searcher().depth,
            final(self).searcher().use_table == old(self).searcher().use_table,
            final(self).searcher().num_leafs >= old(self).searcher().num_leafs,
            final(self).searcher().num_skips >= old(self).searcher().num_skips,
            final(self).searcher().inv(),
            is_root_reply(old(self).searcher().state, old(self).searcher().depth as nat, r),
    ;

    /// One of the equally good moves `best_moves`, as the selector prefers.
    fn choose_move(&self, best_moves: Vec<Move>) -> (m: Move)
        requires
            self.searcher().inv(),
            best_moves@.len() > 0,
            forall|k: int| 0 <= k < best_moves@.len() ==> valid_move(#[trigger] best_moves@[k]),
        ensures
            best_moves@.contains(m),
            is_preferred(
                self.searcher().state.board,
                square(
                    king_square(self.searcher().state.board, -self.searcher().state.player).0,
                    king_square(self.searcher().state.board, -self.searcher().state.player).1,
                ),
                best_moves@,
                m,
            ),
    ;

    /// The value of the position and a move that leads to it, none where
    /// the side to move has no move; no answer where a move takes a king at
    /// the root or one ply below.
    fn make_move(&mut self) -> (r: Option<(Option<Move>, Score)>)
        requires
            old(self).searcher().inv(),
            old(self).searcher().depth >= 1,
        ensures
            final(self).searcher().state == old(self).searcher().state,
            final(self).searcher().depth == old(self).searcher().depth,
            final(self).searcher().use_table == old(self).searcher().use_table,
            final(self).searcher().num_leafs >= old(self).searcher().num_leafs,
            final(self).searcher().num_skips >= old(self).searcher().num_skips,
            final(self).searcher().inv(),
            is_move_reply(old(self).searcher().state, old(self).searcher().depth as nat, r),
    ;
}

/// Picks the move to answer with from what the search has found: none where
/// it found no move, else one that the selector prefers.
pub fn answer_move(state: &GameState, depth: usize, found: Option<(Vec<Move>, Score)>) -> (r:
    Option<(Option<Move>, Score)>)
    requires
        state.wf(),
        depth > 0,
        is_root_reply(*state, depth as nat, found),
    ensures
        found is None <==> r is None,
        found matches Some(a) ==> (r matches Some(b) && b.1 == a.1 && match b.0 {
            None => a.0@.len() == 0,
            Some(m) => a.0@.contains(m) && is_preferred(
                state.board,
                square(
                    king_square(state.board, -state.player).0,
                    king_square(state.board, -state.player).1,
                ),
                a.0@,
                m,
            ),
        }),
        is_move_reply(*state, depth as nat, r),
{
    let ghost s = *state;
    let ghost d = depth as nat;
    let (best_moves, score) = match found {
        None => {
            return None;
        },
        Some(found) => found,
    };
    if best_moves.len() == 0 {
        return Some((None, score));
    }
    proof {
        assert forall|k: int| 0 <= k < best_moves@.len() implies valid_move(
            #[trigger] best_moves@[k],
        ) by {
            lemma_legal_is_valid(s, best_moves@[k]);
        }
    }
    let mv = select_move(state, &best_moves);
    proof {
        let k = choose|k: int| 0 <= k < best_moves@.len() && best_moves@[k] == mv;
        assert(legal(s, best_moves@[k]));
        if node_value(s, d) is Some {
            assert(is_root_answer(s, d, best_moves@, score as int));
            assert(best_moves@.contains(mv));
        }
    }
    Some((Some(mv), score))
}

} // verus!
