//! The static evaluation: material, placement and the worst hanging piece.

use crate::game::{all_coords, cheapest_attacker, material};
use crate::types::{
    kind_value, piece_kind, piece_sign, valid_piece, valid_player, Board, IsPiece, Piece, Player,
    PlayerTrait, Score, BISHOP, KNIGHT, PAWN, ROOK,
};
use vstd::prelude::*;

verus! {

/// How many of the squares `(x, 0)` to `(x, n - 1)` hold exactly `pawn`.
pub open spec fn pawns_on_file(b: Board, x: int, pawn: int, n: int) -> int
    decreases n,
{
    if n <= 0 {
        0
    } else {
        pawns_on_file(b, x, pawn, n - 1) + if b.piece(x, n - 1) == pawn {
            1int
        } else {
            0int
        }
    }
}

/// What the piece on `(x, y)` costs its side for standing badly, in tenths of
/// a pawn and signed against that side: one for a knight on an edge file, one
/// for a knight or bishop on a back rank, and for a rook one for each pawn of
/// its own side on its file.
pub open spec fn placement_of(b: Board, x: int, y: int) -> int {
    let p = b.piece(x, y) as int;
    let kind = piece_kind(p);
    let side = piece_sign(p);
    if kind == KNIGHT && (x == 0 || x == 7) {
        -side
    } else if (kind == BISHOP || kind == KNIGHT) && (y == 0 || y == 7) {
        -side
    } else if kind == ROOK {
        if side == 1 {
            -pawns_on_file(b, x, PAWN as int, 8)
        } else {
            pawns_on_file(b, x, -PAWN, 8)
        }
    } else {
        0
    }
}

/// The placement penalties of the first `n` squares, file by file.
pub open spec fn placement_upto(b: Board, n: int) -> int
    decreases n,
{
    if n <= 0 {
        0
    } else {
        placement_upto(b, n - 1) + placement_of(b, (n - 1) / 8, (n - 1) % 8)
    }
}

/// The placement penalties of the whole board.
pub open spec fn placement(b: Board) -> int {
    placement_upto(b, 64)
}

/// A piece worth `piece` hangs: something attacks it, and either nothing
/// defends it or the attacker is worth less than the piece.
pub open spec fn unprotected(piece: int, attacker: int, defender: int) -> bool {
    attacker != 0 && (defender == 0 || attacker < piece)
}

/// What `player` stands to lose on `(x, y)`: nothing unless a piece of its own
/// hangs there; then the attacker's worth if the piece is defended, the
/// piece's own worth if it is not.
pub open spec fn hanging_loss(b: Board, player: int, x: int, y: int) -> int {
    let p = b.piece(x, y) as int;
    let worth = kind_value(piece_kind(p));
    let attacker = cheapest_attacker(b, x, y, -player);
    let defender = cheapest_attacker(b, x, y, player);
    if piece_sign(p) == player && unprotected(worth, attacker, defender) {
        if defender != 0 {
            attacker
        } else {
            worth
        }
    } else {
        0
    }
}

/// The largest loss that `player` stands to suffer on one of the first `n` squares.
pub open spec fn worst_hanging_upto(b: Board, player: int, n: int) -> int
    decreases n,
{
    if n <= 0 {
        0
    } else {
        let rest = worst_hanging_upto(b, player, n - 1);
        let here = hanging_loss(b, player, (n - 1) / 8, (n - 1) % 8);
        if here > rest {
            here
        } else {
            rest
        }
    }
}

/// The largest loss that `player` stands to suffer on one square.
pub open spec fn worst_hanging(b: Board, player: int) -> int {
    worst_hanging_upto(b, player, 64)
}

/// The static evaluation in tenths of a pawn: material and placement, both
/// positive where white is better, less the worst hanging piece of `player`,
/// which counts against `player`.
#[verifier::opaque]
pub open spec fn static_score(b: Board, player: int) -> int {
    material(b) + placement(b) - worst_hanging(b, player) * player
}

/// No static evaluation is larger in magnitude than this.
pub const EVAL_LIMIT: Score = 650_512;

pub fn is_unprotected(piece: Score, attacker: Score, defender: Score) -> (r: bool)
    ensures
        r == unprotected(piece as int, attacker as int, defender as int),
{
    attacker != 0 && (defender == 0 || attacker < piece)
}

/// How many pawns with code `pawn` stand on file `x`.
fn count_pawns_on_file(board: &Board, x: usize, pawn: Piece) -> (n: Score)
    requires
        x < 8,
    ensures
        n == pawns_on_file(*board, x as int, pawn as int, 8),
        0 <= n <= 8,
{
    let mut n: Score = 0;
    let mut k: usize = 0;
    while k < 8
        invariant
            0 <= k <= 8,
            x < 8,
            n == pawns_on_file(*board, x as int, pawn as int, k as int),
            0 <= n <= k,
        decreases 8 - k,
    {
        if board.at((x, k)) == pawn {
            n = n + 1;
        }
        k += 1;
    }
    n
}

/// The placement penalties of the whole board.
pub fn bad_placement(board: &Board) -> (res: Score)
    requires
        board.wf(),
    ensures
        res == placement(*board),
        -512 <= res <= 512,
{
    let coords = all_coords();
    let mut res: Score = 0;
    let mut k: usize = 0;
    while k < 64
        invariant
            0 <= k <= 64,
            board.wf(),
            coords@.len() == 64,
            forall|i: int|
                0 <= i < 64 ==> #[trigger] coords@[i] == ((i / 8) as usize, (i % 8) as usize),
            res == placement_upto(*board, k as int),
            -8 * k <= res <= 8 * k,
        decreases 64 - k,
    {
        let pos = coords[k];
        let (x, y) = pos;
        let piece = board.at(pos);
        assert(valid_piece(board.piece(x as int, y as int) as int));
        if piece != 0 {
            let penalty: Score = if piece > 0 {
                1
            } else {
                -1
            };
            if piece.is(KNIGHT) && (x == 0 || x == 7) {
                res = res - penalty;
            } else if (piece.is(BISHOP) || piece.is(KNIGHT)) && (y == 0 || y == 7) {
                res = res - penalty;
            } else if piece.is(ROOK) {
                let own_pawn: Piece = if piece > 0 {
                    PAWN
                } else {
                    -PAWN
                };
                let n = count_pawns_on_file(board, x, own_pawn);
                if piece > 0 {
                    res = res - n;
                } else {
                    res = res + n;
                }
            }
        }
        k += 1;
    }
    res
}

/// The largest loss that `player` stands to suffer on one square.
fn max_undefended(board: &Board, player: Player) -> (worst: Score)
    requires
        board.wf(),
        valid_player(player as int),
    ensures
        worst == worst_hanging(*board, player as int),
        0 <= worst <= 10000,
{
    let coords = all_coords();
    let mut worst: Score = 0;
    let mut k: usize = 0;
    while k < 64
        invariant
            0 <= k <= 64,
            board.wf(),
            valid_player(player as int),
            coords@.len() == 64,
            forall|i: int|
                0 <= i < 64 ==> #[trigger] coords@[i] == ((i / 8) as usize, (i % 8) as usize),
            worst == worst_hanging_upto(*board, player as int, k as int),
            0 <= worst <= 10000,
        decreases 64 - k,
    {
        let pos = coords[k];
        let here = board.at(pos);
        assert(valid_piece(board.piece(pos.0 as int, pos.1 as int) as int));
        if player.can_control(here) {
            let piece = here.value_unsigned();
            let attacker = board.check_pos(pos, player, false);
            let defender = board.check_pos(pos, player, true);
            if is_unprotected(piece, attacker, defender) {
                let loss = if defender != 0 {
                    attacker
                } else {
                    piece
                };
                if loss > worst {
                    worst = loss;
                }
            }
        }
        k += 1;
    }
    worst
}

/// The static evaluation of `board`, with the hanging pieces of `player` counted.
pub fn score1(board: &Board, player: Player) -> (score: Score)
    requires
        board.wf(),
        valid_player(player as int),
    ensures
        score == static_score(*board, player as int),
        -EVAL_LIMIT <= score <= EVAL_LIMIT,
{
    proof {
        reveal(static_score);
    }
    let mut score = board.count_material();
    let worst = max_undefended(board, player);
    score = score + bad_placement(board);
    if player == 1 {
        score - worst
    } else {
        score + worst
    }
}

} // verus!
