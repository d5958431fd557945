//! The proof that the short test of the move generator, whether a move
//! uncovers a line to the king, answers as a look at the board after the
//! move does.

use crate::engines::apply;
use crate::game::{
    aligned, attacked, board_after, coord_rank, discovered, is_en_passant, king_attacks,
    king_square, knight_attacks, legal, lemma_king_square, lemma_reach_on_ray, moved_kind, on_ray,
    pawn_attacks, pseudo_legal, ray_first, ray_room, reach, safe_after, same_line, signum,
    unit_dir,
};
use crate::types::{
    on_board, piece_sign, valid_player, Board, GameState, Move, BISHOP, KING, KNIGHT, PAWN, QUEEN,
    ROOK,
};
use vstd::prelude::*;

verus! {

/// Square `(zx, zy)` lies between `(x, y)` and `(tx, ty)` on the line that
/// leaves `(x, y)` in direction `(dx, dy)`, the ends not counted.
pub open spec fn between(
    x: int,
    y: int,
    dx: int,
    dy: int,
    zx: int,
    zy: int,
    tx: int,
    ty: int,
) -> bool {
    on_ray(x, y, dx, dy, zx, zy) && on_ray(zx, zy, dx, dy, tx, ty)
}

/// Board `a` is board `b` after a piece of side `p` has gone from `(fx, fy)`
/// to `(tx, ty)`: the first square is empty, the second holds a piece of
/// side `p`, and no other square has changed.
pub open spec fn moved(b: Board, a: Board, p: int, fx: int, fy: int, tx: int, ty: int) -> bool {
    &&& valid_player(p)
    &&& on_board(fx, fy)
    &&& on_board(tx, ty)
    &&& !(fx == tx && fy == ty)
    &&& a.piece(fx, fy) == 0
    &&& piece_sign(a.piece(tx, ty) as int) == p
    &&& piece_sign(b.piece(fx, fy) as int) == p
    &&& forall|x: int, y: int|
        on_board(x, y) && !(x == fx && y == fy) && !(x == tx && y == ty) ==> #[trigger] a.piece(
            x,
            y,
        ) == b.piece(x, y)
}

/// The squares that a slide passes are empty.
pub proof fn lemma_reach_clear(
    b: Board,
    x: int,
    y: int,
    dx: int,
    dy: int,
    tx: int,
    ty: int,
    zx: int,
    zy: int,
)
    requires
        reach(b, x, y, dx, dy, tx, ty),
        between(x, y, dx, dy, zx, zy, tx, ty),
    ensures
        b.piece(zx, zy) == 0,
    decreases ray_room(x, y, dx, dy),
{
    if x + dx == tx && y + dy == ty {
    } else if x + dx == zx && y + dy == zy {
    } else {
        lemma_reach_clear(b, x + dx, y + dy, dx, dy, tx, ty, zx, zy);
    }
}

/// The first piece on a line is the one on `(tx, ty)` if that square holds
/// one and the squares before it are empty.
pub proof fn lemma_ray_stops(b: Board, x: int, y: int, dx: int, dy: int, tx: int, ty: int)
    requires
        on_board(x, y),
        on_board(tx, ty),
        on_ray(x, y, dx, dy, tx, ty),
        b.piece(tx, ty) != 0,
        forall|zx: int, zy: int|
            on_board(zx, zy) && between(x, y, dx, dy, zx, zy, tx, ty) ==> #[trigger] b.piece(
                zx,
                zy,
            ) == 0,
    ensures
        ray_first(b, x, y, dx, dy) == b.piece(tx, ty),
    decreases ray_room(x, y, dx, dy),
{
    let nx = x + dx;
    let ny = y + dy;
    assert(on_board(nx, ny));
    if nx == tx && ny == ty {
    } else {
        assert(between(x, y, dx, dy, nx, ny, tx, ty));
        assert(b.piece(nx, ny) == 0);
        assert forall|zx: int, zy: int|
            on_board(zx, zy) && between(nx, ny, dx, dy, zx, zy, tx, ty) implies #[trigger] b.piece(
            zx,
            zy,
        ) == 0 by {
            assert(between(x, y, dx, dy, zx, zy, tx, ty));
        }
        lemma_ray_stops(b, nx, ny, dx, dy, tx, ty);
    }
}

/// Square `(x, y)` is the square `(fx, fy)` or lies ahead of it in direction `(dx, dy)`.
pub open spec fn at_or_ahead(fx: int, fy: int, dx: int, dy: int, x: int, y: int) -> bool {
    (x == fx && y == fy) || on_ray(fx, fy, dx, dy, x, y)
}

/// Beyond the square that the moving piece has left, along the line on which
/// that square lies, a piece of the other side that is first on the line
/// after the move was first on it before the move.
pub proof fn lemma_ray_beyond(
    b: Board,
    a: Board,
    p: int,
    fx: int,
    fy: int,
    tx: int,
    ty: int,
    x: int,
    y: int,
    dx: int,
    dy: int,
    q: int,
)
    requires
        moved(b, a, p, fx, fy, tx, ty),
        unit_dir(dx, dy),
        on_board(x, y),
        at_or_ahead(fx, fy, dx, dy, x, y),
        piece_sign(q) == -p,
        ray_first(a, x, y, dx, dy) == q,
    ensures
        ray_first(b, x, y, dx, dy) == q,
    decreases ray_room(x, y, dx, dy),
{
    let nx = x + dx;
    let ny = y + dy;
    assert(on_board(nx, ny));
    assert(on_ray(fx, fy, dx, dy, nx, ny));
    if a.piece(nx, ny) != 0 {
        assert(!(nx == tx && ny == ty));
        assert(b.piece(nx, ny) == a.piece(nx, ny));
    } else {
        assert(!(nx == tx && ny == ty));
        assert(b.piece(nx, ny) == a.piece(nx, ny));
        lemma_ray_beyond(b, a, p, fx, fy, tx, ty, nx, ny, dx, dy, q);
    }
}

/// A piece of the other side that is first on a line from `(x, y)` after the
/// move was first on it before the move, unless the moving piece has left
/// that line between `(x, y)` and the piece and has not come back onto it
/// before the square it left.
pub proof fn lemma_ray_through(
    b: Board,
    a: Board,
    p: int,
    fx: int,
    fy: int,
    tx: int,
    ty: int,
    x: int,
    y: int,
    dx: int,
    dy: int,
    q: int,
)
    requires
        moved(b, a, p, fx, fy, tx, ty),
        unit_dir(dx, dy),
        on_board(x, y),
        piece_sign(q) == -p,
        ray_first(a, x, y, dx, dy) == q,
    ensures
        ray_first(b, x, y, dx, dy) == q || (on_ray(x, y, dx, dy, fx, fy) && reach(
            b,
            x,
            y,
            dx,
            dy,
            fx,
            fy,
        ) && ray_first(b, fx, fy, dx, dy) == q && ray_first(a, fx, fy, dx, dy) == q && !between(
            x,
            y,
            dx,
            dy,
            tx,
            ty,
            fx,
            fy,
        )),
    decreases ray_room(x, y, dx, dy),
{
    let nx = x + dx;
    let ny = y + dy;
    assert(on_board(nx, ny));
    if a.piece(nx, ny) != 0 {
        assert(!(nx == tx && ny == ty));
        assert(!(nx == fx && ny == fy));
        assert(b.piece(nx, ny) == a.piece(nx, ny));
    } else if nx == fx && ny == fy {
        lemma_ray_beyond(b, a, p, fx, fy, tx, ty, fx, fy, dx, dy, q);
    } else {
        assert(!(nx == tx && ny == ty));
        assert(b.piece(nx, ny) == a.piece(nx, ny));
        lemma_ray_through(b, a, p, fx, fy, tx, ty, nx, ny, dx, dy, q);
        if ray_first(b, nx, ny, dx, dy) != q {
            assert(on_ray(x, y, dx, dy, fx, fy));
            if between(x, y, dx, dy, tx, ty, fx, fy) {
                assert(between(nx, ny, dx, dy, tx, ty, fx, fy));
            }
        }
    }
}


/// A pawn or a piece that slides passes empty squares only on its way.
pub proof fn lemma_path_clear(s: GameState, m: Move, ex: int, ey: int)
    requires
        s.wf(),
        pseudo_legal(s, m),
        moved_kind(s, m) == PAWN || moved_kind(s, m) == BISHOP || moved_kind(s, m) == ROOK
            || moved_kind(s, m) == QUEEN,
        on_ray(m.0.0 as int, m.0.1 as int, ex, ey, m.1.0 as int, m.1.1 as int),
    ensures
        forall|zx: int, zy: int|
            on_board(zx, zy) && between(
                m.0.0 as int,
                m.0.1 as int,
                ex,
                ey,
                zx,
                zy,
                m.1.0 as int,
                m.1.1 as int,
            ) ==> #[trigger] s.board.piece(zx, zy) == 0,
{
    let b = s.board;
    let fx = m.0.0 as int;
    let fy = m.0.1 as int;
    let tx = m.1.0 as int;
    let ty = m.1.1 as int;
    assert forall|zx: int, zy: int|
        on_board(zx, zy) && between(fx, fy, ex, ey, zx, zy, tx, ty) implies #[trigger] b.piece(
        zx,
        zy,
    ) == 0 by {
        if moved_kind(s, m) == PAWN {
        } else {
            lemma_slide_clear(b, fx, fy, tx, ty, ex, ey, zx, zy, -1, -1);
            lemma_slide_clear(b, fx, fy, tx, ty, ex, ey, zx, zy, -1, 1);
            lemma_slide_clear(b, fx, fy, tx, ty, ex, ey, zx, zy, 1, -1);
            lemma_slide_clear(b, fx, fy, tx, ty, ex, ey, zx, zy, 1, 1);
            lemma_slide_clear(b, fx, fy, tx, ty, ex, ey, zx, zy, -1, 0);
            lemma_slide_clear(b, fx, fy, tx, ty, ex, ey, zx, zy, 1, 0);
            lemma_slide_clear(b, fx, fy, tx, ty, ex, ey, zx, zy, 0, -1);
            lemma_slide_clear(b, fx, fy, tx, ty, ex, ey, zx, zy, 0, 1);
        }
    }
}

/// A slide in direction `(dx, dy)` passes empty squares only, and it is a
/// slide in the direction in which its target lies.
proof fn lemma_slide_clear(
    b: Board,
    fx: int,
    fy: int,
    tx: int,
    ty: int,
    ex: int,
    ey: int,
    zx: int,
    zy: int,
    dx: int,
    dy: int,
)
    requires
        on_ray(fx, fy, ex, ey, tx, ty),
        between(fx, fy, ex, ey, zx, zy, tx, ty),
    ensures
        reach(b, fx, fy, dx, dy, tx, ty) ==> b.piece(zx, zy) == 0,
{
    if reach(b, fx, fy, dx, dy, tx, ty) {
        lemma_reach_on_ray(b, fx, fy, dx, dy, tx, ty);
        assert(dx == ex && dy == ey);
        lemma_reach_clear(b, fx, fy, dx, dy, tx, ty, zx, zy);
    }
}

/// Where a pawn or a piece that slides stands on a line with its own king
/// and stays on that line, no piece of the other side is the first behind
/// the square it has left.
pub proof fn lemma_stays_on_line(
    s: GameState,
    m: Move,
    a: Board,
    kx: int,
    ky: int,
    dx: int,
    dy: int,
    q: int,
)
    requires
        s.wf(),
        pseudo_legal(s, m),
        moved_kind(s, m) == PAWN || moved_kind(s, m) == BISHOP || moved_kind(s, m) == ROOK
            || moved_kind(s, m) == QUEEN,
        moved(s.board, a, s.player as int, m.0.0 as int, m.0.1 as int, m.1.0 as int, m.1.1 as int),
        on_board(kx, ky),
        s.board.piece(kx, ky) == KING * s.player,
        on_ray(kx, ky, dx, dy, m.0.0 as int, m.0.1 as int),
        same_line(m.0.0 - kx, m.0.1 - ky, m.1.0 - kx, m.1.1 - ky),
        piece_sign(q) == -s.player,
        !between(kx, ky, dx, dy, m.1.0 as int, m.1.1 as int, m.0.0 as int, m.0.1 as int),
    ensures
        ray_first(a, m.0.0 as int, m.0.1 as int, dx, dy) != q,
{
    let b = s.board;
    let p = s.player as int;
    let fx = m.0.0 as int;
    let fy = m.0.1 as int;
    let tx = m.1.0 as int;
    let ty = m.1.1 as int;
    assert(piece_sign(b.piece(tx, ty) as int) != p) by {
        lemma_lands_on_no_own_piece(s, m);
    }
    if on_ray(fx, fy, dx, dy, tx, ty) {
        lemma_path_clear(s, m, dx, dy);
        assert forall|zx: int, zy: int|
            on_board(zx, zy) && between(fx, fy, dx, dy, zx, zy, tx, ty) implies #[trigger] a.piece(
            zx,
            zy,
        ) == 0 by {
            assert(b.piece(zx, zy) == 0);
            assert(a.piece(zx, zy) == b.piece(zx, zy));
        }
        lemma_ray_stops(a, fx, fy, dx, dy, tx, ty);
    } else {
        assert(on_ray(fx, fy, -dx, -dy, tx, ty));
        lemma_path_clear(s, m, -dx, -dy);
        if tx == kx && ty == ky {
        } else if between(fx, fy, -dx, -dy, kx, ky, tx, ty) {
            assert(b.piece(kx, ky) == 0);
        } else {
            assert(between(kx, ky, dx, dy, tx, ty, fx, fy));
        }
    }
}

/// No move lands on a piece of its own side.
pub proof fn lemma_lands_on_no_own_piece(s: GameState, m: Move)
    requires
        s.wf(),
        pseudo_legal(s, m),
    ensures
        piece_sign(s.board.piece(m.1.0 as int, m.1.1 as int) as int) != s.player,
        !(m.0.0 == m.1.0 && m.0.1 == m.1.1),
{
}

/// A move of a piece other than the king that uncovers no line, made while
/// the king is not attacked along the line in direction `(dx, dy)` by the
/// piece `q` of the other side, leaves the king unattacked along that line
/// by that piece, if `q` is a piece that moves along such a line.
pub proof fn lemma_line_stays_closed(
    s: GameState,
    m: Move,
    a: Board,
    kx: int,
    ky: int,
    dx: int,
    dy: int,
    q: int,
)
    requires
        s.wf(),
        pseudo_legal(s, m),
        moved_kind(s, m) != KING,
        moved(s.board, a, s.player as int, m.0.0 as int, m.0.1 as int, m.1.0 as int, m.1.1 as int),
        on_board(kx, ky),
        s.board.piece(kx, ky) == KING * s.player,
        unit_dir(dx, dy),
        q == QUEEN * -s.player || q == (if dx == 0 || dy == 0 {
            ROOK
        } else {
            BISHOP
        }) * -s.player,
        ray_first(s.board, kx, ky, dx, dy) != q,
        !discovered(s.board, s.player as int, kx, ky, m),
    ensures
        ray_first(a, kx, ky, dx, dy) != q,
{
    let b = s.board;
    let p = s.player as int;
    let fx = m.0.0 as int;
    let fy = m.0.1 as int;
    let tx = m.1.0 as int;
    let ty = m.1.1 as int;
    assert(piece_sign(q) == -p) by {
        assert(p == 1 || p == -1);
        if p == 1 {
            assert(QUEEN * -s.player == -5);
            assert(ROOK * -s.player == -4);
            assert(BISHOP * -s.player == -3);
        } else {
            assert(QUEEN * -s.player == 5);
            assert(ROOK * -s.player == 4);
            assert(BISHOP * -s.player == 3);
        }
    }
    if ray_first(a, kx, ky, dx, dy) == q {
        lemma_ray_through(b, a, p, fx, fy, tx, ty, kx, ky, dx, dy, q);
        assert(on_ray(kx, ky, dx, dy, fx, fy));
        assert(signum(fx - kx) == dx && signum(fy - ky) == dy);
        assert(aligned(fx - kx, fy - ky));
        assert(same_line(fx - kx, fy - ky, tx - kx, ty - ky));
        if moved_kind(s, m) == KNIGHT {
            assert(false);
        } else {
            lemma_stays_on_line(s, m, a, kx, ky, dx, dy, q);
        }
    }
}

/// A move of a piece other than the king that uncovers no line, made while
/// the king is not attacked, leaves the king unattacked.
pub proof fn lemma_quiet_move_is_safe(s: GameState, m: Move, a: Board, kx: int, ky: int)
    requires
        s.wf(),
        pseudo_legal(s, m),
        moved_kind(s, m) != KING,
        moved(s.board, a, s.player as int, m.0.0 as int, m.0.1 as int, m.1.0 as int, m.1.1 as int),
        on_board(kx, ky),
        s.board.piece(kx, ky) == KING * s.player,
        !attacked(s.board, kx, ky, -s.player),
        !discovered(s.board, s.player as int, kx, ky, m),
    ensures
        !attacked(a, kx, ky, -s.player),
{
    let b = s.board;
    let p = s.player as int;
    let by = -p;
    assert(!pawn_attacks(a, kx, ky, by));
    assert(!knight_attacks(a, kx, ky, by));
    assert(!king_attacks(a, kx, ky, by));
    lemma_line_stays_closed(s, m, a, kx, ky, -1, -1, BISHOP * by);
    lemma_line_stays_closed(s, m, a, kx, ky, -1, 1, BISHOP * by);
    lemma_line_stays_closed(s, m, a, kx, ky, 1, -1, BISHOP * by);
    lemma_line_stays_closed(s, m, a, kx, ky, 1, 1, BISHOP * by);
    lemma_line_stays_closed(s, m, a, kx, ky, -1, -1, QUEEN * by);
    lemma_line_stays_closed(s, m, a, kx, ky, -1, 1, QUEEN * by);
    lemma_line_stays_closed(s, m, a, kx, ky, 1, -1, QUEEN * by);
    lemma_line_stays_closed(s, m, a, kx, ky, 1, 1, QUEEN * by);
    lemma_line_stays_closed(s, m, a, kx, ky, -1, 0, ROOK * by);
    lemma_line_stays_closed(s, m, a, kx, ky, 1, 0, ROOK * by);
    lemma_line_stays_closed(s, m, a, kx, ky, 0, -1, ROOK * by);
    lemma_line_stays_closed(s, m, a, kx, ky, 0, 1, ROOK * by);
    lemma_line_stays_closed(s, m, a, kx, ky, -1, 0, QUEEN * by);
    lemma_line_stays_closed(s, m, a, kx, ky, 1, 0, QUEEN * by);
    lemma_line_stays_closed(s, m, a, kx, ky, 0, -1, QUEEN * by);
    lemma_line_stays_closed(s, m, a, kx, ky, 0, 1, QUEEN * by);
}


/// Where the mover's king stands after a move: on the target if it is the
/// king that moves, else where it stood.
pub proof fn lemma_king_after_move(s: GameState, m: Move)
    requires
        s.wf(),
        pseudo_legal(s, m),
    ensures
        king_square(board_after(s, m), s.player as int) == (if moved_kind(s, m) == KING {
            (m.1.0 as int, m.1.1 as int)
        } else {
            king_square(s.board, s.player as int)
        }),
        on_board(king_square(s.board, s.player as int).0, king_square(s.board, s.player as int).1),
        s.board.piece(king_square(s.board, s.player as int).0, king_square(s.board, s.player as int).1)
            == KING * s.player,
{
    let b = s.board;
    let p = s.player as int;
    let after = board_after(s, m);
    let (ox, oy) = choose|x: int, y: int| on_board(x, y) && #[trigger] b.piece(x, y) == KING * p;
    assert(b.piece(ox, oy) == KING * p);
    assert(b.first_holding(ox, oy, KING * p)) by {
        assert forall|i: int, j: int|
            on_board(i, j) && coord_rank(i, j) < coord_rank(ox, oy) implies #[trigger] b.piece(i, j)
            != KING * p by {
            if b.piece(i, j) == KING * p {
                assert(i == ox && j == oy);
            }
        }
    }
    lemma_king_square(b, p, ox, oy);
    let (nx, ny) = if moved_kind(s, m) == KING {
        (m.1.0 as int, m.1.1 as int)
    } else {
        (ox, oy)
    };
    if moved_kind(s, m) == KING {
        assert(ox == m.0.0 && oy == m.0.1);
    }
    assert(after.piece(nx, ny) == KING * p);
    assert forall|i: int, j: int| on_board(i, j) && #[trigger] after.piece(i, j) == KING
        * p implies i == nx && j == ny by {
        if !(i == m.1.0 && j == m.1.1) {
            assert(b.piece(i, j) == KING * p);
        }
    }
    assert(after.first_holding(nx, ny, KING * p));
    lemma_king_square(after, p, nx, ny);
}

/// Two boards that agree on the squares ahead of `(x, y)` in direction
/// `(dx, dy)` show the same first piece on that line.
proof fn lemma_ray_agree(a1: Board, a2: Board, x: int, y: int, dx: int, dy: int)
    requires
        forall|i: int, j: int|
            on_board(i, j) && on_ray(x, y, dx, dy, i, j) ==> #[trigger] a1.piece(i, j) == a2.piece(
                i,
                j,
            ),
    ensures
        ray_first(a1, x, y, dx, dy) == ray_first(a2, x, y, dx, dy),
    decreases ray_room(x, y, dx, dy),
{
    if unit_dir(dx, dy) && on_board(x, y) && on_board(x + dx, y + dy) {
        assert(on_ray(x, y, dx, dy, x + dx, y + dy));
        assert(a1.piece(x + dx, y + dy) == a2.piece(x + dx, y + dy));
        if a1.piece(x + dx, y + dy) == 0 {
            assert forall|i: int, j: int|
                on_board(i, j) && on_ray(x + dx, y + dy, dx, dy, i, j) implies #[trigger] a1.piece(
                i,
                j,
            ) == a2.piece(i, j) by {
                assert(on_ray(x, y, dx, dy, i, j));
            }
            lemma_ray_agree(a1, a2, x + dx, y + dy, dx, dy);
        }
    }
}

/// Across empty squares up to and including `(tx, ty)`, the first piece on
/// the line is the first piece on it from `(tx, ty)` on.
proof fn lemma_ray_skips(b: Board, x: int, y: int, dx: int, dy: int, tx: int, ty: int)
    requires
        on_board(x, y),
        on_board(tx, ty),
        on_ray(x, y, dx, dy, tx, ty),
        b.piece(tx, ty) == 0,
        forall|zx: int, zy: int|
            on_board(zx, zy) && between(x, y, dx, dy, zx, zy, tx, ty) ==> #[trigger] b.piece(
                zx,
                zy,
            ) == 0,
    ensures
        ray_first(b, x, y, dx, dy) == ray_first(b, tx, ty, dx, dy),
    decreases ray_room(x, y, dx, dy),
{
    let nx = x + dx;
    let ny = y + dy;
    assert(on_board(nx, ny));
    if nx == tx && ny == ty {
    } else {
        assert(between(x, y, dx, dy, nx, ny, tx, ty));
        assert(b.piece(nx, ny) == 0);
        assert forall|zx: int, zy: int|
            on_board(zx, zy) && between(nx, ny, dx, dy, zx, zy, tx, ty) implies #[trigger] b.piece(
            zx,
            zy,
        ) == 0 by {
            assert(between(x, y, dx, dy, zx, zy, tx, ty));
        }
        lemma_ray_skips(b, nx, ny, dx, dy, tx, ty);
    }
}

/// A move that uncovers a line to the king leaves the king attacked.
pub proof fn lemma_uncovered_line_is_attack(s: GameState, m: Move, a: Board, kx: int, ky: int)
    requires
        s.wf(),
        pseudo_legal(s, m),
        moved(s.board, a, s.player as int, m.0.0 as int, m.0.1 as int, m.1.0 as int, m.1.1 as int),
        on_board(kx, ky),
        discovered(s.board, s.player as int, kx, ky, m),
    ensures
        attacked(a, kx, ky, -s.player),
{
    let b = s.board;
    let p = s.player as int;
    let fx = m.0.0 as int;
    let fy = m.0.1 as int;
    let tx = m.1.0 as int;
    let ty = m.1.1 as int;
    let dx = signum(fx - kx);
    let dy = signum(fy - ky);
    let q = ray_first(b, fx, fy, dx, dy);
    assert(p == 1 || p == -1);
    lemma_reach_on_ray(b, kx, ky, dx, dy, fx, fy);
    assert forall|zx: int, zy: int|
        on_board(zx, zy) && between(kx, ky, dx, dy, zx, zy, fx, fy) implies #[trigger] a.piece(
        zx,
        zy,
    ) == 0 by {
        lemma_reach_clear(b, kx, ky, dx, dy, fx, fy, zx, zy);
        assert(!(zx == tx && zy == ty));
        assert(a.piece(zx, zy) == b.piece(zx, zy));
    }
    lemma_ray_skips(a, kx, ky, dx, dy, fx, fy);
    assert forall|i: int, j: int|
        on_board(i, j) && on_ray(fx, fy, dx, dy, i, j) implies #[trigger] a.piece(i, j) == b.piece(
        i,
        j,
    ) by {
        assert(!(i == tx && j == ty));
    }
    lemma_ray_agree(a, b, fx, fy, dx, dy);
    assert(ray_first(a, kx, ky, dx, dy) == q);
    if p == 1 {
        assert(QUEEN * -p == -5 && ROOK * -p == -4 && BISHOP * -p == -3);
    } else {
        assert(QUEEN * -p == 5 && ROOK * -p == 4 && BISHOP * -p == 3);
    }
    assert(q != 0);
}

/// Where the king is not attacked and the piece that moves is not the king
/// and takes no pawn en passant, the king is attacked after the move exactly
/// when the move uncovers a line to it: the short test of the generator
/// answers as the look at the board after the move does.
pub proof fn lemma_fast_path_exact(s: GameState, m: Move)
    requires
        s.wf(),
        pseudo_legal(s, m),
        moved_kind(s, m) != KING,
        !is_en_passant(s, m),
        !attacked(
            s.board,
            king_square(s.board, s.player as int).0,
            king_square(s.board, s.player as int).1,
            -s.player,
        ),
    ensures
        discovered(
            s.board,
            s.player as int,
            king_square(s.board, s.player as int).0,
            king_square(s.board, s.player as int).1,
            m,
        ) == !safe_after(s, m),
{
    let b = s.board;
    let p = s.player as int;
    let after = board_after(s, m);
    let k = king_square(b, p);
    lemma_king_after_move(s, m);
    lemma_lands_on_no_own_piece(s, m);
    assert(p == 1 || p == -1);
    assert(moved(b, after, p, m.0.0 as int, m.0.1 as int, m.1.0 as int, m.1.1 as int));
    if discovered(b, p, k.0, k.1, m) {
        lemma_uncovered_line_is_attack(s, m, after, k.0, k.1);
    } else {
        lemma_quiet_move_is_safe(s, m, after, k.0, k.1);
    }
}

/// No move that the generator offers leaves the mover's own king attacked.
pub proof fn lemma_king_stays_safe(s: GameState, m: Move)
    requires
        legal(s, m),
    ensures
        !attacked(
            apply(s, m).board,
            king_square(apply(s, m).board, s.player as int).0,
            king_square(apply(s, m).board, s.player as int).1,
            -s.player,
        ),
{
    reveal(legal);
    reveal(apply);
}

} // verus!
