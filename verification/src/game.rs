//! Attacks on squares, the movement rules, and the move generator.

use crate::types::{
    back_rank_of, on_board, pawn_base_of, piece_kind, piece_sign, piece_value, sub_pos, valid_move,
    valid_piece, valid_player, valid_pos, Board, CastleStatus, GameState, IsPiece, Move, Piece,
    Player, PlayerTrait, Position, PosTrait, Score, BISHOP, KING, KNIGHT, PAWN, QUEEN, ROOK,
};
use itertools::Itertools;
use vstd::prelude::*;

verus! {

/// A single step along a file, a rank or a diagonal.
pub open spec fn unit_dir(dx: int, dy: int) -> bool {
    -1 <= dx <= 1 && -1 <= dy <= 1 && (dx != 0 || dy != 0)
}

/// How many squares lie ahead of `(x, y)` before the edge, counting `(x, y)` itself.
pub open spec fn ray_room(x: int, y: int, dx: int, dy: int) -> int {
    if dx > 0 {
        8 - x
    } else if dx < 0 {
        x + 1
    } else if dy > 0 {
        8 - y
    } else {
        y + 1
    }
}

/// The first piece met when walking from `(x, y)` in direction `(dx, dy)`, the
/// starting square not counted; zero when the walk leaves the board first.
pub open spec fn ray_first(b: Board, x: int, y: int, dx: int, dy: int) -> Piece
    decreases ray_room(x, y, dx, dy),
{
    if unit_dir(dx, dy) && on_board(x, y) && on_board(x + dx, y + dy) {
        if b.piece(x + dx, y + dy) != 0 {
            b.piece(x + dx, y + dy)
        } else {
            ray_first(b, x + dx, y + dy, dx, dy)
        }
    } else {
        0
    }
}

/// Square `(x, y)` is on the board and holds exactly `p`.
pub open spec fn holds(b: Board, x: int, y: int, p: int) -> bool {
    on_board(x, y) && b.piece(x, y) == p
}

/// A pawn of side `by` stands where it captures onto `(x, y)`.
pub open spec fn pawn_attacks(b: Board, x: int, y: int, by: int) -> bool {
    holds(b, x - 1, y - by, PAWN * by) || holds(b, x + 1, y - by, PAWN * by)
}

/// A knight of side `by` stands a knight's jump away from `(x, y)`.
pub open spec fn knight_attacks(b: Board, x: int, y: int, by: int) -> bool {
    let n = KNIGHT * by;
    holds(b, x + 2, y + 1, n) || holds(b, x + 2, y - 1, n) || holds(b, x + 1, y + 2, n) || holds(
        b,
        x + 1,
        y - 2,
        n,
    ) || holds(b, x - 1, y + 2, n) || holds(b, x - 1, y - 2, n) || holds(b, x - 2, y + 1, n)
        || holds(b, x - 2, y - 1, n)
}

/// The king of side `by` stands on `(x, y)` or on a square that touches it.
pub open spec fn king_attacks(b: Board, x: int, y: int, by: int) -> bool {
    let k = KING * by;
    holds(b, x - 1, y - 1, k) || holds(b, x - 1, y, k) || holds(b, x - 1, y + 1, k) || holds(
        b,
        x,
        y - 1,
        k,
    ) || holds(b, x, y, k) || holds(b, x, y + 1, k) || holds(b, x + 1, y - 1, k) || holds(
        b,
        x + 1,
        y,
        k,
    ) || holds(b, x + 1, y + 1, k)
}

/// The first piece on one of the four diagonals from `(x, y)` is exactly `p`.
pub open spec fn diagonal_sees(b: Board, x: int, y: int, p: int) -> bool {
    p != 0 && (ray_first(b, x, y, -1, -1) == p || ray_first(b, x, y, -1, 1) == p || ray_first(
        b,
        x,
        y,
        1,
        -1,
    ) == p || ray_first(b, x, y, 1, 1) == p)
}

/// The first piece along the file or the rank from `(x, y)`, in one of the
/// four directions, is exactly `p`.
pub open spec fn straight_sees(b: Board, x: int, y: int, p: int) -> bool {
    p != 0 && (ray_first(b, x, y, -1, 0) == p || ray_first(b, x, y, 1, 0) == p || ray_first(
        b,
        x,
        y,
        0,
        -1,
    ) == p || ray_first(b, x, y, 0, 1) == p)
}

/// Some piece of side `by` attacks square `(x, y)`.
pub open spec fn attacked(b: Board, x: int, y: int, by: int) -> bool {
    pawn_attacks(b, x, y, by) || knight_attacks(b, x, y, by) || diagonal_sees(
        b,
        x,
        y,
        BISHOP * by,
    ) || diagonal_sees(b, x, y, QUEEN * by) || straight_sees(b, x, y, ROOK * by) || straight_sees(
        b,
        x,
        y,
        QUEEN * by,
    ) || king_attacks(b, x, y, by)
}

/// The squares `(x0 + i, y0 + j)` for `i < w` and `j < h`, those of a smaller
/// `i` first and, among them, those of a smaller `j` first.
pub open spec fn grid(x0: int, y0: int, w: int, h: int) -> Seq<Position> {
    Seq::new((w * h) as nat, |k: int| ((x0 + k / h) as usize, (y0 + k % h) as usize))
}

/// The position of `(x, y)` in the order in which `all_coords` lists the board.
pub open spec fn coord_rank(x: int, y: int) -> int {
    8 * x + y
}

/// Calls `itertools::Itertools::cartesian_product` on the ranges `x0..x1` and
/// `y0..y1`. Trusted: it yields every pair of a first and a second
/// coordinate, a smaller first coordinate before a larger one and, for one
/// first coordinate, the second coordinates in their range's order.
#[verifier::external_body]
fn product_of_ranges(x0: usize, x1: usize, y0: usize, y1: usize) -> (out: Vec<Position>)
    requires
        x0 <= x1,
        y0 <= y1,
    ensures
        out@ == grid(x0 as int, y0 as int, x1 - x0, y1 - y0),
{
    (x0..x1).cartesian_product(y0..y1).collect()
}

/// Every square of the board, file by file.
pub fn all_coords() -> (out: Vec<Position>)
    ensures
        out@.len() == 64,
        forall|k: int| 0 <= k < 64 ==> #[trigger] out@[k] == ((k / 8) as usize, (k % 8) as usize),
        forall|x: int, y: int|
            on_board(x, y) ==> #[trigger] out@[coord_rank(x, y)] == (x as usize, y as usize),
{
    let out = product_of_ranges(0, 8, 0, 8);
    assert(out@.len() == 64);
    out
}

/// The square with these coordinates.
pub open spec fn square(x: int, y: int) -> Position {
    (x as usize, y as usize)
}

/// A grid of two or three files and two or three ranks holds the squares of
/// those files and ranks and no others.
proof fn lemma_small_grid(x0: int, y0: int, w: int, h: int)
    requires
        0 <= x0,
        0 <= y0,
        x0 + w <= 8,
        y0 + h <= 8,
        2 <= w <= 3,
        2 <= h <= 3,
    ensures
        forall|k: int|
            0 <= k < grid(x0, y0, w, h).len() ==> x0 <= (#[trigger] grid(x0, y0, w, h)[k]).0 < x0
                + w && y0 <= grid(x0, y0, w, h)[k].1 < y0 + h,
        forall|x: int, y: int|
            x0 <= x < x0 + w && y0 <= y < y0 + h ==> #[trigger] grid(x0, y0, w, h).contains(
                square(x, y),
            ),
        grid(x0, y0, w, h).no_duplicates(),
{
    if h == 2 {
        let g = grid(x0, y0, w, 2);
        assert(g.len() == 2 * w);
        assert forall|i: int, j: int|
            0 <= i < g.len() && 0 <= j < g.len() && i != j implies g[i] != g[j] by {
            assert(i == 2 * (i / 2) + i % 2 && j == 2 * (j / 2) + j % 2);
            assert(0 <= i / 2 < w && 0 <= j / 2 < w);
        }
        assert forall|k: int| 0 <= k < g.len() implies x0 <= (#[trigger] g[k]).0 < x0 + w && y0
            <= g[k].1 < y0 + 2 by {
            assert(0 <= k / 2 < w);
        }
        assert forall|x: int, y: int| x0 <= x < x0 + w && y0 <= y < y0 + 2 implies #[trigger] g.contains(
            square(x, y),
        ) by {
            let k = (x - x0) * 2 + (y - y0);
            assert(k / 2 == x - x0 && k % 2 == y - y0);
            assert(g[k] == square(x, y));
        }
    } else {
        let g = grid(x0, y0, w, 3);
        assert(g.len() == 3 * w);
        assert forall|i: int, j: int|
            0 <= i < g.len() && 0 <= j < g.len() && i != j implies g[i] != g[j] by {
            assert(i == 3 * (i / 3) + i % 3 && j == 3 * (j / 3) + j % 3);
            assert(0 <= i / 3 < w && 0 <= j / 3 < w);
        }
        assert forall|k: int| 0 <= k < g.len() implies x0 <= (#[trigger] g[k]).0 < x0 + w && y0
            <= g[k].1 < y0 + 3 by {
            assert(0 <= k / 3 < w);
        }
        assert forall|x: int, y: int| x0 <= x < x0 + w && y0 <= y < y0 + 3 implies #[trigger] g.contains(
            square(x, y),
        ) by {
            let k = (x - x0) * 3 + (y - y0);
            assert(k / 3 == x - x0 && k % 3 == y - y0);
            assert(g[k] == square(x, y));
        }
    }
}

/// The first of the files, or ranks, that touch file or rank `i` or are `i`.
pub open spec fn zone_start(i: int) -> int {
    if i == 0 {
        0
    } else {
        i - 1
    }
}

/// How many files, or ranks, touch file or rank `i` or are `i`.
pub open spec fn zone_width(i: int) -> int {
    if i == 0 || i == 7 {
        2
    } else {
        3
    }
}

/// The square itself and the squares that touch it, as far as they are on
/// the board, file by file.
pub fn get_all_king_moves(pos: Position) -> (out: Vec<Position>)
    requires
        valid_pos(pos),
    ensures
        out@ == grid(
            zone_start(pos.0 as int),
            zone_start(pos.1 as int),
            zone_width(pos.0 as int),
            zone_width(pos.1 as int),
        ),
        forall|k: int|
            0 <= k < out@.len() ==> valid_pos(#[trigger] out@[k]) && pos.0 - 1 <= out@[k].0 <= pos.0
                + 1 && pos.1 - 1 <= out@[k].1 <= pos.1 + 1,
        forall|x: int, y: int|
            on_board(x, y) && pos.0 - 1 <= x <= pos.0 + 1 && pos.1 - 1 <= y <= pos.1 + 1
                ==> out@.contains((x as usize, y as usize)),
        out@.no_duplicates(),
{
    let (x, y) = pos;
    let x0: usize = if x == 0 {
        0
    } else {
        x - 1
    };
    let y0: usize = if y == 0 {
        0
    } else {
        y - 1
    };
    let x1: usize = if x == 7 {
        8
    } else {
        x + 2
    };
    let y1: usize = if y == 7 {
        8
    } else {
        y + 2
    };
    let out = product_of_ranges(x0, x1, y0, y1);
    proof {
        lemma_small_grid(x0 as int, y0 as int, x1 - x0, y1 - y0);
        assert forall|px: int, py: int|
            on_board(px, py) && pos.0 - 1 <= px <= pos.0 + 1 && pos.1 - 1 <= py <= pos.1
                + 1 implies out@.contains((px as usize, py as usize)) by {
            assert(grid(x0 as int, y0 as int, x1 - x0, y1 - y0).contains(square(px, py)));
        }
    }
    out
}

impl Board {
    /// Whether a piece with code `p` stands somewhere on the board.
    pub open spec fn has(&self, p: int) -> bool {
        exists|x: int, y: int| on_board(x, y) && #[trigger] self.piece(x, y) == p
    }

    /// `(x, y)` is the first square, file by file, that holds `p`.
    pub open spec fn first_holding(&self, x: int, y: int, p: int) -> bool {
        &&& holds(*self, x, y, p)
        &&& forall|i: int, j: int|
            on_board(i, j) && coord_rank(i, j) < coord_rank(x, y) ==> #[trigger] self.piece(i, j)
                != p
    }

    /// The square of `player`'s king: the first one, file by file, that holds it.
    pub fn get_king_pos(&self, player: Player) -> (pos: Position)
        requires
            valid_player(player as int),
            self.has(KING * player),
        ensures
            valid_pos(pos),
            self.first_holding(pos.0 as int, pos.1 as int, KING * player),
    {
        let coords = all_coords();
        let king: Piece = KING * player;
        let mut k: usize = 0;
        while k < 64
            invariant
                0 <= k <= 64,
                king == KING * player,
                coords@.len() == 64,
                forall|i: int|
                    0 <= i < 64 ==> #[trigger] coords@[i] == ((i / 8) as usize, (i % 8) as usize),
                forall|i: int, j: int|
                    on_board(i, j) && coord_rank(i, j) < k ==> #[trigger] self.piece(i, j) != king,
            decreases 64 - k,
        {
            let pos = coords[k];
            if self.at(pos) == king {
                return pos;
            }
            assert forall|i: int, j: int|
                on_board(i, j) && coord_rank(i, j) < k + 1 implies #[trigger] self.piece(i, j)
                != king by {
                if coord_rank(i, j) == k {
                    assert(i == k as int / 8 && j == k as int % 8);
                }
            }
            k += 1;
        }
        proof {
            let (i, j) = choose|i: int, j: int| on_board(i, j) && #[trigger] self.piece(i, j) == king;
            assert(coord_rank(i, j) < 64);
            assert(false);
        }
        (0, 0)
    }

    /// The first piece met from `pos` in direction `(dx, dy)`, zero if there is none.
    pub fn first_on_ray(&self, pos: Position, dx: i8, dy: i8) -> (p: Piece)
        requires
            valid_pos(pos),
            unit_dir(dx as int, dy as int),
        ensures
            p == ray_first(*self, pos.0 as int, pos.1 as int, dx as int, dy as int),
    {
        let mut x: i8 = pos.0 as i8;
        let mut y: i8 = pos.1 as i8;
        loop
            invariant
                on_board(x as int, y as int),
                unit_dir(dx as int, dy as int),
                ray_first(*self, x as int, y as int, dx as int, dy as int) == ray_first(
                    *self,
                    pos.0 as int,
                    pos.1 as int,
                    dx as int,
                    dy as int,
                ),
            decreases ray_room(x as int, y as int, dx as int, dy as int),
        {
            let nx: i8 = x + dx;
            let ny: i8 = y + dy;
            if nx < 0 || nx > 7 || ny < 0 || ny > 7 {
                return 0;
            }
            let p = self.at((nx as usize, ny as usize));
            if p != 0 {
                return p;
            }
            x = nx;
            y = ny;
        }
    }

    /// Whether the square `(x + dx, y + dy)` is on the board and holds `p`.
    fn holds_at(&self, pos: Position, dx: i8, dy: i8, p: Piece) -> (r: bool)
        requires
            valid_pos(pos),
            -2 <= dx <= 2,
            -2 <= dy <= 2,
        ensures
            r == holds(*self, pos.0 + dx, pos.1 + dy, p as int),
    {
        match offset(pos, dx, dy) {
            Some(to) => self.at(to) == p,
            None => false,
        }
    }

    /// Whether a knight with code `knight` stands a knight's jump from `pos`.
    fn knight_near(&self, pos: Position, knight: Piece) -> (r: bool)
        requires
            valid_pos(pos),
        ensures
            r == (holds(*self, pos.0 + 2, pos.1 + 1, knight as int) || holds(
                *self,
                pos.0 + 2,
                pos.1 - 1,
                knight as int,
            ) || holds(*self, pos.0 + 1, pos.1 + 2, knight as int) || holds(
                *self,
                pos.0 + 1,
                pos.1 - 2,
                knight as int,
            ) || holds(*self, pos.0 - 1, pos.1 + 2, knight as int) || holds(
                *self,
                pos.0 - 1,
                pos.1 - 2,
                knight as int,
            ) || holds(*self, pos.0 - 2, pos.1 + 1, knight as int) || holds(
                *self,
                pos.0 - 2,
                pos.1 - 1,
                knight as int,
            )),
    {
        self.holds_at(pos, 2, 1, knight) || self.holds_at(pos, 2, -1, knight) || self.holds_at(
            pos,
            1,
            2,
            knight,
        ) || self.holds_at(pos, 1, -2, knight) || self.holds_at(pos, -1, 2, knight)
            || self.holds_at(pos, -1, -2, knight) || self.holds_at(pos, -2, 1, knight)
            || self.holds_at(pos, -2, -1, knight)
    }

    /// Whether the king with code `king` stands on `pos` or touches it.
    fn king_near(&self, pos: Position, king: Piece) -> (r: bool)
        requires
            valid_pos(pos),
        ensures
            r == (holds(*self, pos.0 - 1, pos.1 - 1, king as int) || holds(
                *self,
                pos.0 - 1,
                pos.1 as int,
                king as int,
            ) || holds(*self, pos.0 - 1, pos.1 + 1, king as int) || holds(
                *self,
                pos.0 as int,
                pos.1 - 1,
                king as int,
            ) || holds(*self, pos.0 as int, pos.1 as int, king as int) || holds(
                *self,
                pos.0 as int,
                pos.1 + 1,
                king as int,
            ) || holds(*self, pos.0 + 1, pos.1 - 1, king as int) || holds(
                *self,
                pos.0 + 1,
                pos.1 as int,
                king as int,
            ) || holds(*self, pos.0 + 1, pos.1 + 1, king as int)),
    {
        let zone = get_all_king_moves(pos);
        let mut i: usize = 0;
        while i < zone.len()
            invariant
                0 <= i <= zone@.len(),
                valid_pos(pos),
                forall|k: int|
                    0 <= k < zone@.len() ==> valid_pos(#[trigger] zone@[k]) && pos.0 - 1
                        <= zone@[k].0 <= pos.0 + 1 && pos.1 - 1 <= zone@[k].1 <= pos.1 + 1,
                forall|k: int|
                    0 <= k < i ==> self.piece(
                        (#[trigger] zone@[k]).0 as int,
                        zone@[k].1 as int,
                    ) != king,
            decreases zone@.len() - i,
        {
            if self.at(zone[i]) == king {
                return true;
            }
            i += 1;
        }
        proof {
            assert forall|x: int, y: int|
                pos.0 - 1 <= x <= pos.0 + 1 && pos.1 - 1 <= y <= pos.1 + 1 implies !holds(
                *self,
                x,
                y,
                king as int,
            ) by {
                if on_board(x, y) {
                    let p = (x as usize, y as usize);
                    assert(zone@.contains(p));
                    let k = choose|k: int| 0 <= k < zone@.len() && zone@[k] == p;
                    assert(self.piece(zone@[k].0 as int, zone@[k].1 as int) != king);
                }
            }
        }
        false
    }

    /// Whether a piece of the side that `player` plays against attacks `pos`.
    pub fn is_checked(&self, pos: Position, player: Player) -> (r: bool)
        requires
            valid_pos(pos),
            valid_player(player as int),
        ensures
            r == attacked(*self, pos.0 as int, pos.1 as int, -player),
    {
        let other: Player = -player;
        let pawn: Piece = PAWN * other;
        let knight: Piece = KNIGHT * other;
        let bishop: Piece = BISHOP * other;
        let rook: Piece = ROOK * other;
        let queen: Piece = QUEEN * other;
        let king: Piece = KING * other;

        if self.holds_at(pos, -1, player, pawn) || self.holds_at(pos, 1, player, pawn) {
            return true;
        }
        if self.knight_near(pos, knight) {
            return true;
        }
        let d1 = self.first_on_ray(pos, -1, -1);
        let d2 = self.first_on_ray(pos, -1, 1);
        let d3 = self.first_on_ray(pos, 1, -1);
        let d4 = self.first_on_ray(pos, 1, 1);
        if d1 == bishop || d1 == queen || d2 == bishop || d2 == queen || d3 == bishop || d3
            == queen || d4 == bishop || d4 == queen {
            return true;
        }
        let s1 = self.first_on_ray(pos, -1, 0);
        let s2 = self.first_on_ray(pos, 1, 0);
        let s3 = self.first_on_ray(pos, 0, -1);
        let s4 = self.first_on_ray(pos, 0, 1);
        if s1 == rook || s1 == queen || s2 == rook || s2 == queen || s3 == rook || s3 == queen
            || s4 == rook || s4 == queen {
            return true;
        }
        self.king_near(pos, king)
    }
}


/// Square `(tx, ty)` is met when walking from `(x, y)` in direction `(dx, dy)`
/// over empty squares only; `(tx, ty)` itself may hold anything.
pub open spec fn reach(b: Board, x: int, y: int, dx: int, dy: int, tx: int, ty: int) -> bool
    decreases ray_room(x, y, dx, dy),
{
    unit_dir(dx, dy) && on_board(x, y) && on_board(x + dx, y + dy) && ((x + dx == tx && y + dy
        == ty) || (b.piece(x + dx, y + dy) == 0 && reach(b, x + dx, y + dy, dx, dy, tx, ty)))
}

pub open spec fn diagonal_reach(b: Board, x: int, y: int, tx: int, ty: int) -> bool {
    reach(b, x, y, -1, -1, tx, ty) || reach(b, x, y, -1, 1, tx, ty) || reach(b, x, y, 1, -1, tx, ty)
        || reach(b, x, y, 1, 1, tx, ty)
}

pub open spec fn straight_reach(b: Board, x: int, y: int, tx: int, ty: int) -> bool {
    reach(b, x, y, -1, 0, tx, ty) || reach(b, x, y, 1, 0, tx, ty) || reach(b, x, y, 0, -1, tx, ty)
        || reach(b, x, y, 0, 1, tx, ty)
}

/// Square `(tx, ty)` lies ahead of `(x, y)` on the line that leaves `(x, y)`
/// in direction `(dx, dy)`.
pub open spec fn on_ray(x: int, y: int, dx: int, dy: int, tx: int, ty: int) -> bool {
    let ex = tx - x;
    let ey = ty - y;
    unit_dir(dx, dy) && signum(ex) == dx && signum(ey) == dy && (dx == 0 || dy == 0 || ex == ey
        || ex == -ey)
}

/// A square that a slide reaches lies ahead on the line of the slide.
pub proof fn lemma_reach_on_ray(b: Board, x: int, y: int, dx: int, dy: int, tx: int, ty: int)
    requires
        reach(b, x, y, dx, dy, tx, ty),
    ensures
        on_ray(x, y, dx, dy, tx, ty),
        on_board(tx, ty),
    decreases ray_room(x, y, dx, dy),
{
    if !(x + dx == tx && y + dy == ty) {
        lemma_reach_on_ray(b, x + dx, y + dy, dx, dy, tx, ty);
    }
}

/// Square `(tx, ty)` lies on one of the four diagonals that leave `(x, y)`.
pub open spec fn on_diagonal(x: int, y: int, tx: int, ty: int) -> bool {
    on_ray(x, y, -1, -1, tx, ty) || on_ray(x, y, -1, 1, tx, ty) || on_ray(x, y, 1, -1, tx, ty)
        || on_ray(x, y, 1, 1, tx, ty)
}

/// Square `(tx, ty)` lies on the file or the rank of `(x, y)`, and is another square.
pub open spec fn on_straight(x: int, y: int, tx: int, ty: int) -> bool {
    on_ray(x, y, -1, 0, tx, ty) || on_ray(x, y, 1, 0, tx, ty) || on_ray(x, y, 0, -1, tx, ty)
        || on_ray(x, y, 0, 1, tx, ty)
}

/// A move in the list that slides from `(x, y)` in direction `(dx, dy)` ends
/// on the line that leaves `(x, y)` in that direction.
proof fn lemma_slides_on_ray(b: Board, list: Seq<Move>, from: Position, dx: int, dy: int)
    ensures
        forall|z: Move| #[trigger]
            list.contains(z) && z.0 == from && reach(
                b,
                from.0 as int,
                from.1 as int,
                dx,
                dy,
                z.1.0 as int,
                z.1.1 as int,
            ) ==> on_ray(from.0 as int, from.1 as int, dx, dy, z.1.0 as int, z.1.1 as int),
{
    assert forall|z: Move| #[trigger]
        list.contains(z) && z.0 == from && reach(
            b,
            from.0 as int,
            from.1 as int,
            dx,
            dy,
            z.1.0 as int,
            z.1.1 as int,
        ) implies on_ray(from.0 as int, from.1 as int, dx, dy, z.1.0 as int, z.1.1 as int) by {
        lemma_reach_on_ray(b, from.0 as int, from.1 as int, dx, dy, z.1.0 as int, z.1.1 as int);
    }
}

/// A piece of `player` may land on `(tx, ty)`: the square is empty or the other side's.
pub open spec fn landable(b: Board, player: int, tx: int, ty: int) -> bool {
    on_board(tx, ty) && piece_sign(b.piece(tx, ty) as int) != player
}

/// A pawn of `player` on `(x, y)` may go to `(tx, ty)`: one step ahead onto an
/// empty square, two from its base rank over two empty squares, one diagonal
/// step ahead onto a piece of the other side or onto the en-passant target.
pub open spec fn pawn_step(
    b: Board,
    player: int,
    en_passant: Option<Position>,
    x: int,
    y: int,
    tx: int,
    ty: int,
) -> bool {
    let y1 = y + player;
    ||| tx == x && ty == y1 && b.piece(tx, ty) == 0
    ||| tx == x && ty == y1 + player && y == pawn_base_of(player) && b.piece(x, y1) == 0
        && b.piece(tx, ty) == 0
    ||| ty == y1 && (tx == x + 1 || tx == x - 1) && piece_sign(b.piece(tx, ty) as int) == -player
    ||| ty == y1 && (tx == x + 1 || tx == x - 1) && en_passant == Some((tx as usize, ty as usize))
}

pub open spec fn knight_jump(dx: int, dy: int) -> bool {
    (dx == 2 && dy == 1) || (dx == 2 && dy == -1) || (dx == 1 && dy == 2) || (dx == 1 && dy == -2)
        || (dx == -1 && dy == 2) || (dx == -1 && dy == -2) || (dx == -2 && dy == 1) || (dx == -2
        && dy == -1)
}

pub open spec fn knight_step(b: Board, player: int, x: int, y: int, tx: int, ty: int) -> bool {
    knight_jump(tx - x, ty - y) && landable(b, player, tx, ty)
}

pub open spec fn king_step(b: Board, player: int, x: int, y: int, tx: int, ty: int) -> bool {
    x - 1 <= tx <= x + 1 && y - 1 <= ty <= y + 1 && landable(b, player, tx, ty)
}

/// The king on `(x, y)` may castle to `(tx, ty)` on the king's side: the right
/// is held, the two squares towards the corner are empty, and neither the
/// king's square nor the one it crosses is attacked.
pub open spec fn castle_king_side(
    b: Board,
    player: int,
    rights: CastleStatus,
    x: int,
    y: int,
    tx: int,
    ty: int,
) -> bool {
    rights.of(player).k && tx == x + 2 && ty == y && b.piece(x + 1, y) == 0 && b.piece(x + 2, y)
        == 0 && !attacked(b, x, y, -player) && !attacked(b, x + 1, y, -player)
}

/// The king on `(x, y)` may castle to `(tx, ty)` on the queen's side: the right
/// is held, the three squares towards the corner are empty, and neither the
/// king's square nor the one it crosses is attacked.
pub open spec fn castle_queen_side(
    b: Board,
    player: int,
    rights: CastleStatus,
    x: int,
    y: int,
    tx: int,
    ty: int,
) -> bool {
    rights.of(player).q && tx == x - 2 && ty == y && b.piece(x - 1, y) == 0 && b.piece(x - 2, y)
        == 0 && b.piece(x - 3, y) == 0 && !attacked(b, x, y, -player) && !attacked(
        b,
        x - 1,
        y,
        -player,
    )
}

/// The piece on `(x, y)` moves to `(tx, ty)` as its kind allows.
pub open spec fn piece_step(s: GameState, x: int, y: int, tx: int, ty: int) -> bool {
    let b = s.board;
    let player = s.player as int;
    let kind = piece_kind(b.piece(x, y) as int);
    if kind == PAWN {
        pawn_step(b, player, s.en_passant, x, y, tx, ty)
    } else if kind == KNIGHT {
        knight_step(b, player, x, y, tx, ty)
    } else if kind == BISHOP {
        diagonal_reach(b, x, y, tx, ty) && landable(b, player, tx, ty)
    } else if kind == ROOK {
        straight_reach(b, x, y, tx, ty) && landable(b, player, tx, ty)
    } else if kind == QUEEN {
        (diagonal_reach(b, x, y, tx, ty) || straight_reach(b, x, y, tx, ty)) && landable(
            b,
            player,
            tx,
            ty,
        )
    } else if kind == KING {
        king_step(b, player, x, y, tx, ty) || castle_king_side(
            b,
            player,
            s.can_castle,
            x,
            y,
            tx,
            ty,
        ) || castle_queen_side(b, player, s.can_castle, x, y, tx, ty)
    } else {
        false
    }
}

/// A move that obeys the movement rules of the piece it moves, whether or not
/// it leaves the mover's king attacked.
pub open spec fn pseudo_legal(s: GameState, m: Move) -> bool {
    valid_move(m) && piece_sign(s.board.piece(m.0.0 as int, m.0.1 as int) as int) == s.player
        && piece_step(s, m.0.0 as int, m.0.1 as int, m.1.0 as int, m.1.1 as int)
}

/// The board after the moving piece is lifted from its square and put on its
/// target, nothing else changed.
pub open spec fn simple_move(b: Board, m: Move) -> Board {
    b.with(m.1.0 as int, m.1.1 as int, b.piece(m.0.0 as int, m.0.1 as int)).with(
        m.0.0 as int,
        m.0.1 as int,
        0,
    )
}

/// The kind of the piece that `m` moves.
pub open spec fn moved_kind(s: GameState, m: Move) -> int {
    piece_kind(s.board.piece(m.0.0 as int, m.0.1 as int) as int)
}

/// A pawn goes two ranks.
pub open spec fn is_double_step(s: GameState, m: Move) -> bool {
    moved_kind(s, m) == PAWN && (m.0.1 - m.1.1 == 2 || m.1.1 - m.0.1 == 2)
}

/// A pawn changes file onto the en-passant target.
pub open spec fn is_en_passant(s: GameState, m: Move) -> bool {
    moved_kind(s, m) == PAWN && s.en_passant == Some(m.1) && m.0.0 != m.1.0
}

/// A pawn arrives on the first or the last rank.
pub open spec fn is_promotion(s: GameState, m: Move) -> bool {
    moved_kind(s, m) == PAWN && !is_double_step(s, m) && (m.1.1 == 0 || m.1.1 == 7)
}

/// A king goes two files towards the higher corner.
pub open spec fn castles_king_side(s: GameState, m: Move) -> bool {
    moved_kind(s, m) == KING && m.0.0 + 2 == m.1.0
}

/// A king goes two files towards the lower corner.
pub open spec fn castles_queen_side(s: GameState, m: Move) -> bool {
    moved_kind(s, m) == KING && m.0.0 == m.1.0 + 2
}

/// The board after `m`: the piece moved; a pawn that reaches the far rank
/// replaced by a queen; the pawn taken en passant removed from behind the
/// target; the rook of a castling king put next to it and its corner emptied.
pub open spec fn board_after(s: GameState, m: Move) -> Board {
    let (from, to) = m;
    let player = s.player;
    let b1 = simple_move(s.board, m);
    if is_double_step(s, m) {
        b1
    } else if moved_kind(s, m) == PAWN {
        let b2 = if is_promotion(s, m) {
            b1.with(to.0 as int, to.1 as int, (QUEEN * player) as Piece)
        } else {
            b1
        };
        if is_en_passant(s, m) {
            b2.with(to.0 as int, from.1 as int, 0)
        } else {
            b2
        }
    } else if castles_king_side(s, m) {
        b1.with(from.0 + 1, from.1 as int, (ROOK * player) as Piece).with(7, from.1 as int, 0)
    } else if castles_queen_side(s, m) {
        b1.with(from.0 - 1, from.1 as int, (ROOK * player) as Piece).with(0, from.1 as int, 0)
    } else {
        b1
    }
}

/// The sign of `v`: 1, -1 or 0.
pub open spec fn signum(v: int) -> int {
    if v > 0 {
        1
    } else if v < 0 {
        -1
    } else {
        0
    }
}

/// The offset lies on a file, a rank or a diagonal through the origin.
pub open spec fn aligned(dx: int, dy: int) -> bool {
    dx == 0 || dy == 0 || dx == dy || dx == -dy
}

/// For an aligned offset `(dx1, dy1)`: `(dx2, dy2)` lies on the same line through the origin.
pub open spec fn same_line(dx1: int, dy1: int, dx2: int, dy2: int) -> bool {
    if dx1 == 0 {
        dx2 == 0
    } else if dy1 == 0 {
        dy2 == 0
    } else if dx1 == dy1 {
        dx2 == dy2
    } else {
        dx2 == -dy2
    }
}

/// The piece that `m` moves is the first piece on a line from its king on
/// `(kx, ky)`, it leaves that line, and the first piece behind it, seen from
/// the king, is a piece of the other side that moves along such a line.
pub open spec fn discovered(b: Board, player: int, kx: int, ky: int, m: Move) -> bool {
    let dx1 = m.0.0 - kx;
    let dy1 = m.0.1 - ky;
    let behind = ray_first(b, m.0.0 as int, m.0.1 as int, signum(dx1), signum(dy1));
    let slider = if dx1 == 0 || dy1 == 0 {
        ROOK
    } else {
        BISHOP
    };
    aligned(dx1, dy1) && reach(b, kx, ky, signum(dx1), signum(dy1), m.0.0 as int, m.0.1 as int)
        && !same_line(dx1, dy1, m.1.0 - kx, m.1.1 - ky) && (behind == slider * -player || behind
        == QUEEN * -player)
}

/// The square of `player`'s king.
pub open spec fn king_square(b: Board, player: int) -> (int, int) {
    choose|p: (int, int)| b.first_holding(p.0, p.1, KING * player)
}

/// After the move `m` the king of the side that has made it is not attacked.
pub open spec fn safe_after(s: GameState, m: Move) -> bool {
    let after = board_after(s, m);
    let k = king_square(after, s.player as int);
    !attacked(after, k.0, k.1, -s.player)
}

/// A move that the generator offers: it obeys the movement rules of its
/// piece and does not leave the mover's king attacked.
#[verifier::opaque]
pub open spec fn legal(s: GameState, m: Move) -> bool {
    pseudo_legal(s, m) && safe_after(s, m)
}

/// Exactly one square holds `player`'s king.
pub open spec fn one_king(b: Board, player: int) -> bool {
    &&& b.has(KING * player)
    &&& forall|x1: int, y1: int, x2: int, y2: int|
        on_board(x1, y1) && on_board(x2, y2) && #[trigger] b.piece(x1, y1) == KING * player
            && #[trigger] b.piece(x2, y2) == KING * player ==> x1 == x2 && y1 == y2
}

/// The en-passant target, if there is one, is the empty square behind a pawn
/// of the side that has just moved, on the rank that such a pawn skips.
pub open spec fn en_passant_wf(b: Board, player: int, en_passant: Option<Position>) -> bool {
    match en_passant {
        Some(t) => valid_pos(t) && t.1 == (if player == 1 {
            5int
        } else {
            2int
        }) && b.piece(t.0 as int, t.1 as int) == 0 && b.piece(t.0 as int, t.1 - player) == PAWN
            * -player,
        None => true,
    }
}

impl GameState {
    /// A position that play can go on from: known pieces only, one king for
    /// each side, no pawn on the rank where it would have been promoted,
    /// castling rights only for a king on its home square, and a consistent
    /// en-passant target.
    pub open spec fn wf(&self) -> bool {
        &&& self.board.wf()
        &&& valid_player(self.player as int)
        &&& one_king(self.board, 1)
        &&& one_king(self.board, -1)
        &&& forall|x: int| 0 <= x < 8 ==> #[trigger] self.board.piece(x, 7) != PAWN
        &&& forall|x: int| 0 <= x < 8 ==> #[trigger] self.board.piece(x, 0) != -PAWN
        &&& (self.can_castle.white.k || self.can_castle.white.q) ==> self.board.piece(4, 0) == KING
        &&& (self.can_castle.black.k || self.can_castle.black.q) ==> self.board.piece(4, 7) == -KING
        &&& en_passant_wf(self.board, self.player as int, self.en_passant)
    }
}

/// Two squares that are each the first to hold `p` are one square.
pub proof fn lemma_first_holding_unique(b: Board, x1: int, y1: int, x2: int, y2: int, p: int)
    requires
        b.first_holding(x1, y1, p),
        b.first_holding(x2, y2, p),
    ensures
        x1 == x2,
        y1 == y2,
{
    if coord_rank(x1, y1) < coord_rank(x2, y2) {
        assert(b.piece(x1, y1) != p);
    } else if coord_rank(x2, y2) < coord_rank(x1, y1) {
        assert(b.piece(x2, y2) != p);
    }
}

/// The king's square is the square that `get_king_pos` finds.
pub proof fn lemma_king_square(b: Board, player: int, x: int, y: int)
    requires
        b.first_holding(x, y, KING * player),
    ensures
        king_square(b, player) == (x, y),
{
    let w = (x, y);
    assert(b.first_holding(w.0, w.1, KING * player));
    let k = king_square(b, player);
    lemma_first_holding_unique(b, x, y, k.0, k.1, KING * player);
}


/// The position made of these four parts.
pub open spec fn position(
    board: Board,
    player: Player,
    can_castle: CastleStatus,
    en_passant: Option<Position>,
) -> GameState {
    GameState { board, player, can_castle, en_passant }
}

/// The square at offset `(dx, dy)` from `pos`, if it is on the board.
pub fn offset(pos: Position, dx: i8, dy: i8) -> (r: Option<Position>)
    requires
        valid_pos(pos),
        -8 <= dx <= 8,
        -8 <= dy <= 8,
    ensures
        r == if on_board(pos.0 + dx, pos.1 + dy) {
            Some(((pos.0 + dx) as usize, (pos.1 + dy) as usize))
        } else {
            None::<Position>
        },
{
    (pos.0 as i8 + dx, pos.1 as i8 + dy).to_valid()
}

/// No move of the list leaves the square `from`.
pub open spec fn no_move_from(list: Seq<Move>, from: Position) -> bool {
    forall|z: Move| #[trigger] list.contains(z) ==> z.0 != from
}

/// Appends `m` to `moves`.
fn push_move(moves: &mut Vec<Move>, m: Move)
    ensures
        final(moves)@ == old(moves)@.push(m),
        forall|z: Move| #[trigger] final(moves)@.contains(z) <==> old(moves)@.contains(z) || z == m,
        old(moves)@.no_duplicates() && !old(moves)@.contains(m) ==> final(moves)@.no_duplicates(),
{
    moves.push(m);
    proof {
        let a = old(moves)@;
        let b = moves@;
        assert forall|z: Move| #[trigger] b.contains(z) <==> a.contains(z) || z == m by {
            if b.contains(z) {
                let i = choose|i: int| 0 <= i < b.len() && b[i] == z;
                if i < a.len() {
                    assert(a[i] == z);
                }
            }
            if a.contains(z) {
                let i = choose|i: int| 0 <= i < a.len() && a[i] == z;
                assert(b[i] == z);
            }
            if z == m {
                assert(b[a.len() as int] == m);
            }
        }
        if a.no_duplicates() && !a.contains(m) {
            assert forall|i: int, j: int| 0 <= i < b.len() && 0 <= j < b.len() && i != j implies b[i]
                != b[j] by {
                if i < a.len() && j < a.len() {
                    assert(a[i] == b[i] && a[j] == b[j]);
                } else if i < a.len() {
                    assert(a[i] == b[i]);
                    assert(a.contains(a[i]));
                } else if j < a.len() {
                    assert(a[j] == b[j]);
                    assert(a.contains(a[j]));
                }
            }
        }
    }
}

impl Board {
    /// Adds the jump from `from` by `(dx, dy)` if a piece of `player` may land there.
    fn try_jump(&self, moves: &mut Vec<Move>, player: Player, from: Position, dx: i8, dy: i8)
        requires
            valid_pos(from),
            valid_player(player as int),
            -2 <= dx <= 2,
            -2 <= dy <= 2,
        ensures
            forall|z: Move| #[trigger]
                final(moves)@.contains(z) <==> old(moves)@.contains(z) || (z.0 == from && z.1.0
                    == from.0 + dx && z.1.1 == from.1 + dy && landable(
                    *self,
                    player as int,
                    z.1.0 as int,
                    z.1.1 as int,
                )),
            old(moves)@.no_duplicates() && (forall|z: Move| #[trigger]
                old(moves)@.contains(z) ==> !(z.0 == from && z.1.0 == from.0 + dx && z.1.1
                    == from.1 + dy)) ==> final(moves)@.no_duplicates(),
    {
        if let Some(to) = offset(from, dx, dy) {
            if player.can_move(self.at(to)) {
                push_move(moves, (from, to));
            }
        }
    }

    /// Adds the moves of a knight of `player` on `from`.
    fn get_knight_moves(&self, moves: &mut Vec<Move>, player: Player, from: Position)
        requires
            valid_pos(from),
            valid_player(player as int),
        ensures
            forall|z: Move| #[trigger]
                final(moves)@.contains(z) <==> old(moves)@.contains(z) || (z.0 == from
                    && knight_step(
                    *self,
                    player as int,
                    from.0 as int,
                    from.1 as int,
                    z.1.0 as int,
                    z.1.1 as int,
                )),
            old(moves)@.no_duplicates() && no_move_from(old(moves)@, from)
                ==> final(moves)@.no_duplicates(),
    {
        let ghost fresh = old(moves)@.no_duplicates() && no_move_from(old(moves)@, from);
        self.try_jump(moves, player, from, 2, 1);
        assert(fresh ==> moves@.no_duplicates());
        self.try_jump(moves, player, from, 2, -1);
        assert(fresh ==> moves@.no_duplicates());
        self.try_jump(moves, player, from, 1, 2);
        assert(fresh ==> moves@.no_duplicates());
        self.try_jump(moves, player, from, 1, -2);
        assert(fresh ==> moves@.no_duplicates());
        self.try_jump(moves, player, from, -1, 2);
        assert(fresh ==> moves@.no_duplicates());
        self.try_jump(moves, player, from, -1, -2);
        assert(fresh ==> moves@.no_duplicates());
        self.try_jump(moves, player, from, -2, 1);
        assert(fresh ==> moves@.no_duplicates());
        self.try_jump(moves, player, from, -2, -1);
    }

    /// Adds the moves of a piece of `player` that slides from `from` in
    /// direction `(dx, dy)`: over empty squares, up to and including the first
    /// piece of the other side, short of the first piece of its own side.
    fn slide_moves(&self, moves: &mut Vec<Move>, player: Player, from: Position, dx: i8, dy: i8)
        requires
            valid_pos(from),
            valid_player(player as int),
            unit_dir(dx as int, dy as int),
        ensures
            forall|z: Move| #[trigger]
                final(moves)@.contains(z) <==> old(moves)@.contains(z) || (z.0 == from && reach(
                    *self,
                    from.0 as int,
                    from.1 as int,
                    dx as int,
                    dy as int,
                    z.1.0 as int,
                    z.1.1 as int,
                ) && landable(*self, player as int, z.1.0 as int, z.1.1 as int)),
            old(moves)@.no_duplicates() && (forall|z: Move| #[trigger]
                old(moves)@.contains(z) && z.0 == from ==> !on_ray(
                    from.0 as int,
                    from.1 as int,
                    dx as int,
                    dy as int,
                    z.1.0 as int,
                    z.1.1 as int,
                )) ==> final(moves)@.no_duplicates(),
    {
        let ghost fresh = old(moves)@.no_duplicates() && (forall|z: Move| #[trigger]
            old(moves)@.contains(z) && z.0 == from ==> !on_ray(
                from.0 as int,
                from.1 as int,
                dx as int,
                dy as int,
                z.1.0 as int,
                z.1.1 as int,
            ));
        let mut cur: Position = from;
        let mut done = false;
        while !done
            invariant
                valid_pos(from),
                valid_pos(cur),
                fresh ==> moves@.no_duplicates(),
                fresh && !done ==> forall|z: Move| #[trigger]
                    moves@.contains(z) && z.0 == from ==> !on_ray(
                        cur.0 as int,
                        cur.1 as int,
                        dx as int,
                        dy as int,
                        z.1.0 as int,
                        z.1.1 as int,
                    ),
                valid_player(player as int),
                unit_dir(dx as int, dy as int),
                forall|z: Move| #[trigger]
                    moves@.contains(z) ==> old(moves)@.contains(z) || (z.0 == from && reach(
                        *self,
                        from.0 as int,
                        from.1 as int,
                        dx as int,
                        dy as int,
                        z.1.0 as int,
                        z.1.1 as int,
                    ) && landable(*self, player as int, z.1.0 as int, z.1.1 as int)),
                forall|z: Move| #[trigger] old(moves)@.contains(z) ==> moves@.contains(z),
                forall|z: Move|
                    z.0 == from && #[trigger] reach(
                        *self,
                        from.0 as int,
                        from.1 as int,
                        dx as int,
                        dy as int,
                        z.1.0 as int,
                        z.1.1 as int,
                    ) && landable(*self, player as int, z.1.0 as int, z.1.1 as int)
                        ==> moves@.contains(z) || (!done && reach(
                        *self,
                        cur.0 as int,
                        cur.1 as int,
                        dx as int,
                        dy as int,
                        z.1.0 as int,
                        z.1.1 as int,
                    )),
                forall|tx: int, ty: int| #[trigger]
                    reach(*self, cur.0 as int, cur.1 as int, dx as int, dy as int, tx, ty)
                        ==> reach(
                        *self,
                        from.0 as int,
                        from.1 as int,
                        dx as int,
                        dy as int,
                        tx,
                        ty,
                    ),
            decreases
                    (if done {
                        0
                    } else {
                        1 + ray_room(cur.0 as int, cur.1 as int, dx as int, dy as int)
                    }),
        {
            match offset(cur, dx, dy) {
                None => {
                    done = true;
                },
                Some(to) => {
                    let p = self.at(to);
                    if !player.can_move(p) {
                        done = true;
                    } else {
                        assert(reach(
                            *self,
                            cur.0 as int,
                            cur.1 as int,
                            dx as int,
                            dy as int,
                            to.0 as int,
                            to.1 as int,
                        ));
                        proof {
                            if fresh {
                                assert(on_ray(
                                    cur.0 as int,
                                    cur.1 as int,
                                    dx as int,
                                    dy as int,
                                    to.0 as int,
                                    to.1 as int,
                                ));
                                assert(!moves@.contains((from, to)));
                            }
                        }
                        push_move(moves, (from, to));
                        if player.can_capture(p) {
                            done = true;
                        } else {
                            assert forall|tx: int, ty: int| #[trigger]
                                reach(
                                    *self,
                                    to.0 as int,
                                    to.1 as int,
                                    dx as int,
                                    dy as int,
                                    tx,
                                    ty,
                                ) implies reach(
                                *self,
                                from.0 as int,
                                from.1 as int,
                                dx as int,
                                dy as int,
                                tx,
                                ty,
                            ) by {
                                assert(reach(
                                    *self,
                                    cur.0 as int,
                                    cur.1 as int,
                                    dx as int,
                                    dy as int,
                                    tx,
                                    ty,
                                ));
                            }
                            cur = to;
                        }
                    }
                },
            }
        }
    }

    /// Adds the moves of a piece of `player` on `from` that slides along the diagonals.
    pub fn get_bishop_moves(&self, moves: &mut Vec<Move>, player: Player, from: Position)
        requires
            valid_pos(from),
            valid_player(player as int),
        ensures
            forall|z: Move| #[trigger]
                final(moves)@.contains(z) <==> old(moves)@.contains(z) || (z.0 == from
                    && diagonal_reach(
                    *self,
                    from.0 as int,
                    from.1 as int,
                    z.1.0 as int,
                    z.1.1 as int,
                ) && landable(*self, player as int, z.1.0 as int, z.1.1 as int)),
            old(moves)@.no_duplicates() && (forall|z: Move| #[trigger]
                old(moves)@.contains(z) && z.0 == from ==> !on_diagonal(
                    from.0 as int,
                    from.1 as int,
                    z.1.0 as int,
                    z.1.1 as int,
                )) ==> final(moves)@.no_duplicates(),
    {
        self.slide_moves(moves, player, from, -1, -1);
        proof {
            lemma_slides_on_ray(*self, moves@, from, -1, -1);
        }
        self.slide_moves(moves, player, from, -1, 1);
        proof {
            lemma_slides_on_ray(*self, moves@, from, -1, 1);
        }
        self.slide_moves(moves, player, from, 1, -1);
        proof {
            lemma_slides_on_ray(*self, moves@, from, 1, -1);
        }
        self.slide_moves(moves, player, from, 1, 1);
    }

    /// Adds the moves of a piece of `player` on `from` that slides along its file and rank.
    pub fn get_rook_moves(&self, moves: &mut Vec<Move>, player: Player, from: Position)
        requires
            valid_pos(from),
            valid_player(player as int),
        ensures
            forall|z: Move| #[trigger]
                final(moves)@.contains(z) <==> old(moves)@.contains(z) || (z.0 == from
                    && straight_reach(
                    *self,
                    from.0 as int,
                    from.1 as int,
                    z.1.0 as int,
                    z.1.1 as int,
                ) && landable(*self, player as int, z.1.0 as int, z.1.1 as int)),
            old(moves)@.no_duplicates() && (forall|z: Move| #[trigger]
                old(moves)@.contains(z) && z.0 == from ==> !on_straight(
                    from.0 as int,
                    from.1 as int,
                    z.1.0 as int,
                    z.1.1 as int,
                )) ==> final(moves)@.no_duplicates(),
    {
        self.slide_moves(moves, player, from, -1, 0);
        proof {
            lemma_slides_on_ray(*self, moves@, from, -1, 0);
        }
        self.slide_moves(moves, player, from, 1, 0);
        proof {
            lemma_slides_on_ray(*self, moves@, from, 1, 0);
        }
        self.slide_moves(moves, player, from, 0, -1);
        proof {
            lemma_slides_on_ray(*self, moves@, from, 0, -1);
        }
        self.slide_moves(moves, player, from, 0, 1);
    }
}


/// Calls `num::signum` on an `i8`. Trusted: the result is 1 for a positive
/// number, 0 for zero and -1 for a negative one.
#[verifier::external_body]
fn sign_of(v: i8) -> (r: i8)
    ensures
        r == signum(v as int),
{
    num::signum(v)
}

impl Board {
    /// Adds the moves of a pawn of `player` on `from`.
    fn get_pawn_moves(
        &self,
        moves: &mut Vec<Move>,
        player: Player,
        en_passant: Option<Position>,
        from: Position,
    )
        requires
            valid_pos(from),
            valid_player(player as int),
            on_board(from.0 as int, from.1 + player),
            en_passant matches Some(t) ==> valid_pos(t),
        ensures
            forall|z: Move| #[trigger]
                final(moves)@.contains(z) <==> old(moves)@.contains(z) || (z.0 == from
                    && valid_pos(z.1) && pawn_step(
                    *self,
                    player as int,
                    en_passant,
                    from.0 as int,
                    from.1 as int,
                    z.1.0 as int,
                    z.1.1 as int,
                )),
            old(moves)@.no_duplicates() && no_move_from(old(moves)@, from) && (
            en_passant matches Some(t) ==> self.piece(t.0 as int, t.1 as int) == 0)
                ==> final(moves)@.no_duplicates(),
    {
        let ghost fresh = old(moves)@.no_duplicates() && no_move_from(old(moves)@, from) && (
        en_passant matches Some(t) ==> self.piece(t.0 as int, t.1 as int) == 0);
        let (x, y) = from;
        let y1 = player.pawn_move(y);
        if self.at((x, y1)) == 0 {
            push_move(moves, (from, (x, y1)));
            if y == player.pawn_base() {
                let y2 = player.pawn_move(y1);
                if self.at((x, y2)) == 0 {
                    push_move(moves, (from, (x, y2)));
                }
            }
        }
        assert(fresh ==> moves@.no_duplicates());
        if x < 7 && player.can_capture(self.at((x + 1, y1))) {
            push_move(moves, (from, (x + 1, y1)));
        }
        assert(fresh ==> moves@.no_duplicates());
        if x > 0 && player.can_capture(self.at((x - 1, y1))) {
            push_move(moves, (from, (x - 1, y1)));
        }
        assert(fresh ==> moves@.no_duplicates());
        if let Some(pos) = en_passant {
            if pos.1 == y1 && (pos.0 == x + 1 || pos.0 + 1 == x) {
                push_move(moves, (from, pos));
            }
        }
    }

    /// Adds the moves of the king of `player` on `from`, castling included.
    fn get_king_moves(
        &self,
        moves: &mut Vec<Move>,
        player: Player,
        castle_status: &CastleStatus,
        from: Position,
    )
        requires
            valid_pos(from),
            valid_player(player as int),
            castle_status.of(player as int).k || castle_status.of(player as int).q ==> from.0
                == 4,
        ensures
            forall|z: Move| #[trigger]
                final(moves)@.contains(z) <==> old(moves)@.contains(z) || (z.0 == from
                    && valid_pos(z.1) && (king_step(
                    *self,
                    player as int,
                    from.0 as int,
                    from.1 as int,
                    z.1.0 as int,
                    z.1.1 as int,
                ) || castle_king_side(
                    *self,
                    player as int,
                    *castle_status,
                    from.0 as int,
                    from.1 as int,
                    z.1.0 as int,
                    z.1.1 as int,
                ) || castle_queen_side(
                    *self,
                    player as int,
                    *castle_status,
                    from.0 as int,
                    from.1 as int,
                    z.1.0 as int,
                    z.1.1 as int,
                ))),
            old(moves)@.no_duplicates() && no_move_from(old(moves)@, from)
                ==> final(moves)@.no_duplicates(),
    {
        let ghost fresh = old(moves)@.no_duplicates() && no_move_from(old(moves)@, from);
        let (x, y) = from;
        let zone = get_all_king_moves(from);
        let mut i: usize = 0;
        while i < zone.len()
            invariant
                0 <= i <= zone@.len(),
                valid_pos(from),
                valid_player(player as int),
                fresh == (old(moves)@.no_duplicates() && no_move_from(old(moves)@, from)),
                fresh ==> moves@.no_duplicates(),
                zone@.no_duplicates(),
                forall|k: int|
                    0 <= k < zone@.len() ==> valid_pos(#[trigger] zone@[k]) && from.0 - 1
                        <= zone@[k].0 <= from.0 + 1 && from.1 - 1 <= zone@[k].1 <= from.1 + 1,
                forall|z: Move| #[trigger]
                    moves@.contains(z) <==> old(moves)@.contains(z) || (z.0 == from && landable(
                        *self,
                        player as int,
                        z.1.0 as int,
                        z.1.1 as int,
                    ) && exists|k: int| 0 <= k < i && zone@[k] == z.1),
            decreases zone@.len() - i,
        {
            let to = zone[i];
            let ghost before = moves@;
            if player.can_move(self.at(to)) {
                proof {
                    if fresh && before.contains((from, to)) {
                        let k = choose|k: int| 0 <= k < i && zone@[k] == to;
                        assert(zone@[k] == zone@[i as int]);
                    }
                }
                push_move(moves, (from, to));
            }
            proof {
                assert forall|z: Move| #[trigger]
                    moves@.contains(z) <==> old(moves)@.contains(z) || (z.0 == from && landable(
                        *self,
                        player as int,
                        z.1.0 as int,
                        z.1.1 as int,
                    ) && exists|k: int| 0 <= k < i + 1 && zone@[k] == z.1) by {
                    if before.contains(z) && !old(moves)@.contains(z) {
                        let k = choose|k: int| 0 <= k < i && zone@[k] == z.1;
                        assert(0 <= k < i + 1 && zone@[k] == z.1);
                    }
                    if z == (from, to) {
                        assert(zone@[i as int] == z.1);
                    }
                    if z.0 == from && (exists|k: int| 0 <= k < i + 1 && zone@[k] == z.1) {
                        let k = choose|k: int| 0 <= k < i + 1 && zone@[k] == z.1;
                        if k < i {
                            assert(0 <= k < i && zone@[k] == z.1);
                        }
                    }
                }
            }
            i += 1;
        }
        proof {
            assert forall|z: Move| #[trigger]
                moves@.contains(z) <==> old(moves)@.contains(z) || (z.0 == from && valid_pos(z.1)
                    && king_step(
                    *self,
                    player as int,
                    from.0 as int,
                    from.1 as int,
                    z.1.0 as int,
                    z.1.1 as int,
                )) by {
                if z.0 == from && valid_pos(z.1) && king_step(
                    *self,
                    player as int,
                    from.0 as int,
                    from.1 as int,
                    z.1.0 as int,
                    z.1.1 as int,
                ) {
                    assert(zone@.contains(square(z.1.0 as int, z.1.1 as int)));
                    let k = choose|k: int| 0 <= k < zone@.len() && zone@[k] == z.1;
                    assert(0 <= k < i && zone@[k] == z.1);
                }
                if moves@.contains(z) && !old(moves)@.contains(z) {
                    let k = choose|k: int| 0 <= k < i && zone@[k] == z.1;
                    assert(valid_pos(zone@[k]));
                }
            }
        }
        assert(fresh ==> moves@.no_duplicates());
        if self.is_checked(from, player) {
            return ;
        }
        let rights = castle_status.get(player);
        if rights.k && self.at((x + 1, y)) == 0 && self.at((x + 2, y)) == 0 && !self.is_checked(
            (x + 1, y),
            player,
        ) {
            push_move(moves, (from, (x + 2, y)));
        }
        assert(fresh ==> moves@.no_duplicates());
        if rights.q && self.at((x - 1, y)) == 0 && self.at((x - 2, y)) == 0 && self.at(
            (x - 3, y),
        ) == 0 && !self.is_checked((x - 1, y), player) {
            push_move(moves, (from, (x - 2, y)));
        }
    }

    /// Adds the moves of the piece on `from`, which belongs to the side to move.
    fn get_piece_moves(
        &self,
        moves: &mut Vec<Move>,
        player: Player,
        castle_status: &CastleStatus,
        en_passant: Option<Position>,
        from: Position,
    )
        requires
            valid_pos(from),
            position(*self, player, *castle_status, en_passant).wf(),
            piece_sign(self.piece(from.0 as int, from.1 as int) as int) == player,
        ensures
            forall|z: Move| #[trigger]
                final(moves)@.contains(z) <==> old(moves)@.contains(z) || (z.0 == from
                    && pseudo_legal(position(*self, player, *castle_status, en_passant), z)),
            old(moves)@.no_duplicates() && no_move_from(old(moves)@, from)
                ==> final(moves)@.no_duplicates(),
    {
        let ghost fresh = old(moves)@.no_duplicates() && no_move_from(old(moves)@, from);
        let piece = self.at(from);
        assert(valid_piece(piece as int));
        let kind: Piece = if piece < 0 {
            -piece
        } else {
            piece
        };
        if kind == PAWN {
            self.get_pawn_moves(moves, player, en_passant, from);
        } else if kind == KNIGHT {
            self.get_knight_moves(moves, player, from);
        } else if kind == BISHOP {
            self.get_bishop_moves(moves, player, from);
        } else if kind == ROOK {
            self.get_rook_moves(moves, player, from);
        } else if kind == QUEEN {
            self.get_bishop_moves(moves, player, from);
            proof {
                lemma_slides_on_ray(*self, moves@, from, -1, -1);
                lemma_slides_on_ray(*self, moves@, from, -1, 1);
                lemma_slides_on_ray(*self, moves@, from, 1, -1);
                lemma_slides_on_ray(*self, moves@, from, 1, 1);
            }
            self.get_rook_moves(moves, player, from);
        } else if kind == KING {
            proof {
                assert(self.piece(from.0 as int, from.1 as int) == KING * player);
                if castle_status.of(player as int).k || castle_status.of(player as int).q {
                    assert(self.piece(4, back_rank_of(player as int)) == KING * player);
                }
            }
            self.get_king_moves(moves, player, castle_status, from);
        }
    }

    /// Every move of the side to move that obeys the movement rules of its piece.
    pub fn get_pseudo_legal(
        &self,
        player: Player,
        castle_status: &CastleStatus,
        en_passant: Option<Position>,
    ) -> (moves: Vec<Move>)
        requires
            position(*self, player, *castle_status, en_passant).wf(),
        ensures
            forall|z: Move| #[trigger]
                moves@.contains(z) <==> pseudo_legal(
                    position(*self, player, *castle_status, en_passant),
                    z,
                ),
            moves@.no_duplicates(),
    {
        let ghost s = position(*self, player, *castle_status, en_passant);
        let mut moves: Vec<Move> = Vec::new();
        let coords = all_coords();
        let mut k: usize = 0;
        while k < 64
            invariant
                0 <= k <= 64,
                coords@.len() == 64,
                s == position(*self, player, *castle_status, en_passant),
                s.wf(),
                forall|i: int|
                    0 <= i < 64 ==> #[trigger] coords@[i] == ((i / 8) as usize, (i % 8) as usize),
                forall|z: Move| #[trigger]
                    moves@.contains(z) <==> pseudo_legal(s, z) && coord_rank(
                        z.0.0 as int,
                        z.0.1 as int,
                    ) < k,
                moves@.no_duplicates(),
            decreases 64 - k,
        {
            let from = coords[k];
            assert(coord_rank(from.0 as int, from.1 as int) == k);
            assert(no_move_from(moves@, from));
            let ghost before = moves@;
            if player.can_control(self.at(from)) {
                self.get_piece_moves(&mut moves, player, castle_status, en_passant, from);
            }
            proof {
                assert forall|z: Move| #[trigger]
                    moves@.contains(z) <==> pseudo_legal(s, z) && coord_rank(
                        z.0.0 as int,
                        z.0.1 as int,
                    ) < k + 1 by {
                    if pseudo_legal(s, z) && coord_rank(z.0.0 as int, z.0.1 as int) == k {
                        assert(z.0.0 == from.0 && z.0.1 == from.1);
                        assert(z.0 == from);
                    }
                }
            }
            k += 1;
        }
        moves
    }

    /// Whether moving a piece of `player`, whose king stands on `pos`, as `mv`
    /// says uncovers a line from a piece of the other side to that king: the
    /// piece is the first on a line from the king, it leaves that line, and
    /// the first piece behind it moves along such a line.
    pub fn smart_checked(&self, player: Player, pos: Position, mv: Move) -> (r: bool)
        requires
            valid_player(player as int),
            valid_pos(pos),
            valid_move(mv),
        ensures
            r == discovered(*self, player as int, pos.0 as int, pos.1 as int, mv),
    {
        let (from, to) = mv;
        let other: Player = -player;
        let dif1 = sub_pos(from, pos);
        if !(dif1.is_axis() || dif1.is_diagonal()) {
            return false;
        }
        let dif2 = sub_pos(to, pos);
        let on_line = if dif1.0 == 0 {
            dif2.0 == 0
        } else if dif1.1 == 0 {
            dif2.1 == 0
        } else if dif1.0 == dif1.1 {
            dif2.0 == dif2.1
        } else {
            dif2.0 == -dif2.1
        };
        if on_line {
            return false;
        }
        let sx = sign_of(dif1.0);
        let sy = sign_of(dif1.1);
        if sx == 0 && sy == 0 {
            return false;
        }
        if !self.reaches(pos, sx, sy, from) {
            return false;
        }
        let target: Piece = if dif1.is_axis() {
            ROOK
        } else {
            BISHOP
        };
        let piece = self.first_on_ray(from, sx, sy);
        piece == target * other || piece == QUEEN * other
    }

    /// Whether the walk from `pos` in direction `(dx, dy)` comes to `to` over
    /// empty squares only.
    pub fn reaches(&self, pos: Position, dx: i8, dy: i8, to: Position) -> (r: bool)
        requires
            valid_pos(pos),
            unit_dir(dx as int, dy as int),
        ensures
            r == reach(
                *self,
                pos.0 as int,
                pos.1 as int,
                dx as int,
                dy as int,
                to.0 as int,
                to.1 as int,
            ),
    {
        let mut cur = pos;
        loop
            invariant
                valid_pos(cur),
                unit_dir(dx as int, dy as int),
                reach(
                    *self,
                    cur.0 as int,
                    cur.1 as int,
                    dx as int,
                    dy as int,
                    to.0 as int,
                    to.1 as int,
                ) == reach(
                    *self,
                    pos.0 as int,
                    pos.1 as int,
                    dx as int,
                    dy as int,
                    to.0 as int,
                    to.1 as int,
                ),
            decreases ray_room(cur.0 as int, cur.1 as int, dx as int, dy as int),
        {
            match offset(cur, dx, dy) {
                None => {
                    return false;
                },
                Some(next) => {
                    if next.0 == to.0 && next.1 == to.1 {
                        return true;
                    }
                    if self.at(next) != 0 {
                        return false;
                    }
                    cur = next;
                },
            }
        }
    }

    /// The moves that the side to move may make: those that obey the movement
    /// rules of their piece and do not leave its king attacked. Where the
    /// king is attacked, the king itself moves or a pawn is taken en passant,
    /// the move is made on a copy of the board and the king's square is
    /// looked at; else it is enough to ask whether the move uncovers a line.
    pub fn get_valid(
        &mut self,
        player: Player,
        castle_status: &CastleStatus,
        en_passant: Option<Position>,
    ) -> (out: Vec<Move>)
        requires
            position(*old(self), player, *castle_status, en_passant).wf(),
        ensures
            *final(self) == *old(self),
            forall|z: Move| #[trigger]
                out@.contains(z) <==> legal(
                    position(*old(self), player, *castle_status, en_passant),
                    z,
                ),
            out@.no_duplicates(),
    {
        let ghost s = position(*self, player, *castle_status, en_passant);
        let moves = self.get_pseudo_legal(player, castle_status, en_passant);
        let king_pos = self.get_king_pos(player);
        let in_check = self.is_checked(king_pos, player);
        proof {
            lemma_king_square(*self, player as int, king_pos.0 as int, king_pos.1 as int);
        }
        let mut out: Vec<Move> = Vec::new();
        let mut i: usize = 0;
        while i < moves.len()
            invariant
                0 <= i <= moves@.len(),
                *self == *old(self),
                s == position(*old(self), player, *castle_status, en_passant),
                s.wf(),
                valid_pos(king_pos),
                king_square(s.board, player as int) == (king_pos.0 as int, king_pos.1 as int),
                in_check == attacked(s.board, king_pos.0 as int, king_pos.1 as int, -player),
                forall|z: Move| #[trigger] moves@.contains(z) <==> pseudo_legal(s, z),
                forall|z: Move| #[trigger]
                    out@.contains(z) <==> safe_after(s, z) && exists|k: int|
                        0 <= k < i && moves@[k] == z,
                moves@.no_duplicates(),
                out@.no_duplicates(),
            decreases moves@.len() - i,
        {
            let mv = moves[i];
            let (from, to) = mv;
            assert(moves@.contains(mv));
            let ghost before = out@;
            let piece = self.at(from);
            proof {
                crate::king_safety::lemma_king_after_move(s, mv);
            }
            let taken_in_passing = piece.is(PAWN) && en_passant == Some(to) && from.0 != to.0;
            let valid = if in_check || piece.is(KING) || taken_in_passing {
                let mut after = GameState {
                    board: *self,
                    player,
                    can_castle: *castle_status,
                    en_passant,
                };
                after.move_pieces(mv);
                if piece.is(KING) {
                    !after.board.is_checked(to, player)
                } else {
                    !after.board.is_checked(king_pos, player)
                }
            } else {
                proof {
                    crate::king_safety::lemma_fast_path_exact(s, mv);
                }
                !self.smart_checked(player, king_pos, mv)
            };
            if valid {
                proof {
                    if before.contains(mv) {
                        let k = choose|k: int| 0 <= k < i && moves@[k] == mv;
                        assert(moves@[k] == moves@[i as int]);
                    }
                }
                push_move(&mut out, mv);
            }
            proof {
                assert(valid == safe_after(s, mv));
                assert forall|z: Move| #[trigger]
                    out@.contains(z) <==> safe_after(s, z) && exists|k: int|
                        0 <= k < i + 1 && moves@[k] == z by {
                    if before.contains(z) {
                        let k = choose|k: int| 0 <= k < i && moves@[k] == z;
                        assert(0 <= k < i + 1 && moves@[k] == z);
                    }
                    if z == mv {
                        assert(0 <= i < i + 1 && moves@[i as int] == z);
                    }
                    if exists|k: int| 0 <= k < i + 1 && moves@[k] == z {
                        let k = choose|k: int| 0 <= k < i + 1 && moves@[k] == z;
                        if k < i {
                            assert(0 <= k < i && moves@[k] == z);
                        }
                    }
                }
            }
            i += 1;
        }
        proof {
            reveal(legal);
            assert forall|z: Move| #[trigger] out@.contains(z) <==> legal(s, z) by {
                if legal(s, z) {
                    assert(moves@.contains(z));
                    let k = choose|k: int| 0 <= k < moves@.len() && moves@[k] == z;
                    assert(0 <= k < i && moves@[k] == z);
                }
                if out@.contains(z) {
                    let k = choose|k: int| 0 <= k < i && moves@[k] == z;
                    assert(moves@.contains(z));
                }
            }
        }
        out
    }
}


/// The worth of the cheapest piece of side `by` that attacks `(x, y)`, in
/// tenths of a pawn; zero when none does.
pub open spec fn cheapest_attacker(b: Board, x: int, y: int, by: int) -> int {
    if pawn_attacks(b, x, y, by) {
        10
    } else if knight_attacks(b, x, y, by) {
        30
    } else if diagonal_sees(b, x, y, BISHOP * by) {
        30
    } else if straight_sees(b, x, y, ROOK * by) {
        50
    } else if diagonal_sees(b, x, y, QUEEN * by) || straight_sees(b, x, y, QUEEN * by) {
        90
    } else if king_attacks(b, x, y, by) {
        10000
    } else {
        0
    }
}

/// The material on the first `n` squares, file by file, in tenths of a pawn:
/// white's counts up, black's counts down.
pub open spec fn material_upto(b: Board, n: int) -> int
    decreases n,
{
    if n <= 0 {
        0
    } else {
        material_upto(b, n - 1) + piece_value(b.piece((n - 1) / 8, (n - 1) % 8) as int)
    }
}

/// The material balance of the whole board.
pub open spec fn material(b: Board) -> int {
    material_upto(b, 64)
}

impl Board {
    /// The worth of the cheapest piece that attacks `pos`, or with `defender`
    /// set that defends it, as seen by `player`, whose piece stands there.
    pub fn check_pos(&self, pos: Position, player: Player, defender: bool) -> (v: Score)
        requires
            valid_pos(pos),
            valid_player(player as int),
        ensures
            v == cheapest_attacker(
                *self,
                pos.0 as int,
                pos.1 as int,
                if defender {
                    player as int
                } else {
                    -player
                },
            ),
    {
        let other: Player = if defender {
            player
        } else {
            -player
        };
        let forward: i8 = -other;
        let pawn: Piece = PAWN * other;
        let knight: Piece = KNIGHT * other;
        let bishop: Piece = BISHOP * other;
        let rook: Piece = ROOK * other;
        let queen: Piece = QUEEN * other;
        let king: Piece = KING * other;

        if self.holds_at(pos, -1, forward, pawn) || self.holds_at(pos, 1, forward, pawn) {
            return PAWN.value();
        }
        if self.knight_near(pos, knight) {
            return KNIGHT.value();
        }
        let d1 = self.first_on_ray(pos, -1, -1);
        let d2 = self.first_on_ray(pos, -1, 1);
        let d3 = self.first_on_ray(pos, 1, -1);
        let d4 = self.first_on_ray(pos, 1, 1);
        if d1 == bishop || d2 == bishop || d3 == bishop || d4 == bishop {
            return BISHOP.value();
        }
        let s1 = self.first_on_ray(pos, -1, 0);
        let s2 = self.first_on_ray(pos, 1, 0);
        let s3 = self.first_on_ray(pos, 0, -1);
        let s4 = self.first_on_ray(pos, 0, 1);
        if s1 == rook || s2 == rook || s3 == rook || s4 == rook {
            return ROOK.value();
        }
        if d1 == queen || d2 == queen || d3 == queen || d4 == queen || s1 == queen || s2 == queen
            || s3 == queen || s4 == queen {
            return QUEEN.value();
        }
        if self.king_near(pos, king) {
            return KING.value();
        }
        0
    }

    /// The material balance in tenths of a pawn.
    pub fn count_material(&self) -> (v: Score)
        requires
            self.wf(),
        ensures
            v == material(*self),
            -640000 <= v <= 640000,
    {
        let coords = all_coords();
        let mut sum: Score = 0;
        let mut k: usize = 0;
        while k < 64
            invariant
                0 <= k <= 64,
                self.wf(),
                coords@.len() == 64,
                forall|i: int|
                    0 <= i < 64 ==> #[trigger] coords@[i] == ((i / 8) as usize, (i % 8) as usize),
                sum == material_upto(*self, k as int),
                -10000 * k <= sum <= 10000 * k,
            decreases 64 - k,
        {
            let pos = coords[k];
            let piece = self.at(pos);
            assert(valid_piece(self.piece(pos.0 as int, pos.1 as int) as int));
            sum = sum + piece.value();
            k += 1;
        }
        sum
    }
}


impl Board {
    /// Whether every square holds a known piece code.
    pub fn is_wf(&self) -> (r: bool)
        ensures
            r == self.wf(),
    {
        let coords = all_coords();
        let mut k: usize = 0;
        while k < 64
            invariant
                0 <= k <= 64,
                coords@.len() == 64,
                forall|i: int|
                    0 <= i < 64 ==> #[trigger] coords@[i] == ((i / 8) as usize, (i % 8) as usize),
                forall|x: int, y: int|
                    on_board(x, y) && coord_rank(x, y) < k ==> valid_piece(
                        #[trigger] self.piece(x, y) as int,
                    ),
            decreases 64 - k,
        {
            let p = self.at(coords[k]);
            if p < -6 || p > 6 {
                return false;
            }
            assert forall|x: int, y: int|
                on_board(x, y) && coord_rank(x, y) < k + 1 implies valid_piece(
                #[trigger] self.piece(x, y) as int,
            ) by {
                if coord_rank(x, y) == k {
                    assert(x == k as int / 8 && y == k as int % 8);
                }
            }
            k += 1;
        }
        assert forall|x: int, y: int| on_board(x, y) implies valid_piece(
            #[trigger] self.piece(x, y) as int,
        ) by {
            assert(coord_rank(x, y) < 64);
        }
        true
    }

    /// Whether exactly one square holds the king of `player`.
    pub fn has_one_king(&self, player: Player) -> (r: bool)
        requires
            valid_player(player as int),
        ensures
            r == one_king(*self, player as int),
    {
        let king: Piece = KING * player;
        let coords = all_coords();
        let mut found: Option<Position> = None;
        let mut k: usize = 0;
        while k < 64
            invariant
                0 <= k <= 64,
                king == KING * player,
                coords@.len() == 64,
                forall|i: int|
                    0 <= i < 64 ==> #[trigger] coords@[i] == ((i / 8) as usize, (i % 8) as usize),
                found is None ==> forall|x: int, y: int|
                    on_board(x, y) && coord_rank(x, y) < k ==> #[trigger] self.piece(x, y) != king,
                found matches Some(p) ==> valid_pos(p) && coord_rank(p.0 as int, p.1 as int) < k
                    && self.piece(p.0 as int, p.1 as int) == king && forall|x: int, y: int|
                    on_board(x, y) && coord_rank(x, y) < k && #[trigger] self.piece(x, y) == king
                        ==> x == p.0 && y == p.1,
            decreases 64 - k,
        {
            let pos = coords[k];
            assert(coord_rank(pos.0 as int, pos.1 as int) == k);
            let ghost before = found;
            if self.at(pos) == king {
                if found.is_some() {
                    proof {
                        let p = found->0;
                        assert(self.piece(p.0 as int, p.1 as int) == KING * player);
                        assert(self.piece(pos.0 as int, pos.1 as int) == KING * player);
                        assert(!(p.0 == pos.0 && p.1 == pos.1));
                    }
                    return false;
                }
                found = Some(pos);
            }
            proof {
                assert forall|x: int, y: int|
                    on_board(x, y) && coord_rank(x, y) < k + 1 && found is None implies #[trigger] self.piece(
                    x,
                    y,
                ) != king by {
                    if coord_rank(x, y) == k {
                        assert(x == pos.0 && y == pos.1);
                    }
                }
                if found is Some {
                    let p = found->0;
                    assert forall|x: int, y: int|
                        on_board(x, y) && coord_rank(x, y) < k + 1 && #[trigger] self.piece(x, y)
                            == king implies x == p.0 && y == p.1 by {
                        if coord_rank(x, y) == k {
                            assert(x == pos.0 && y == pos.1);
                        }
                    }
                }
            }
            k += 1;
        }
        match found {
            None => {
                proof {
                    if self.has(KING * player) {
                        let (x, y) = choose|x: int, y: int|
                            on_board(x, y) && #[trigger] self.piece(x, y) == KING * player;
                        assert(coord_rank(x, y) < 64);
                    }
                }
                false
            },
            Some(p) => {
                proof {
                    assert(on_board(p.0 as int, p.1 as int) && self.piece(p.0 as int, p.1 as int)
                        == KING * player);
                    assert forall|x1: int, y1: int, x2: int, y2: int|
                        on_board(x1, y1) && on_board(x2, y2) && #[trigger] self.piece(x1, y1)
                            == KING * player && #[trigger] self.piece(x2, y2) == KING
                            * player implies x1 == x2 && y1 == y2 by {
                        assert(coord_rank(x1, y1) < 64 && coord_rank(x2, y2) < 64);
                    }
                }
                true
            },
        }
    }
}

impl GameState {
    /// Moves the pieces on the board as the move `mv` asks, and leaves the
    /// rest of the position as it is.
    pub fn move_pieces(&mut self, mv: Move)
        requires
            valid_move(mv),
            old(self).board.wf(),
            valid_player(old(self).player as int),
        ensures
            final(self).board == board_after(*old(self), mv),
            final(self).player == old(self).player,
            final(self).can_castle == old(self).can_castle,
            final(self).en_passant == old(self).en_passant,
    {
        let (from, to) = mv;
        let piece = self.board.at(from);
        let player = self.player;
        self.board.put(to, piece);
        self.board.put(from, 0);
        if piece.is(PAWN) {
            if !(from.1 + 2 == to.1 || to.1 + 2 == from.1) {
                // A pawn on the far rank becomes a queen.
                if to.1 == 0 || to.1 == 7 {
                    self.board.put(to, QUEEN * player);
                }
                // A capture en passant takes the pawn behind the target.
                if self.en_passant == Some(to) && from.0 != to.0 {
                    self.board.put((to.0, from.1), 0);
                }
            }
        } else if piece.is(KING) {
            if from.0 + 2 == to.0 {
                // King side
                self.board.put((from.0 + 1, from.1), ROOK * player);
                self.board.put((7, from.1), 0);
            } else if from.0 == to.0 + 2 {
                // Queen side
                self.board.put((from.0 - 1, from.1), ROOK * player);
                self.board.put((0, from.1), 0);
            }
        }
    }

    /// Whether the position is well formed.
    pub fn validate(&self) -> (r: bool)
        ensures
            r == self.wf(),
    {
        if !self.board.is_wf() {
            return false;
        }
        if self.player != 1 && self.player != -1 {
            return false;
        }
        if !self.board.has_one_king(1) || !self.board.has_one_king(-1) {
            return false;
        }
        let mut x: usize = 0;
        while x < 8
            invariant
                0 <= x <= 8,
                forall|i: int| 0 <= i < x ==> #[trigger] self.board.piece(i, 7) != PAWN,
                forall|i: int| 0 <= i < x ==> #[trigger] self.board.piece(i, 0) != -PAWN,
            decreases 8 - x,
        {
            if self.board.at((x, 7)) == PAWN || self.board.at((x, 0)) == -PAWN {
                return false;
            }
            x += 1;
        }
        let c = self.can_castle;
        if (c.white.k || c.white.q) && self.board.at((4, 0)) != KING {
            return false;
        }
        if (c.black.k || c.black.q) && self.board.at((4, 7)) != -KING {
            return false;
        }
        match self.en_passant {
            None => true,
            Some(t) => {
                if t.0 >= 8 || t.1 >= 8 {
                    return false;
                }
                if self.player == 1 {
                    t.1 == 5 && self.board.at(t) == 0 && self.board.at((t.0, 4)) == -PAWN
                } else {
                    t.1 == 2 && self.board.at(t) == 0 && self.board.at((t.0, 3)) == PAWN
                }
            },
        }
    }
}

} // verus!
