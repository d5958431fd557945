//! Squares, pieces, sides, the board and the castling rights.

use vstd::prelude::*;

verus! {

/// A square of the board: file index, then rank index, both in `0..8`.
pub type Position = (usize, usize);

/// A signed offset between two squares.
pub type IPos = (i8, i8);

/// A move: the square a piece leaves and the square it arrives on.
pub type Move = (Position, Position);

/// An evaluation, in tenths of a pawn. Positive favours white.
pub type Score = i64;

/// A side: `1` is white, `-1` is black.
pub type Player = i8;

/// A piece: the sign is the colour, the magnitude the kind, zero is empty.
pub type Piece = i8;

pub const PAWN: Piece = 1;

pub const KNIGHT: Piece = 2;

pub const BISHOP: Piece = 3;

pub const ROOK: Piece = 4;

pub const QUEEN: Piece = 5;

pub const KING: Piece = 6;

/// Larger than the magnitude of any score the search can produce.
pub const SCORE_INF: Score = 0x7fff_ffff_ffff_ffff;

/// The magnitude of a mate score before the depth bonus, in tenths of a pawn.
pub const MATE_SCORE: Score = 1000;

/// The deepest search the score arithmetic is proved for.
pub const MAX_DEPTH: usize = 1_000_000;

pub open spec fn on_board(x: int, y: int) -> bool {
    0 <= x < 8 && 0 <= y < 8
}

pub open spec fn valid_pos(p: Position) -> bool {
    p.0 < 8 && p.1 < 8
}

pub open spec fn valid_move(m: Move) -> bool {
    valid_pos(m.0) && valid_pos(m.1)
}

pub open spec fn valid_player(p: int) -> bool {
    p == 1 || p == -1
}

pub open spec fn valid_piece(p: int) -> bool {
    -6 <= p <= 6
}

/// The colour of a piece as a sign: `1`, `-1`, or `0` for an empty square.
pub open spec fn piece_sign(p: int) -> int {
    if p > 0 {
        1
    } else if p < 0 {
        -1
    } else {
        0
    }
}

/// The kind of a piece, ignoring its colour.
pub open spec fn piece_kind(p: int) -> int {
    if p < 0 {
        -p
    } else {
        p
    }
}

/// Material worth of a piece kind in tenths of a pawn.
pub open spec fn kind_value(kind: int) -> int {
    if kind == 1 {
        10
    } else if kind == 2 || kind == 3 {
        30
    } else if kind == 4 {
        50
    } else if kind == 5 {
        90
    } else if kind == 6 {
        10000
    } else {
        0
    }
}

/// Signed material worth of a piece: positive for white, negative for black.
pub open spec fn piece_value(p: int) -> int {
    kind_value(piece_kind(p)) * piece_sign(p)
}

pub open spec fn back_rank_of(player: int) -> int {
    if player == 1 {
        0
    } else {
        7
    }
}

pub open spec fn pawn_base_of(player: int) -> int {
    if player == 1 {
        1
    } else {
        6
    }
}

#[derive(Clone, Copy, Debug, PartialEq, Eq, Hash)]
pub struct Board(pub [[Piece; 8]; 8]);

#[derive(Clone, Copy, Debug, PartialEq, Eq, Structural)]
pub struct PlayerCastleStatus {
    pub k: bool,
    pub q: bool,
}

#[derive(Clone, Copy, Debug, PartialEq, Eq, Structural)]
pub struct CastleStatus {
    pub white: PlayerCastleStatus,
    pub black: PlayerCastleStatus,
}

/// A position: the board, the side to move, the castling rights and the
/// square a pawn has just skipped, if any.
#[derive(Clone, Copy, Debug)]
pub struct GameState {
    pub board: Board,
    pub player: Player,
    pub can_castle: CastleStatus,
    pub en_passant: Option<Position>,
}

pub struct FenData {
    pub board: Board,
    pub player: Player,
    pub can_castle: CastleStatus,
    pub en_passant: Option<Position>,
    pub half_moves: usize,
    pub move_number: usize,
}

impl FenData {
    /// The position that the description holds, without its counters.
    pub open spec fn position(&self) -> GameState {
        GameState {
            board: self.board,
            player: self.player,
            can_castle: self.can_castle,
            en_passant: self.en_passant,
        }
    }

    /// The position that the description holds, without its counters.
    pub fn state(&self) -> (s: GameState)
        ensures
            s == self.position(),
    {
        GameState {
            board: self.board,
            player: self.player,
            can_castle: self.can_castle,
            en_passant: self.en_passant,
        }
    }
}

impl Board {
    /// The piece on square `(x, y)`.
    pub open spec fn piece(&self, x: int, y: int) -> Piece {
        self.0[y][x]
    }

    /// Every square holds a piece code between a black king and a white king.
    pub open spec fn wf(&self) -> bool {
        forall|x: int, y: int| on_board(x, y) ==> valid_piece(#[trigger] self.piece(x, y) as int)
    }

    /// The board with the piece on `(x, y)` replaced by `p`.
    pub open spec fn with(&self, x: int, y: int, p: Piece) -> Board {
        Board(vstd::array::spec_array_update(self.0, y, vstd::array::spec_array_update(self.0[y], x, p)))
    }

    pub fn empty() -> (b: Board)
        ensures
            b.wf(),
            forall|x: int, y: int| on_board(x, y) ==> #[trigger] b.piece(x, y) == 0,
    {
        Board([[0i8; 8]; 8])
    }

    pub fn at(&self, pos: Position) -> (p: Piece)
        requires
            valid_pos(pos),
        ensures
            p == self.piece(pos.0 as int, pos.1 as int),
    {
        self.0[pos.1][pos.0]
    }

    pub fn put(&mut self, pos: Position, piece: Piece)
        requires
            valid_pos(pos),
        ensures
            *final(self) == old(self).with(pos.0 as int, pos.1 as int, piece),
    {
        self.0[pos.1][pos.0] = piece;
    }

    /// Two boards are the same value exactly when they agree on every square.
    pub proof fn lemma_ext(a: Board, b: Board)
        requires
            forall|x: int, y: int| on_board(x, y) ==> #[trigger] a.piece(x, y) == b.piece(x, y),
        ensures
            a == b,
    {
        assert forall|y: int| 0 <= y < 8 implies a.0[y] == b.0[y] by {
            assert forall|x: int| 0 <= x < 8 implies a.0[y][x] == b.0[y][x] by {
                assert(a.piece(x, y) == b.piece(x, y));
            }
            assert(a.0[y] =~= b.0[y]);
        }
        assert(a.0 =~= b.0);
    }
}

impl CastleStatus {
    pub fn default(status: bool) -> (c: CastleStatus)
        ensures
            c.white.k == status,
            c.white.q == status,
            c.black.k == status,
            c.black.q == status,
    {
        CastleStatus {
            white: PlayerCastleStatus { k: status, q: status },
            black: PlayerCastleStatus { k: status, q: status },
        }
    }

    /// The rights of one side: white's for a positive `player`, else black's.
    pub open spec fn of(&self, player: int) -> PlayerCastleStatus {
        if player > 0 {
            self.white
        } else {
            self.black
        }
    }

    /// These rights with those of `player` replaced by `rights`.
    pub open spec fn with(&self, player: int, rights: PlayerCastleStatus) -> CastleStatus {
        if player > 0 {
            CastleStatus { white: rights, black: self.black }
        } else {
            CastleStatus { white: self.white, black: rights }
        }
    }

    pub fn get(&self, player: Player) -> (r: PlayerCastleStatus)
        ensures
            r == self.of(player as int),
    {
        if player > 0 {
            self.white
        } else {
            self.black
        }
    }

    pub fn set(&mut self, player: Player, rights: PlayerCastleStatus)
        ensures
            *final(self) == old(self).with(player as int, rights),
    {
        if player > 0 {
            self.white = rights;
        } else {
            self.black = rights;
        }
    }

    /// The right named by a castling letter: `K`, `Q` for white, `k`, `q` for black.
    pub open spec fn flag(&self, ch: char) -> Option<bool> {
        if ch == 'K' {
            Some(self.white.k)
        } else if ch == 'Q' {
            Some(self.white.q)
        } else if ch == 'k' {
            Some(self.black.k)
        } else if ch == 'q' {
            Some(self.black.q)
        } else {
            None
        }
    }

    /// These rights with the one named by `ch` granted.
    pub open spec fn granted(&self, ch: char) -> CastleStatus {
        if ch == 'K' {
            CastleStatus { white: PlayerCastleStatus { k: true, q: self.white.q }, black: self.black }
        } else if ch == 'Q' {
            CastleStatus { white: PlayerCastleStatus { k: self.white.k, q: true }, black: self.black }
        } else if ch == 'k' {
            CastleStatus { white: self.white, black: PlayerCastleStatus { k: true, q: self.black.q } }
        } else if ch == 'q' {
            CastleStatus { white: self.white, black: PlayerCastleStatus { k: self.black.k, q: true } }
        } else {
            *self
        }
    }
}

impl PlayerCastleStatus {
    pub fn disable(&mut self)
        ensures
            !final(self).k,
            !final(self).q,
    {
        self.k = false;
        self.q = false;
    }

    pub fn any(&self) -> (r: bool)
        ensures
            r == (self.k || self.q),
    {
        self.k || self.q
    }
}

pub trait IsPiece: Sized {
    /// The piece as a signed code.
    spec fn code(&self) -> int;

    /// Signed material worth in tenths of a pawn.
    fn value(&self) -> (v: Score)
        requires
            valid_piece(self.code()),
        ensures
            v == piece_value(self.code()),
    ;

    /// Material worth in tenths of a pawn, whatever the colour.
    fn value_unsigned(&self) -> (v: Score)
        requires
            valid_piece(self.code()),
        ensures
            v == kind_value(piece_kind(self.code())),
    ;

    fn is(&self, piece_type: Piece) -> (b: bool)
        requires
            valid_piece(self.code()),
        ensures
            b == (piece_kind(self.code()) == piece_type),
    ;

    fn is_white(&self) -> (b: bool)
        ensures
            b == (self.code() > 0),
    ;

    fn is_empty(&self) -> (b: bool)
        ensures
            b == (self.code() == 0),
    ;
}

impl IsPiece for Piece {
    open spec fn code(&self) -> int {
        *self as int
    }

    fn value(&self) -> (v: Score) {
        let kind: i8 = if *self < 0 {
            -*self
        } else {
            *self
        };
        let value: Score = if kind == 1 {
            10
        } else if kind == 2 || kind == 3 {
            30
        } else if kind == 4 {
            50
        } else if kind == 5 {
            90
        } else if kind == 6 {
            10000
        } else {
            0
        };
        if *self > 0 {
            value
        } else if *self < 0 {
            -value
        } else {
            0
        }
    }

    fn value_unsigned(&self) -> (v: Score) {
        let v = self.value();
        if v < 0 {
            -v
        } else {
            v
        }
    }

    fn is(&self, piece_type: Piece) -> (b: bool) {
        if *self < 0 {
            -*self == piece_type
        } else {
            *self == piece_type
        }
    }

    fn is_white(&self) -> (b: bool) {
        *self > 0
    }

    fn is_empty(&self) -> (b: bool) {
        *self == 0
    }
}

pub trait PlayerTrait: Sized {
    /// The side as a sign: `1` for white, `-1` for black.
    spec fn side(&self) -> int;

    /// Whether `piece` belongs to the other side.
    fn can_capture(&self, piece: Piece) -> (b: bool)
        requires
            valid_player(self.side()),
        ensures
            b == (piece_sign(piece as int) == -self.side()),
    ;

    /// Whether a piece of this side may land on a square that holds `piece`.
    fn can_move(&self, piece: Piece) -> (b: bool)
        requires
            valid_player(self.side()),
        ensures
            b == (piece_sign(piece as int) != self.side()),
    ;

    /// Whether `piece` belongs to this side.
    fn can_control(&self, piece: Piece) -> (b: bool)
        requires
            valid_player(self.side()),
        ensures
            b == (piece_sign(piece as int) == self.side()),
    ;

    fn back_rank(&self) -> (y: usize)
        ensures
            y == back_rank_of(self.side()),
    ;

    fn pawn_base(&self) -> (y: usize)
        ensures
            y == pawn_base_of(self.side()),
    ;

    /// The rank one pawn step ahead of rank `y`.
    fn pawn_move(&self, y: usize) -> (y1: usize)
        requires
            valid_player(self.side()),
            0 <= y + self.side() < 8,
        ensures
            y1 == y + self.side(),
    ;
}

impl PlayerTrait for Player {
    open spec fn side(&self) -> int {
        *self as int
    }

    fn can_capture(&self, piece: Piece) -> (b: bool) {
        if *self == 1 {
            piece < 0
        } else {
            piece > 0
        }
    }

    fn can_move(&self, piece: Piece) -> (b: bool) {
        self.can_capture(piece) || piece == 0
    }

    fn can_control(&self, piece: Piece) -> (b: bool) {
        if *self == 1 {
            piece > 0
        } else {
            piece < 0
        }
    }

    fn back_rank(&self) -> (y: usize) {
        if *self == 1 {
            0
        } else {
            7
        }
    }

    fn pawn_base(&self) -> (y: usize) {
        if *self == 1 {
            1
        } else {
            6
        }
    }

    fn pawn_move(&self, y: usize) -> (y1: usize) {
        if *self == 1 {
            y + 1
        } else {
            y - 1
        }
    }
}

pub trait BoardIndex: Sized {
    /// The index as an integer.
    spec fn index(&self) -> int;

    fn is_valid(&self) -> (b: bool)
        ensures
            b == (0 <= self.index() < 8),
    ;
}

impl BoardIndex for usize {
    open spec fn index(&self) -> int {
        *self as int
    }

    fn is_valid(&self) -> (b: bool) {
        *self < 8
    }
}

impl BoardIndex for i8 {
    open spec fn index(&self) -> int {
        *self as int
    }

    fn is_valid(&self) -> (b: bool) {
        *self >= 0 && *self < 8
    }
}

impl BoardIndex for isize {
    open spec fn index(&self) -> int {
        *self as int
    }

    fn is_valid(&self) -> (b: bool) {
        *self >= 0 && *self < 8
    }
}

pub fn _to_index(i: i8) -> (r: Option<usize>)
    ensures
        r == if 0 <= i < 8 {
            Some(i as usize)
        } else {
            None::<usize>
        },
{
    if i.is_valid() {
        return Some(i as usize);
    }
    None
}

/// The offset that leads from `start` to `end`.
pub fn sub_pos(end: Position, start: Position) -> (d: IPos)
    requires
        end.0 - start.0 <= 127,
        start.0 - end.0 <= 128,
        end.1 - start.1 <= 127,
        start.1 - end.1 <= 128,
    ensures
        d.0 == end.0 - start.0,
        d.1 == end.1 - start.1,
{
    (sub_index(end.0, start.0), sub_index(end.1, start.1))
}

fn sub_index(a: usize, b: usize) -> (d: i8)
    requires
        a - b <= 127,
        b - a <= 128,
    ensures
        d == a - b,
{
    if a >= b {
        (a - b) as i8
    } else if b - a == 128 {
        -128
    } else {
        -((b - a) as i8)
    }
}

pub trait PosTrait: Sized {
    type Content;

    /// The two coordinates as integers.
    spec fn coords(&self) -> (int, int);

    /// Whether both coordinates lie in `lo..=hi` of the content type's range.
    spec fn fits(x: int, y: int) -> bool;

    spec fn content(k: Self::Content) -> int;

    fn add(&self, other: Self) -> (r: Self)
        requires
            Self::fits(self.coords().0 + other.coords().0, self.coords().1 + other.coords().1),
        ensures
            r.coords() == (self.coords().0 + other.coords().0, self.coords().1 + other.coords().1),
    ;

    fn mul(&self, k: Self::Content) -> (r: Self)
        requires
            Self::fits(self.coords().0 * Self::content(k), self.coords().1 * Self::content(k)),
        ensures
            r.coords() == (self.coords().0 * Self::content(k), self.coords().1 * Self::content(k)),
    ;

    /// Whether the offset lies on a file or a rank through the origin.
    fn is_axis(&self) -> (b: bool)
        ensures
            b == (self.coords().0 == 0 || self.coords().1 == 0),
    ;

    /// Whether the offset lies on a diagonal through the origin.
    fn is_diagonal(&self) -> (b: bool)
        ensures
            b == (self.coords().0 == self.coords().1 || self.coords().0 == -self.coords().1),
    ;

    fn to_valid(&self) -> (r: Option<Position>)
        ensures
            r == if on_board(self.coords().0, self.coords().1) {
                Some((self.coords().0 as usize, self.coords().1 as usize))
            } else {
                None::<Position>
            },
    ;
}

impl PosTrait for Position {
    type Content = usize;

    open spec fn coords(&self) -> (int, int) {
        (self.0 as int, self.1 as int)
    }

    open spec fn fits(x: int, y: int) -> bool {
        0 <= x <= usize::MAX && 0 <= y <= usize::MAX
    }

    open spec fn content(k: usize) -> int {
        k as int
    }

    fn add(&self, other: Self) -> (r: Self) {
        (self.0 + other.0, self.1 + other.1)
    }

    fn mul(&self, k: usize) -> (r: Self) {
        (self.0 * k, self.1 * k)
    }

    fn is_axis(&self) -> (b: bool) {
        self.0 == 0 || self.1 == 0
    }

    fn is_diagonal(&self) -> (b: bool) {
        self.0 == self.1 || (self.0 == 0 && self.1 == 0)
    }

    fn to_valid(&self) -> (r: Option<Position>) {
        if self.0.is_valid() && self.1.is_valid() {
            return Some((self.0, self.1));
        }
        None
    }
}

impl PosTrait for IPos {
    type Content = i8;

    open spec fn coords(&self) -> (int, int) {
        (self.0 as int, self.1 as int)
    }

    open spec fn fits(x: int, y: int) -> bool {
        -128 <= x <= 127 && -128 <= y <= 127
    }

    open spec fn content(k: i8) -> int {
        k as int
    }

    fn add(&self, other: Self) -> (r: Self) {
        (self.0 + other.0, self.1 + other.1)
    }

    fn mul(&self, k: i8) -> (r: Self) {
        (self.0 * k, self.1 * k)
    }

    fn is_axis(&self) -> (b: bool) {
        self.0 == 0 || self.1 == 0
    }

    fn is_diagonal(&self) -> (b: bool) {
        self.0 as i16 == self.1 as i16 || self.0 as i16 == -(self.1 as i16)
    }

    fn to_valid(&self) -> (r: Option<Position>) {
        if self.0.is_valid() && self.1.is_valid() {
            return Some((self.0 as usize, self.1 as usize));
        }
        None
    }
}

} // verus!
