//! Position descriptions, square names, and the comparison of scores.

use crate::types::{
    valid_pos, Board, CastleStatus, FenData, Move, Piece, Player, Position, Score, BISHOP, KING,
    KNIGHT, PAWN, QUEEN, ROOK,
};
use std::cmp::Ordering;
use vstd::prelude::*;
use vstd::string::StrSliceExecFns;

verus! {

/// Why a position description was turned down.
#[derive(Clone, Copy, Debug, PartialEq, Eq, Structural)]
pub enum FenError {
    /// Fewer than six fields.
    MissingField,
    /// A character in the board field that is no piece, digit or row break.
    Piece,
    /// A piece beyond the eighth file or the eighth row.
    OutsideBoard,
    /// The side to move is neither `w` nor `b`.
    Player,
    /// A castling letter that is unknown or comes twice.
    Castle,
    /// An en-passant field that names no square.
    EnPassant,
    /// A move counter that is no number.
    Counter,
    /// The fields describe no position that play can go on from.
    Position,
    /// The depth is beyond what the search is proved for.
    Depth,
}

/// The words that go with an error.
pub open spec fn message_of(e: FenError) -> Seq<char> {
    match e {
        FenError::MissingField => "Error in fen parsing!"@,
        FenError::Piece => "Error whilst parsing piece"@,
        FenError::OutsideBoard => "Piece outside the board"@,
        FenError::Player => "Invalid player field"@,
        FenError::Castle => "Invalid castle information"@,
        FenError::EnPassant => "Invalid en passant information!"@,
        FenError::Counter => "Error in fen parsing!"@,
        FenError::Position => "Invalid position"@,
        FenError::Depth => "Invalid search depth"@,
    }
}

impl FenError {
    /// The words that go with the error.
    pub fn message(&self) -> (text: &'static str)
        ensures
            text@ == message_of(*self),
    {
        match self {
            FenError::MissingField => "Error in fen parsing!",
            FenError::Piece => "Error whilst parsing piece",
            FenError::OutsideBoard => "Piece outside the board",
            FenError::Player => "Invalid player field",
            FenError::Castle => "Invalid castle information",
            FenError::EnPassant => "Invalid en passant information!",
            FenError::Counter => "Error in fen parsing!",
            FenError::Position => "Invalid position",
            FenError::Depth => "Invalid search depth",
        }
    }
}

/// The letter of file `x`.
pub open spec fn file_char(x: int) -> char {
    if x == 0 {
        'a'
    } else if x == 1 {
        'b'
    } else if x == 2 {
        'c'
    } else if x == 3 {
        'd'
    } else if x == 4 {
        'e'
    } else if x == 5 {
        'f'
    } else if x == 6 {
        'g'
    } else {
        'h'
    }
}

/// The digit of rank `y`, counted from one.
pub open spec fn rank_char(y: int) -> char {
    if y == 0 {
        '1'
    } else if y == 1 {
        '2'
    } else if y == 2 {
        '3'
    } else if y == 3 {
        '4'
    } else if y == 4 {
        '5'
    } else if y == 5 {
        '6'
    } else if y == 6 {
        '7'
    } else {
        '8'
    }
}

/// The file that a letter names.
pub open spec fn file_of(c: char) -> Option<int> {
    if c == 'a' {
        Some(0int)
    } else if c == 'b' {
        Some(1int)
    } else if c == 'c' {
        Some(2int)
    } else if c == 'd' {
        Some(3int)
    } else if c == 'e' {
        Some(4int)
    } else if c == 'f' {
        Some(5int)
    } else if c == 'g' {
        Some(6int)
    } else if c == 'h' {
        Some(7int)
    } else {
        None
    }
}

/// The value of a decimal digit.
pub open spec fn digit_of(c: char) -> Option<int> {
    if c == '0' {
        Some(0int)
    } else if c == '1' {
        Some(1int)
    } else if c == '2' {
        Some(2int)
    } else if c == '3' {
        Some(3int)
    } else if c == '4' {
        Some(4int)
    } else if c == '5' {
        Some(5int)
    } else if c == '6' {
        Some(6int)
    } else if c == '7' {
        Some(7int)
    } else if c == '8' {
        Some(8int)
    } else if c == '9' {
        Some(9int)
    } else {
        None
    }
}

/// The piece that a letter names: an upper-case letter a white piece, a
/// lower-case letter a black one. The Kelvin sign, whose lower-case form is
/// the letter k, names the white king as the capital letter does.
pub open spec fn piece_of(c: char) -> Option<Piece> {
    if c == 'P' {
        Some(PAWN)
    } else if c == 'N' {
        Some(KNIGHT)
    } else if c == 'B' {
        Some(BISHOP)
    } else if c == 'R' {
        Some(ROOK)
    } else if c == 'Q' {
        Some(QUEEN)
    } else if c == 'K' || c == '\u{212A}' {
        Some(KING)
    } else if c == 'p' {
        Some((-PAWN) as Piece)
    } else if c == 'n' {
        Some((-KNIGHT) as Piece)
    } else if c == 'b' {
        Some((-BISHOP) as Piece)
    } else if c == 'r' {
        Some((-ROOK) as Piece)
    } else if c == 'q' {
        Some((-QUEEN) as Piece)
    } else if c == 'k' {
        Some((-KING) as Piece)
    } else {
        None
    }
}

fn file_letter(x: usize) -> (c: char)
    requires
        x < 8,
    ensures
        c == file_char(x as int),
{
    if x == 0 {
        'a'
    } else if x == 1 {
        'b'
    } else if x == 2 {
        'c'
    } else if x == 3 {
        'd'
    } else if x == 4 {
        'e'
    } else if x == 5 {
        'f'
    } else if x == 6 {
        'g'
    } else {
        'h'
    }
}

fn rank_digit(y: usize) -> (c: char)
    requires
        y < 8,
    ensures
        c == rank_char(y as int),
{
    if y == 0 {
        '1'
    } else if y == 1 {
        '2'
    } else if y == 2 {
        '3'
    } else if y == 3 {
        '4'
    } else if y == 4 {
        '5'
    } else if y == 5 {
        '6'
    } else if y == 6 {
        '7'
    } else {
        '8'
    }
}

fn letter_file(c: char) -> (r: Option<usize>)
    ensures
        match r {
            Some(x) => file_of(c) == Some(x as int) && x < 8,
            None => file_of(c) is None,
        },
{
    if c == 'a' {
        Some(0)
    } else if c == 'b' {
        Some(1)
    } else if c == 'c' {
        Some(2)
    } else if c == 'd' {
        Some(3)
    } else if c == 'e' {
        Some(4)
    } else if c == 'f' {
        Some(5)
    } else if c == 'g' {
        Some(6)
    } else if c == 'h' {
        Some(7)
    } else {
        None
    }
}

fn digit_value(c: char) -> (r: Option<usize>)
    ensures
        match r {
            Some(d) => digit_of(c) == Some(d as int) && d <= 9,
            None => digit_of(c) is None,
        },
{
    if c == '0' {
        Some(0)
    } else if c == '1' {
        Some(1)
    } else if c == '2' {
        Some(2)
    } else if c == '3' {
        Some(3)
    } else if c == '4' {
        Some(4)
    } else if c == '5' {
        Some(5)
    } else if c == '6' {
        Some(6)
    } else if c == '7' {
        Some(7)
    } else if c == '8' {
        Some(8)
    } else if c == '9' {
        Some(9)
    } else {
        None
    }
}

/// `String::push` adds the character at the end of the text and changes
/// nothing else, as its documentation says.
pub assume_specification[ String::push ](s: &mut String, ch: char)
    ensures
        final(s)@ == old(s)@.push(ch),
;

/// The name of a square: the letter of its file, then the digit of its rank.
pub open spec fn square_name(pos: Position) -> Seq<char> {
    seq![file_char(pos.0 as int), rank_char(pos.1 as int)]
}

/// The name of a square, such as `e4`.
pub fn pos_to_string(pos: Position) -> (s: String)
    requires
        valid_pos(pos),
    ensures
        s@ == square_name(pos),
{
    let mut s = String::new();
    s.push(file_letter(pos.0));
    s.push(rank_digit(pos.1));
    assert(s@ =~= square_name(pos));
    s
}

/// A move as the names of its two squares with a comma and a blank between.
pub fn _move_to_string(mv: Move) -> (s: String)
    requires
        valid_pos(mv.0),
        valid_pos(mv.1),
    ensures
        s@ == square_name(mv.0) + seq![',', ' '] + square_name(mv.1),
{
    let mut s = String::new();
    s.push(file_letter(mv.0.0));
    s.push(rank_digit(mv.0.1));
    s.push(',');
    s.push(' ');
    s.push(file_letter(mv.1.0));
    s.push(rank_digit(mv.1.1));
    assert(s@ =~= square_name(mv.0) + seq![',', ' '] + square_name(mv.1));
    s
}

/// The piece that a letter of the board field names.
pub fn char_to_piece(from: char) -> (r: Result<Piece, FenError>)
    ensures
        r == match piece_of(from) {
            Some(p) => Ok::<Piece, FenError>(p),
            None => Err::<Piece, FenError>(FenError::Piece),
        },
{
    if from == 'P' {
        Ok(PAWN)
    } else if from == 'N' {
        Ok(KNIGHT)
    } else if from == 'B' {
        Ok(BISHOP)
    } else if from == 'R' {
        Ok(ROOK)
    } else if from == 'Q' {
        Ok(QUEEN)
    } else if from == 'K' || from == '\u{212A}' {
        Ok(KING)
    } else if from == 'p' {
        Ok(-PAWN)
    } else if from == 'n' {
        Ok(-KNIGHT)
    } else if from == 'b' {
        Ok(-BISHOP)
    } else if from == 'r' {
        Ok(-ROOK)
    } else if from == 'q' {
        Ok(-QUEEN)
    } else if from == 'k' {
        Ok(-KING)
    } else {
        Err(FenError::Piece)
    }
}

pub open spec fn is_space(c: char) -> bool {
    c == ' ' || c == '\t' || c == '\n' || c == '\r'
}

/// The first index at or after `i` that holds no blank.
pub open spec fn skip_spaces(s: Seq<char>, i: int) -> int
    decreases s.len() - i,
{
    if 0 <= i < s.len() && is_space(s[i]) {
        skip_spaces(s, i + 1)
    } else {
        i
    }
}

/// The first index at or after `i` that holds a blank, or the length.
pub open spec fn skip_word(s: Seq<char>, i: int) -> int
    decreases s.len() - i,
{
    if 0 <= i < s.len() && !is_space(s[i]) {
        skip_word(s, i + 1)
    } else {
        i
    }
}

/// Where the field with number `n` begins, fields counted from zero.
pub open spec fn field_start(s: Seq<char>, n: nat) -> int
    decreases n,
{
    if n == 0 {
        skip_spaces(s, 0)
    } else {
        skip_spaces(s, skip_word(s, field_start(s, (n - 1) as nat)))
    }
}

/// The field with number `n`: a run of characters without a blank. It is
/// empty where the text has fewer fields.
pub open spec fn field(s: Seq<char>, n: nat) -> Seq<char> {
    let a = field_start(s, n);
    let b = skip_word(s, a);
    if 0 <= a <= b <= s.len() {
        s.subrange(a, b)
    } else {
        Seq::<char>::empty()
    }
}

/// The board that the characters from index `i` on describe, laid onto `b`
/// with the cursor on file `x` of row `y`, rows counted from the top: a
/// letter puts a piece and moves on one file, a digit moves on that many
/// files, a stroke goes to the start of the next row.
pub open spec fn place_rows(f: Seq<char>, i: int, b: Board, x: int, y: int) -> Result<
    Board,
    FenError,
>
    decreases f.len() - i,
{
    if i < 0 || i >= f.len() {
        Ok(b)
    } else if f[i] == '/' {
        place_rows(f, i + 1, b, 0, y + 1)
    } else if piece_of(f[i]) is Some {
        if 0 <= x < 8 && 0 <= y < 8 {
            place_rows(f, i + 1, b.with(x, 7 - y, piece_of(f[i])->0), x + 1, y)
        } else {
            Err(FenError::OutsideBoard)
        }
    } else if digit_of(f[i]) is Some && digit_of(f[i])->0 > 0 {
        place_rows(f, i + 1, b, if x + digit_of(f[i])->0 > 8 {
            8
        } else {
            x + digit_of(f[i])->0
        }, y)
    } else {
        Err(FenError::Piece)
    }
}

/// The empty board.
pub open spec fn empty_board() -> Board {
    Board(
        vstd::array::spec_array_fill_for_copy_type::<[Piece; 8], 8>(
            vstd::array::spec_array_fill_for_copy_type::<Piece, 8>(0i8),
        ),
    )
}

/// The board that a board field describes.
pub open spec fn board_of(f: Seq<char>) -> Result<Board, FenError> {
    place_rows(f, 0, empty_board(), 0, 0)
}

/// The side that a side field names.
pub open spec fn player_of(f: Seq<char>) -> Result<Player, FenError> {
    if f =~= seq!['w'] {
        Ok(1i8)
    } else if f =~= seq!['b'] {
        Ok(-1i8)
    } else {
        Err(FenError::Player)
    }
}

/// The rights that the letters from index `i` on grant on top of `acc`.
pub open spec fn grant_rights(f: Seq<char>, i: int, acc: CastleStatus) -> Result<
    CastleStatus,
    FenError,
>
    decreases f.len() - i,
{
    if i < 0 || i >= f.len() {
        Ok(acc)
    } else if acc.flag(f[i]) == Some(false) {
        grant_rights(f, i + 1, acc.granted(f[i]))
    } else {
        Err(FenError::Castle)
    }
}

/// No castling right at all.
pub open spec fn no_rights() -> CastleStatus {
    CastleStatus {
        white: crate::types::PlayerCastleStatus { k: false, q: false },
        black: crate::types::PlayerCastleStatus { k: false, q: false },
    }
}

/// The rights that a castling field grants.
pub open spec fn castle_of(f: Seq<char>) -> Result<CastleStatus, FenError> {
    if f =~= seq!['-'] {
        Ok(no_rights())
    } else {
        grant_rights(f, 0, no_rights())
    }
}

/// The square that an en-passant field names, if it names one.
pub open spec fn en_passant_of(f: Seq<char>) -> Result<Option<Position>, FenError> {
    if f =~= seq!['-'] {
        Ok(None)
    } else if f.len() >= 2 && file_of(f[0]) is Some && digit_of(f[1]) is Some && 1 <= digit_of(
        f[1],
    )->0 <= 8 {
        Ok(Some((file_of(f[0])->0 as usize, (digit_of(f[1])->0 - 1) as usize)))
    } else {
        Err(FenError::EnPassant)
    }
}

/// The number that the first `n` characters read as decimal digits, if all are.
pub open spec fn digits_value(f: Seq<char>, n: int) -> Option<int>
    decreases n,
{
    if n <= 0 {
        Some(0int)
    } else {
        match (digits_value(f, n - 1), digit_of(f[n - 1])) {
            (Some(v), Some(d)) => Some(10 * v + d),
            _ => None,
        }
    }
}

/// The number that a counter field holds: decimal digits, at least one,
/// after an optional plus sign, and no more than a `usize` holds.
pub open spec fn counter_of(f: Seq<char>) -> Result<usize, FenError> {
    let digits = counter_digits(f);
    match digits_value(digits, digits.len() as int) {
        Some(v) => if digits.len() > 0 && v <= usize::MAX {
            Ok(v as usize)
        } else {
            Err(FenError::Counter)
        },
        None => Err(FenError::Counter),
    }
}

/// A larger prefix of digits reads as a number at least as large.
proof fn lemma_digits_grow(f: Seq<char>, n: int, m: int)
    requires
        0 <= n <= m,
        digits_value(f, m) is Some,
    ensures
        digits_value(f, n) is Some,
        0 <= digits_value(f, n)->0 <= digits_value(f, m)->0,
    decreases m - n,
{
    if n < m {
        lemma_digits_grow(f, n + 1, m);
    } else {
        lemma_digits_nonnegative(f, n);
    }
}

proof fn lemma_digits_nonnegative(f: Seq<char>, n: int)
    requires
        digits_value(f, n) is Some,
    ensures
        digits_value(f, n)->0 >= 0,
    decreases n,
{
    if n > 0 {
        lemma_digits_nonnegative(f, n - 1);
    }
}

/// The characters of a text.
fn chars_of(s: &str) -> (v: Vec<char>)
    ensures
        v@ == s@,
{
    let n = s.unicode_len();
    let mut v: Vec<char> = Vec::new();
    let mut i: usize = 0;
    while i < n
        invariant
            0 <= i <= n,
            n == s@.len(),
            v@ == s@.subrange(0, i as int),
        decreases n - i,
    {
        let c = s.get_char(i);
        v.push(c);
        assert(v@ =~= s@.subrange(0, i + 1));
        i += 1;
    }
    assert(v@ =~= s@);
    v
}

fn is_blank(c: char) -> (r: bool)
    ensures
        r == is_space(c),
{
    c == ' ' || c == '\t' || c == '\n' || c == '\r'
}

/// The first index at or after `i` that holds no blank.
fn after_spaces(s: &Vec<char>, i: usize) -> (j: usize)
    requires
        i <= s@.len(),
    ensures
        j == skip_spaces(s@, i as int),
        i <= j <= s@.len(),
{
    let mut j = i;
    while j < s.len() && is_blank(s[j])
        invariant
            i <= j <= s@.len(),
            skip_spaces(s@, j as int) == skip_spaces(s@, i as int),
        decreases s@.len() - j,
    {
        j += 1;
    }
    j
}

/// The first index at or after `i` that holds a blank, or the length.
fn after_word(s: &Vec<char>, i: usize) -> (j: usize)
    requires
        i <= s@.len(),
    ensures
        j == skip_word(s@, i as int),
        i <= j <= s@.len(),
{
    let mut j = i;
    while j < s.len() && !is_blank(s[j])
        invariant
            i <= j <= s@.len(),
            skip_word(s@, j as int) == skip_word(s@, i as int),
        decreases s@.len() - j,
    {
        j += 1;
    }
    j
}

/// The characters of `s` from index `a` up to index `b`.
fn slice_of(s: &Vec<char>, a: usize, b: usize) -> (v: Vec<char>)
    requires
        a <= b <= s@.len(),
    ensures
        v@ == s@.subrange(a as int, b as int),
{
    let mut v: Vec<char> = Vec::new();
    let mut i = a;
    while i < b
        invariant
            a <= i <= b <= s@.len(),
            v@ == s@.subrange(a as int, i as int),
        decreases b - i,
    {
        v.push(s[i]);
        assert(v@ =~= s@.subrange(a as int, i + 1));
        i += 1;
    }
    v
}

/// The first six fields of a text.
fn six_fields(s: &Vec<char>) -> (out: Vec<Vec<char>>)
    ensures
        out@.len() == 6,
        forall|n: int| 0 <= n < 6 ==> (#[trigger] out@[n])@ == field(s@, n as nat),
{
    let mut out: Vec<Vec<char>> = Vec::new();
    let mut start = after_spaces(s, 0);
    let mut n: usize = 0;
    while n < 6
        invariant
            0 <= n <= 6,
            out@.len() == n,
            start <= s@.len(),
            start == field_start(s@, n as nat),
            forall|k: int| 0 <= k < n ==> (#[trigger] out@[k])@ == field(s@, k as nat),
        decreases 6 - n,
    {
        let end = after_word(s, start);
        let word = slice_of(s, start, end);
        out.push(word);
        start = after_spaces(s, end);
        n += 1;
    }
    out
}

/// The board that a board field describes.
pub fn board_from_fen(fen: &Vec<char>) -> (r: Result<Board, FenError>)
    ensures
        r == board_of(fen@),
{
    let mut board = Board::empty();
    proof {
        Board::lemma_ext(board, empty_board());
    }
    let mut x: usize = 0;
    let mut y: usize = 0;
    let mut i: usize = 0;
    while i < fen.len()
        invariant
            0 <= i <= fen@.len(),
            0 <= x <= 8,
            0 <= y <= i,
            place_rows(fen@, i as int, board, x as int, y as int) == board_of(fen@),
        decreases fen@.len() - i,
    {
        let ch = fen[i];
        if ch == '/' {
            x = 0;
            y += 1;
        } else {
            match char_to_piece(ch) {
                Ok(piece) => {
                    if x < 8 && y < 8 {
                        board.put((x, 7 - y), piece);
                        x += 1;
                    } else {
                        return Err(FenError::OutsideBoard);
                    }
                },
                Err(error) => {
                    match digit_value(ch) {
                        Some(skip) => {
                            if skip == 0 {
                                return Err(error);
                            }
                            x = if x + skip > 8 {
                                8
                            } else {
                                x + skip
                            };
                        },
                        None => {
                            return Err(error);
                        },
                    }
                },
            }
        }
        i += 1;
    }
    Ok(board)
}

fn is_text(f: &Vec<char>, c: char) -> (r: bool)
    ensures
        r == (f@ =~= seq![c]),
{
    f.len() == 1 && f[0] == c
}

/// The side that a side field names.
pub fn player_from_fen(fen: &Vec<char>) -> (r: Result<Player, FenError>)
    ensures
        r == player_of(fen@),
{
    if is_text(fen, 'w') {
        Ok(1)
    } else if is_text(fen, 'b') {
        Ok(-1)
    } else {
        Err(FenError::Player)
    }
}

/// The rights that a castling field grants.
pub fn castle_from_fen(fen: &Vec<char>) -> (r: Result<CastleStatus, FenError>)
    ensures
        r == castle_of(fen@),
{
    let mut status = CastleStatus::default(false);
    assert(status == no_rights());
    if is_text(fen, '-') {
        return Ok(status);
    }
    let mut i: usize = 0;
    while i < fen.len()
        invariant
            0 <= i <= fen@.len(),
            grant_rights(fen@, i as int, status) == castle_of(fen@),
        decreases fen@.len() - i,
    {
        let ch = fen[i];
        if ch == 'K' && !status.white.k {
            status.white.k = true;
        } else if ch == 'Q' && !status.white.q {
            status.white.q = true;
        } else if ch == 'k' && !status.black.k {
            status.black.k = true;
        } else if ch == 'q' && !status.black.q {
            status.black.q = true;
        } else {
            return Err(FenError::Castle);
        }
        i += 1;
    }
    Ok(status)
}

/// The square that an en-passant field names, if it names one.
pub fn en_passant_from_fen(fen: &Vec<char>) -> (r: Result<Option<Position>, FenError>)
    ensures
        r == en_passant_of(fen@),
{
    if is_text(fen, '-') {
        return Ok(None);
    }
    if fen.len() < 2 {
        return Err(FenError::EnPassant);
    }
    match (letter_file(fen[0]), digit_value(fen[1])) {
        (Some(x), Some(d)) => {
            if 1 <= d && d <= 8 {
                Ok(Some((x, d - 1)))
            } else {
                Err(FenError::EnPassant)
            }
        },
        _ => Err(FenError::EnPassant),
    }
}

/// The digits of a counter field: the field without a leading plus sign.
pub open spec fn counter_digits(f: Seq<char>) -> Seq<char> {
    if f.len() > 0 && f[0] == '+' {
        f.subrange(1, f.len() as int)
    } else {
        f
    }
}

/// The number that a counter field holds.
pub fn counter_from_fen(fen: &Vec<char>) -> (r: Result<usize, FenError>)
    ensures
        r == counter_of(fen@),
{
    let start: usize = if fen.len() > 0 && fen[0] == '+' {
        1
    } else {
        0
    };
    let ghost digits = counter_digits(fen@);
    if start == fen.len() {
        return Err(FenError::Counter);
    }
    let mut value: usize = 0;
    let mut i: usize = start;
    while i < fen.len()
        invariant
            start <= i <= fen@.len(),
            start <= 1,
            digits == counter_digits(fen@),
            digits.len() == fen@.len() - start,
            forall|k: int| 0 <= k < digits.len() ==> digits[k] == fen@[k + start],
            digits_value(digits, i - start) == Some(value as int),
        decreases fen@.len() - i,
    {
        assert(digits[i - start] == fen@[i as int]);
        match digit_value(fen[i]) {
            None => {
                proof {
                    if digits_value(digits, digits.len() as int) is Some {
                        lemma_digits_grow(digits, i - start + 1, digits.len() as int);
                    }
                }
                return Err(FenError::Counter);
            },
            Some(d) => {
                if value > (usize::MAX - d) / 10 {
                    proof {
                        assert(digits_value(digits, i - start + 1) == Some(10 * value + d));
                        if digits_value(digits, digits.len() as int) is Some {
                            lemma_digits_grow(digits, i - start + 1, digits.len() as int);
                        }
                    }
                    return Err(FenError::Counter);
                }
                value = 10 * value + d;
            },
        }
        i += 1;
    }
    Ok(value)
}

/// What a position description holds, field by field: the board, the side to
/// move, the castling rights, the en-passant target and the two counters.
pub open spec fn fen_of(s: Seq<char>) -> Result<FenData, FenError> {
    if field(s, 5).len() == 0 {
        Err(FenError::MissingField)
    } else {
        match board_of(field(s, 0)) {
            Err(e) => Err(e),
            Ok(board) => match player_of(field(s, 1)) {
                Err(e) => Err(e),
                Ok(player) => match castle_of(field(s, 2)) {
                    Err(e) => Err(e),
                    Ok(can_castle) => match en_passant_of(field(s, 3)) {
                        Err(e) => Err(e),
                        Ok(en_passant) => match (counter_of(field(s, 4)), counter_of(field(s, 5))) {
                            (Ok(half_moves), Ok(move_number)) => Ok(
                                FenData {
                                    board,
                                    player,
                                    can_castle,
                                    en_passant,
                                    half_moves,
                                    move_number,
                                },
                            ),
                            _ => Err(FenError::Counter),
                        },
                    },
                },
            },
        }
    }
}

/// Reads a position description of six fields with blanks between them.
pub fn parse_fen(fen: &str) -> (r: Result<FenData, FenError>)
    ensures
        r == fen_of(fen@),
{
    let chars = chars_of(fen);
    let fields = six_fields(&chars);
    if fields[5].len() == 0 {
        return Err(FenError::MissingField);
    }
    let board = match board_from_fen(&fields[0]) {
        Ok(b) => b,
        Err(e) => {
            return Err(e);
        },
    };
    let player = match player_from_fen(&fields[1]) {
        Ok(p) => p,
        Err(e) => {
            return Err(e);
        },
    };
    let can_castle = match castle_from_fen(&fields[2]) {
        Ok(c) => c,
        Err(e) => {
            return Err(e);
        },
    };
    let en_passant = match en_passant_from_fen(&fields[3]) {
        Ok(t) => t,
        Err(e) => {
            return Err(e);
        },
    };
    let half_moves = counter_from_fen(&fields[4]);
    let move_number = counter_from_fen(&fields[5]);
    match (half_moves, move_number) {
        (Ok(half_moves), Ok(move_number)) => Ok(
            FenData { board, player, can_castle, en_passant, half_moves, move_number },
        ),
        _ => Err(FenError::Counter),
    }
}

/// How two scores compare.
pub fn cmp_scores(a: &Score, b: &Score) -> (r: Ordering)
    ensures
        (r == Ordering::Less) == (*a < *b),
        (r == Ordering::Equal) == (*a == *b),
        (r == Ordering::Greater) == (*a > *b),
{
    if *a < *b {
        Ordering::Less
    } else if *a > *b {
        Ordering::Greater
    } else {
        Ordering::Equal
    }
}

pub fn max_score(a: Score, b: Score) -> (r: Score)
    ensures
        r == if a > b {
            a
        } else {
            b
        },
{
    if a > b {
        a
    } else {
        b
    }
}

pub fn min_score(a: Score, b: Score) -> (r: Score)
    ensures
        r == if a < b {
            a
        } else {
            b
        },
{
    if a < b {
        a
    } else {
        b
    }
}

pub fn _valid_pos(pos: Position) -> (r: bool)
    ensures
        r == valid_pos(pos),
{
    pos.0 < 8 && pos.1 < 8
}

} // verus!
