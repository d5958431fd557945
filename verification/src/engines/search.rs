//! The minimax value of a position and the search that finds it with
//! pruning and, if asked, a table of scores.

use crate::engines::{apply, lemma_apply_wf, lemma_undo_restores, removes_king};
use crate::engines::table::TranspositionTable;
use crate::game::{attacked, king_square, legal, lemma_king_square, position, pseudo_legal};
use crate::score_functions::{score1, static_score};
use crate::types::{
    kind_value, piece_kind, valid_move, valid_piece, valid_pos, Board, GameState, IsPiece, Move,
    Position, Score, MATE_SCORE, MAX_DEPTH, SCORE_INF,
};
use crate::utils::{max_score, min_score};
use itertools::Itertools;
use rayon::slice::ParallelSliceMut;
use vstd::prelude::*;

verus! {

/// No score that the search returns is larger in magnitude than this.
pub const VALUE_LIMIT: Score = 10_001_000;

/// The value of a position in which the side to move has no move, `depth`
/// plies above the horizon: nothing for a stalemate; for a mate a hundred
/// pawns and one more for each ply of depth left, against the side to move.
#[verifier::opaque]
pub open spec fn terminal_value(s: GameState, depth: nat) -> int {
    let k = king_square(s.board, s.player as int);
    if attacked(s.board, k.0, k.1, -s.player) {
        if s.player == 1 {
            -(MATE_SCORE + 10 * depth)
        } else {
            MATE_SCORE + 10 * depth
        }
    } else {
        0
    }
}

/// For the side to move in `s`, a value of `a` is at least as good as one of `b`.
pub open spec fn no_worse(s: GameState, a: int, b: int) -> bool {
    if s.player == 1 {
        a >= b
    } else {
        a <= b
    }
}

/// The minimax value of `s` searched `depth` plies deep, in tenths of a pawn
/// and from white's side: at the horizon the static evaluation as seen by
/// the side that has just moved; without a move the terminal value; else the
/// best of the values that the moves lead to, the largest for white and the
/// smallest for black. None if within the horizon some move that the
/// generator offers takes a king.
#[verifier::opaque]
pub open spec fn node_value(s: GameState, depth: nat) -> Option<int>
    decreases depth,
{
    if depth == 0 {
        Some(static_score(s.board, -s.player))
    } else if forall|m: Move| !legal(s, m) {
        Some(terminal_value(s, depth))
    } else if exists|m: Move| #[trigger]
        legal(s, m) && (removes_king(s, m) || node_value(apply(s, m), (depth - 1) as nat) is None) {
        None
    } else {
        choose|r: Option<int>|
            #![trigger r->0]
            r is Some && (exists|m: Move| #[trigger]
                legal(s, m) && node_value(apply(s, m), (depth - 1) as nat) == r) && (forall|
                o: Move,
            | #[trigger]
                legal(s, o) ==> no_worse(
                    s,
                    r->0,
                    node_value(apply(s, o), (depth - 1) as nat)->0,
                ))
    }
}

/// The value of the position that `m` leads to from `s`, searched one ply
/// less deep than `s`; none if `m` takes a king or the search below fails.
pub open spec fn child_value(s: GameState, m: Move, depth: nat) -> Option<int> {
    if depth == 0 || removes_king(s, m) {
        None
    } else {
        node_value(apply(s, m), (depth - 1) as nat)
    }
}

/// `v` is the value of a move that the side to move can make in `s`, and no
/// move that it can make has a better one.
pub open spec fn is_best(s: GameState, depth: nat, v: int) -> bool {
    &&& exists|m: Move| #[trigger] legal(s, m) && child_value(s, m, depth) == Some(v)
    &&& forall|m: Move| #[trigger]
        legal(s, m) ==> (child_value(s, m, depth) matches Some(c) && no_worse(s, v, c))
}

/// Some move that the generator offers in `s` takes a king.
pub open spec fn king_can_be_taken(s: GameState) -> bool {
    exists|m: Move| #[trigger] legal(s, m) && removes_king(s, m)
}

/// Some move that the generator offers in `s` takes a king, or, where the
/// search goes two plies deep or more, some move that it offers one ply
/// below does.
pub open spec fn king_taken_soon(s: GameState, depth: nat) -> bool {
    king_can_be_taken(s) || (depth >= 2 && exists|m: Move| #[trigger]
        legal(s, m) && king_can_be_taken(apply(s, m)))
}

/// What a search with the window `(alpha, beta)` may answer for a position
/// whose value is `v`: the value itself when the answer lies inside the
/// window; an answer at or below `alpha` only when the value is no larger
/// than the answer; an answer at or above `beta` only when the value is no
/// smaller than the answer.
pub open spec fn window_result(v: int, alpha: int, beta: int, r: int) -> bool {
    &&& alpha < r < beta ==> r == v
    &&& r <= alpha ==> v <= r
    &&& r >= beta ==> v >= r
}

/// `x` is the score of a position that play comes to from `s` within `depth`
/// plies by moves that the generator offers and that take no king: the
/// static evaluation of a position at the horizon, or the terminal value of
/// a position above it in which the side to move has no move.
#[verifier::opaque]
pub open spec fn is_score_below(s: GameState, depth: nat, x: int) -> bool
    decreases depth,
{
    if depth == 0 {
        x == static_score(s.board, -s.player)
    } else if forall|m: Move| !legal(s, m) {
        x == terminal_value(s, depth)
    } else {
        exists|m: Move| #[trigger]
            legal(s, m) && !removes_king(s, m) && is_score_below(
                apply(s, m),
                (depth - 1) as nat,
                x,
            )
    }
}

/// The static evaluation is the one score at the horizon.
pub proof fn lemma_score_at_horizon(s: GameState, x: int)
    ensures
        is_score_below(s, 0, x) <==> x == static_score(s.board, -s.player),
{
    reveal(is_score_below);
}

/// The terminal value is the one score of a position without a move.
pub proof fn lemma_score_without_move(s: GameState, depth: nat, x: int)
    requires
        depth > 0,
        forall|m: Move| !legal(s, m),
    ensures
        is_score_below(s, depth, x) <==> x == terminal_value(s, depth),
{
    reveal(is_score_below);
}

/// A score below a position that a move leads to is a score below the
/// position in which the move is made.
pub proof fn lemma_score_below_move(s: GameState, depth: nat, m: Move, x: int)
    requires
        depth > 0,
        legal(s, m),
        !removes_king(s, m),
        is_score_below(apply(s, m), (depth - 1) as nat, x),
    ensures
        is_score_below(s, depth, x),
{
    reveal(is_score_below);
}

/// What the search of `s` to `depth` with the window `(alpha, beta)` answers.
/// Every answer is a score within the limit, and the score of a position
/// below `s`. At the horizon the answer is the static evaluation, as seen by
/// the side that has just moved. Above the horizon it is the terminal value
/// where the side to move has no move, and there is no answer where one of
/// its moves takes a king. Where the position has a value, the answer is
/// what the window allows for that value.
pub open spec fn is_search_answer(
    s: GameState,
    depth: nat,
    alpha: int,
    beta: int,
    r: Option<Score>,
) -> bool {
    &&& r matches Some(x) ==> -VALUE_LIMIT <= x <= VALUE_LIMIT && is_score_below(
        s,
        depth,
        x as int,
    )
    &&& depth == 0 ==> (r matches Some(x) && x == static_score(s.board, -s.player))
    &&& depth > 0 && (forall|m: Move| !legal(s, m)) ==> (r matches Some(x) && x
        == terminal_value(s, depth))
    &&& depth > 0 && king_can_be_taken(s) ==> r is None
    &&& node_value(s, depth) matches Some(v) ==> (r matches Some(x) && window_result(
        v,
        alpha,
        beta,
        x as int,
    ))
}

/// A position has at most one best value.
pub proof fn lemma_best_unique(s: GameState, depth: nat, v1: int, v2: int)
    requires
        is_best(s, depth, v1),
        is_best(s, depth, v2),
    ensures
        v1 == v2,
{
    let m1 = choose|m: Move| #[trigger] legal(s, m) && child_value(s, m, depth) == Some(v1);
    let m2 = choose|m: Move| #[trigger] legal(s, m) && child_value(s, m, depth) == Some(v2);
    assert(legal(s, m1) && legal(s, m2));
}

/// Among the values that the first `n` moves of `q` lead to, one is best.
proof fn lemma_best_of_prefix(s: GameState, depth: nat, q: Seq<Move>, n: nat) -> (w: int)
    requires
        1 <= n <= q.len(),
        forall|k: int| 0 <= k < n ==> (#[trigger] child_value(s, q[k], depth)) is Some,
    ensures
        0 <= w < n,
        forall|k: int|
            0 <= k < n ==> no_worse(
                s,
                child_value(s, q[w], depth)->0,
                (#[trigger] child_value(s, q[k], depth))->0,
            ),
    decreases n,
{
    if n == 1 {
        0
    } else {
        let rest = lemma_best_of_prefix(s, depth, q, (n - 1) as nat);
        if no_worse(s, child_value(s, q[rest], depth)->0, child_value(s, q[n - 1], depth)->0) {
            rest
        } else {
            assert forall|k: int| 0 <= k < n implies no_worse(
                s,
                child_value(s, q[n - 1], depth)->0,
                (#[trigger] child_value(s, q[k], depth))->0,
            ) by {
                if k < n - 1 {
                    assert(no_worse(
                        s,
                        child_value(s, q[rest], depth)->0,
                        child_value(s, q[k], depth)->0,
                    ));
                }
            }
            n - 1
        }
    }
}

/// At the horizon the value is the static evaluation, as seen by the side
/// that has just moved.
pub proof fn lemma_leaf_value(s: GameState)
    ensures
        node_value(s, 0) == Some(static_score(s.board, -s.player)),
{
    reveal(node_value);
}

/// Above the horizon a position without a move has its terminal value.
pub proof fn lemma_terminal_value(s: GameState, depth: nat)
    requires
        depth > 0,
        forall|m: Move| !legal(s, m),
    ensures
        node_value(s, depth) == Some(terminal_value(s, depth)),
{
    reveal(node_value);
}

/// A position has a value only if each of its moves leads to one that has.
pub proof fn lemma_children_have_values(s: GameState, depth: nat, m: Move)
    requires
        depth > 0,
        legal(s, m),
        node_value(s, depth) is Some,
    ensures
        child_value(s, m, depth) is Some,
{
    reveal(node_value);
}

/// The value of a position with a move, each of whose moves leads to a
/// position with a value, is the best of their values.
pub proof fn lemma_value_is_best(s: GameState, depth: nat, v: int)
    requires
        depth > 0,
        is_best(s, depth, v),
    ensures
        node_value(s, depth) == Some(v),
{
    let t = Some(v);
    assert(t->0 == v);
    assert(node_value(s, depth) matches Some(x) && is_best(s, depth, x)) by {
        reveal(node_value);
    }
    lemma_best_unique(s, depth, v, node_value(s, depth)->0);
}

/// Where the moves of `s` are those of the list `q`, there is at least one,
/// and each leads to a position with a value, the value of `s` is the best
/// of theirs.
pub proof fn lemma_node_value_is_best(s: GameState, depth: nat, q: Seq<Move>)
    requires
        depth > 0,
        q.len() > 0,
        forall|m: Move| #[trigger] q.contains(m) <==> legal(s, m),
        forall|k: int| 0 <= k < q.len() ==> (#[trigger] child_value(s, q[k], depth)) is Some,
    ensures
        node_value(s, depth) matches Some(v) && is_best(s, depth, v),
{
    let w = lemma_best_of_prefix(s, depth, q, q.len());
    let v = child_value(s, q[w], depth)->0;
    assert(q.contains(q[w]));
    assert(legal(s, q[w]) && child_value(s, q[w], depth) == Some(v));
    assert forall|m: Move| #[trigger] legal(s, m) implies (child_value(s, m, depth) matches Some(c)
        && no_worse(s, v, c)) by {
        assert(q.contains(m));
        let k = choose|k: int| 0 <= k < q.len() && q[k] == m;
        assert(no_worse(s, child_value(s, q[w], depth)->0, child_value(s, q[k], depth)->0));
    }
    lemma_value_is_best(s, depth, v);
}


/// What the search of a position answers at its root: the value of the
/// position as `score`, and as `moves` the moves that lead to that value,
/// each once, of which there is one unless the side to move has no move at
/// all.
pub open spec fn is_root_answer(s: GameState, depth: nat, moves: Seq<Move>, score: int) -> bool {
    &&& node_value(s, depth) == Some(score)
    &&& forall|m: Move| #[trigger]
        moves.contains(m) <==> legal(s, m) && child_value(s, m, depth) == Some(score)
    &&& moves.len() == 0 ==> forall|m: Move| !legal(s, m)
    &&& moves.no_duplicates()
}

/// Two answers to the search of one position to one depth agree in the score
/// and in the moves they hold, however each was found: with or without
/// pruning, with or without a table of scores.
pub proof fn lemma_root_answers_agree(
    s: GameState,
    depth: nat,
    moves1: Seq<Move>,
    score1: int,
    moves2: Seq<Move>,
    score2: int,
)
    requires
        is_root_answer(s, depth, moves1, score1),
        is_root_answer(s, depth, moves2, score2),
    ensures
        score1 == score2,
        forall|m: Move| moves1.contains(m) <==> moves2.contains(m),
{
}

/// What the search of `s` to `depth` answers at the root. Every answer holds
/// moves that the generator offers, each once, and holds none exactly when
/// the side to move has no move; its score is then the terminal value.
/// There is no answer where a move takes a king at the root or, if the
/// search goes that deep, one ply below. Where the position has a value,
/// the answer is that value with the moves that lead to it.
pub open spec fn is_root_reply(s: GameState, depth: nat, r: Option<(Vec<Move>, Score)>) -> bool {
    &&& r matches Some(a) ==> {
        &&& -VALUE_LIMIT <= a.1 <= VALUE_LIMIT
        &&& is_score_below(s, depth, a.1 as int)
        &&& a.0@.no_duplicates()
        &&& forall|k: int| 0 <= k < a.0@.len() ==> legal(s, #[trigger] a.0@[k])
        &&& a.0@.len() == 0 <==> forall|m: Move| !legal(s, m)
        &&& a.0@.len() == 0 ==> a.1 == terminal_value(s, depth)
    }
    &&& king_taken_soon(s, depth) ==> r is None
    &&& node_value(s, depth) is Some ==> (r matches Some(a) && is_root_answer(
        s,
        depth,
        a.0@,
        a.1 as int,
    ))
}

/// The key by which the search orders its moves: the worth of what stands on
/// the target square, the dearest first.
pub open spec fn capture_rank(b: Board, to: Position) -> int {
    -kind_value(piece_kind(b.piece(to.0 as int, to.1 as int) as int))
}

/// The ordering key of a move to `to`.
pub fn capture_key(board: &Board, to: Position) -> (k: isize)
    requires
        valid_pos(to),
        board.wf(),
    ensures
        k == capture_rank(*board, to),
{
    let p = board.at(to);
    assert(valid_piece(board.piece(to.0 as int, to.1 as int) as int));
    let v = p.value_unsigned();
    if v == 10 {
        -10
    } else if v == 30 {
        -30
    } else if v == 50 {
        -50
    } else if v == 90 {
        -90
    } else if v == 10000 {
        -10000
    } else {
        0
    }
}

/// Calls `itertools::Itertools::sorted_unstable_by_key`, with `capture_key`
/// on the target square as the key. Trusted: the result holds the same moves
/// as `moves`, each as often, in ascending order of the key.
#[verifier::external_body]
fn sort_by_capture(moves: Vec<Move>, board: &Board) -> (out: Vec<Move>)
    requires
        board.wf(),
        forall|k: int| 0 <= k < moves@.len() ==> valid_move(#[trigger] moves@[k]),
    ensures
        out@.to_multiset() == moves@.to_multiset(),
        forall|i: int, j: int|
            0 <= i <= j < out@.len() ==> capture_rank(*board, (#[trigger] out@[i]).1)
                <= capture_rank(*board, (#[trigger] out@[j]).1),
{
    moves.into_iter().sorted_unstable_by_key(|&(_, to)| capture_key(board, to)).collect()
}

/// Calls `rayon::slice::ParallelSliceMut::par_sort_unstable_by_key`, with
/// `capture_key` on the target square as the key. Trusted: the list holds
/// the same moves as before, each as often, in ascending order of the key.
#[verifier::external_body]
fn sort_by_capture_in_parallel(moves: &mut Vec<Move>, board: &Board)
    requires
        board.wf(),
        forall|k: int| 0 <= k < old(moves)@.len() ==> valid_move(#[trigger] old(moves)@[k]),
    ensures
        final(moves)@.to_multiset() == old(moves)@.to_multiset(),
        forall|i: int, j: int|
            0 <= i <= j < final(moves)@.len() ==> capture_rank(
                *board,
                (#[trigger] final(moves)@[i]).1,
            ) <= capture_rank(*board, (#[trigger] final(moves)@[j]).1),
{
    moves.par_sort_unstable_by_key(|&(_, to)| capture_key(board, to));
}

/// The moves of `moves`, those that take the dearest piece first.
pub fn order_moves(moves: Vec<Move>, board: &Board) -> (out: Vec<Move>)
    requires
        board.wf(),
        forall|k: int| 0 <= k < moves@.len() ==> valid_move(#[trigger] moves@[k]),
    ensures
        out@.to_multiset() == moves@.to_multiset(),
        out@.len() == moves@.len(),
        forall|m: Move| #[trigger] out@.contains(m) <==> moves@.contains(m),
        forall|i: int, j: int|
            0 <= i <= j < out@.len() ==> capture_rank(*board, (#[trigger] out@[i]).1)
                <= capture_rank(*board, (#[trigger] out@[j]).1),
        moves@.no_duplicates() ==> out@.no_duplicates(),
{
    let ghost before = moves@;
    let out = sort_by_capture(moves, board);
    proof {
        before.to_multiset_ensures();
        out@.to_multiset_ensures();
        if before.no_duplicates() {
            before.lemma_multiset_has_no_duplicates();
            out@.lemma_multiset_has_no_duplicates_conv();
        }
        assert forall|m: Move| #[trigger] out@.contains(m) <==> before.contains(m) by {
            assert(out@.contains(m) <==> out@.to_multiset().count(m) > 0);
            assert(before.contains(m) <==> before.to_multiset().count(m) > 0);
        }
    }
    out
}

/// The moves of `moves`, those that take the dearest piece first, ordered
/// by several workers at once.
pub fn order_moves_in_parallel(moves: Vec<Move>, board: &Board) -> (out: Vec<Move>)
    requires
        board.wf(),
        forall|k: int| 0 <= k < moves@.len() ==> valid_move(#[trigger] moves@[k]),
    ensures
        out@.to_multiset() == moves@.to_multiset(),
        out@.len() == moves@.len(),
        forall|m: Move| #[trigger] out@.contains(m) <==> moves@.contains(m),
        forall|i: int, j: int|
            0 <= i <= j < out@.len() ==> capture_rank(*board, (#[trigger] out@[i]).1)
                <= capture_rank(*board, (#[trigger] out@[j]).1),
        moves@.no_duplicates() ==> out@.no_duplicates(),
{
    let ghost before = moves@;
    let mut out = moves;
    sort_by_capture_in_parallel(&mut out, board);
    proof {
        before.to_multiset_ensures();
        out@.to_multiset_ensures();
        if before.no_duplicates() {
            before.lemma_multiset_has_no_duplicates();
            out@.lemma_multiset_has_no_duplicates_conv();
        }
        assert forall|m: Move| #[trigger] out@.contains(m) <==> before.contains(m) by {
            assert(out@.contains(m) <==> out@.to_multiset().count(m) > 0);
            assert(before.contains(m) <==> before.to_multiset().count(m) > 0);
        }
    }
    out
}

/// A score kept in the table is within the limit and, where the position has
/// a value at that depth, is that value; above the horizon it is kept only
/// for a position in which no move takes a king.
pub open spec fn entry_sound(s: GameState, d: usize, x: Score) -> bool {
    &&& -VALUE_LIMIT <= x <= VALUE_LIMIT
    &&& is_score_below(s, d as nat, x as int)
    &&& node_value(s, d as nat) matches Some(v) ==> v == x
    &&& d > 0 ==> !king_can_be_taken(s)
}

/// Every score that the table keeps is sound.
pub open spec fn table_sound(t: TranspositionTable) -> bool {
    forall|s: GameState, d: usize, x: Score| #[trigger] t.holds(s, d, x) ==> entry_sound(s, d, x)
}

/// What the search below one move of the root has found.
#[derive(Clone, Copy, Debug)]
pub struct RootOutcome {
    pub mv: Move,
    pub score: Score,
    pub num_leafs: usize,
    pub num_skips: usize,
}

/// `o` is what the search below the move `mv` of the position `s` may
/// answer: where the move leads to a value, that value; nothing where the
/// move takes a king or, if the search goes that deep, a move below it does.
pub open spec fn is_outcome(s: GameState, depth: nat, mv: Move, o: Option<RootOutcome>) -> bool {
    &&& o matches Some(x) ==> x.mv == mv && -VALUE_LIMIT <= x.score <= VALUE_LIMIT
        && is_score_below(apply(s, mv), (depth - 1) as nat, x.score as int)
    &&& child_value(s, mv, depth) matches Some(v) ==> (o matches Some(x) && x.score == v)
    &&& removes_king(s, mv) ==> o is None
    &&& depth >= 2 && king_can_be_taken(apply(s, mv)) ==> o is None
}

/// The state of one search: the position, the plies still to search, the
/// counters, and the table of scores found, which is used if `use_table` is set.
pub struct Searcher {
    pub state: GameState,
    pub depth: usize,
    pub num_leafs: usize,
    pub num_skips: usize,
    pub use_table: bool,
    pub table: TranspositionTable,
}

impl Searcher {
    /// The position is well formed, the depth within the proved range, and
    /// the table holds sound scores only.
    pub open spec fn inv(&self) -> bool {
        self.state.wf() && self.depth <= MAX_DEPTH && self.table.wf() && table_sound(self.table)
    }

    pub fn new(state: GameState, depth: usize, use_table: bool) -> (r: Searcher)
        ensures
            r.state == state,
            r.depth == depth,
            r.num_leafs == 0,
            r.num_skips == 0,
            r.use_table == use_table,
            r.table.wf(),
            table_sound(r.table),
    {
        Searcher {
            state,
            depth,
            num_leafs: 0,
            num_skips: 0,
            use_table,
            table: TranspositionTable::new(),
        }
    }

    /// The value of the position when the side to move has no move.
    fn terminal_score(&self) -> (v: Score)
        requires
            self.inv(),
        ensures
            v == terminal_value(self.state, self.depth as nat),
            -VALUE_LIMIT <= v <= VALUE_LIMIT,
    {
        proof {
            reveal(terminal_value);
        }
        let player = self.state.player;
        let king_pos = self.state.board.get_king_pos(player);
        proof {
            lemma_king_square(
                self.state.board,
                player as int,
                king_pos.0 as int,
                king_pos.1 as int,
            );
        }
        if self.state.board.is_checked(king_pos, player) {
            let mate: Score = MATE_SCORE + 10 * (self.depth as Score);
            if player == 1 {
                -mate
            } else {
                mate
            }
        } else {
            0
        }
    }

    /// The moves of the side to move, those that take the dearest piece
    /// first, ordered by several workers at once if `parallel` is set.
    pub fn ordered_moves(&self, parallel: bool) -> (moves: Vec<Move>)
        requires
            self.inv(),
        ensures
            forall|m: Move| #[trigger] moves@.contains(m) <==> legal(self.state, m),
            forall|k: int| 0 <= k < moves@.len() ==> valid_move(#[trigger] moves@[k]),
            forall|i: int, j: int|
                0 <= i <= j < moves@.len() ==> capture_rank(
                    self.state.board,
                    (#[trigger] moves@[i]).1,
                ) <= capture_rank(self.state.board, (#[trigger] moves@[j]).1),
            moves@.no_duplicates(),
    {
        let mut board = self.state.board;
        let rights = self.state.can_castle;
        assert(position(board, self.state.player, rights, self.state.en_passant) == self.state);
        let valid = board.get_valid(self.state.player, &rights, self.state.en_passant);
        proof {
            assert forall|k: int| 0 <= k < valid@.len() implies valid_move(#[trigger] valid@[k]) by {
                assert(valid@.contains(valid@[k]));
                lemma_legal_is_valid(self.state, valid@[k]);
            }
        }
        let moves = if parallel {
            order_moves_in_parallel(valid, &board)
        } else {
            order_moves(valid, &board)
        };
        proof {
            assert forall|k: int| 0 <= k < moves@.len() implies valid_move(#[trigger] moves@[k]) by {
                assert(moves@.contains(moves@[k]));
                lemma_legal_is_valid(self.state, moves@[k]);
            }
        }
        moves
    }

    /// Whether one of the moves `moves` takes a king.
    fn any_takes_king(&self, moves: &Vec<Move>) -> (r: bool)
        requires
            self.state.board.wf(),
            forall|k: int| 0 <= k < moves@.len() ==> valid_move(#[trigger] moves@[k]),
        ensures
            r == exists|k: int|
                0 <= k < moves@.len() && removes_king(self.state, #[trigger] moves@[k]),
    {
        let mut i: usize = 0;
        while i < moves.len()
            invariant
                0 <= i <= moves@.len(),
                self.state.board.wf(),
                forall|k: int| 0 <= k < moves@.len() ==> valid_move(#[trigger] moves@[k]),
                forall|k: int| 0 <= k < i ==> !removes_king(self.state, #[trigger] moves@[k]),
            decreases moves@.len() - i,
        {
            if self.state.takes_king(moves[i]) {
                return true;
            }
            i += 1;
        }
        false
    }

    /// Answers for the position as `recursive_best` does, from the table
    /// where it keeps a score for the position at this depth, and else by
    /// searching; a score that the search has found exactly is kept.
    pub fn search_below(&mut self, alpha: Score, beta: Score) -> (r: Option<Score>)
        requires
            old(self).inv(),
            -SCORE_INF <= alpha < beta <= SCORE_INF,
        ensures
            final(self).state == old(self).state,
            final(self).depth == old(self).depth,
            final(self).use_table == old(self).use_table,
            final(self).num_leafs >= old(self).num_leafs,
            final(self).num_skips >= old(self).num_skips,
            final(self).inv(),
            is_search_answer(
                old(self).state,
                old(self).depth as nat,
                alpha as int,
                beta as int,
                r,
            ),
        decreases old(self).depth, 1int,
    {
        if !self.use_table {
            return self.recursive_best(alpha, beta);
        }
        match self.table.lookup(&self.state, self.depth) {
            Some(score) => {
                proof {
                    assert(entry_sound(self.state, self.depth, score));
                    if self.depth == 0 {
                        lemma_leaf_value(self.state);
                    } else if forall|m: Move| !legal(self.state, m) {
                        lemma_terminal_value(self.state, self.depth as nat);
                    }
                }
                self.num_skips = self.num_skips.saturating_add(1);
                Some(score)
            },
            None => {
                let found = self.recursive_best(alpha, beta);
                if let Some(score) = found {
                    if self.depth == 0 || (alpha < score && score < beta) {
                        proof {
                            if self.depth == 0 {
                                lemma_leaf_value(self.state);
                            }
                        }
                        self.table.store(self.state, self.depth, score);
                    }
                }
                found
            },
        }
    }

    /// Searches the position `depth` plies deep with the window `(alpha,
    /// beta)` and leaves the searcher as it was but for its counters, which
    /// do not fall, and its table. At the horizon the answer is the static
    /// evaluation and one leaf more is counted. Above it the answer is the
    /// terminal value where the side to move has no move, and none where
    /// one of its moves takes a king. Where the position has a value, the
    /// answer is that value if it lies inside the window, and else a bound
    /// on the same side of the window as the value. The answer is none only
    /// where some move within the horizon takes a king.
    pub fn recursive_best(&mut self, alpha: Score, beta: Score) -> (r: Option<Score>)
        requires
            old(self).inv(),
            -SCORE_INF <= alpha < beta <= SCORE_INF,
        ensures
            final(self).state == old(self).state,
            final(self).depth == old(self).depth,
            final(self).use_table == old(self).use_table,
            final(self).num_leafs >= old(self).num_leafs,
            final(self).num_skips >= old(self).num_skips,
            old(self).depth == 0 ==> final(self).num_skips == old(self).num_skips,
            old(self).depth == 0 ==> final(self).num_leafs == (if old(self).num_leafs
                < usize::MAX {
                old(self).num_leafs + 1
            } else {
                old(self).num_leafs as int
            }),
            final(self).inv(),
            is_search_answer(
                old(self).state,
                old(self).depth as nat,
                alpha as int,
                beta as int,
                r,
            ),
        decreases old(self).depth, 0int,
    {
        let ghost s = self.state;
        let ghost d = self.depth as nat;
        if self.depth == 0 {
            self.num_leafs = self.num_leafs.saturating_add(1);
            proof {
                lemma_leaf_value(s);
                lemma_score_at_horizon(s, static_score(s.board, -s.player));
            }
            return Some(score1(&self.state.board, -self.state.player));
        }
        let moves = self.ordered_moves(false);
        if moves.len() == 0 {
            proof {
                assert forall|m: Move| !legal(s, m) by {
                    assert(!moves@.contains(m));
                }
                lemma_terminal_value(s, d);
                lemma_score_without_move(s, d, terminal_value(s, d));
            }
            return Some(self.terminal_score());
        }
        if self.any_takes_king(&moves) {
            proof {
                let k = choose|k: int|
                    0 <= k < moves@.len() && removes_king(s, #[trigger] moves@[k]);
                assert(moves@.contains(moves@[k]));
                if node_value(s, d) is Some {
                    lemma_children_have_values(s, d, moves@[k]);
                }
            }
            return None;
        }
        proof {
            assert(moves@.contains(moves@[0]));
            assert forall|m: Move| #[trigger] legal(s, m) implies !removes_king(s, m) by {
                assert(moves@.contains(m));
                let k = choose|k: int| 0 <= k < moves@.len() && moves@[k] == m;
                assert(!removes_king(s, moves@[k]));
            }
        }
        let white = self.state.player == 1;
        let mut best: Score = if white {
            -SCORE_INF
        } else {
            SCORE_INF
        };
        let mut lo: Score = alpha;
        let mut hi: Score = beta;
        let mut i: usize = 0;
        let mut cut = false;
        while i < moves.len() && !cut
            invariant
                0 <= i <= moves@.len(),
                moves@.len() > 0,
                self.state == s,
                self.depth == d,
                s == old(self).state,
                d == old(self).depth,
                self.use_table == old(self).use_table,
                self.num_leafs >= old(self).num_leafs,
                self.num_skips >= old(self).num_skips,
                self.table.wf(),
                table_sound(self.table),
                !king_can_be_taken(s),
                exists|m: Move| legal(s, m),
                forall|k: int| 0 <= k < moves@.len() ==> !removes_king(s, #[trigger] moves@[k]),
                d > 0,
                s.wf(),
                d <= MAX_DEPTH,
                white == (s.player == 1),
                forall|m: Move| #[trigger] moves@.contains(m) <==> legal(s, m),
                forall|k: int| 0 <= k < moves@.len() ==> valid_move(#[trigger] moves@[k]),
                -SCORE_INF <= alpha < beta <= SCORE_INF,
                alpha <= lo,
                hi <= beta,
                !cut ==> lo < hi,
                i == 0 ==> best == (if white {
                    -SCORE_INF
                } else {
                    SCORE_INF as int
                }) && !cut,
                i > 0 ==> -VALUE_LIMIT <= best <= VALUE_LIMIT,
                i > 0 ==> is_score_below(s, d, best as int),
                white ==> hi == beta,
                !white ==> lo == alpha,
                white && !cut ==> lo == (if best > alpha {
                    best
                } else {
                    alpha
                }),
                !white && !cut ==> hi == (if best < beta {
                    best
                } else {
                    beta
                }),
                cut ==> i > 0 && (if white {
                    best >= beta
                } else {
                    best <= alpha
                }),
                node_value(s, d) is Some ==> forall|k: int|
                    0 <= k < i ==> (#[trigger] child_value(s, moves@[k], d)) is Some,
                node_value(s, d) is Some && white && best > alpha && !cut ==> (exists|k: int|
                    0 <= k < i && #[trigger] child_value(s, moves@[k], d) == Some(best as int))
                    && (forall|k: int|
                    0 <= k < i ==> (#[trigger] child_value(s, moves@[k], d))->0 <= best),
                node_value(s, d) is Some && white && best <= alpha ==> forall|k: int|
                    0 <= k < i ==> (#[trigger] child_value(s, moves@[k], d))->0 <= best,
                node_value(s, d) is Some && white && cut ==> exists|k: int|
                    0 <= k < i && (#[trigger] child_value(s, moves@[k], d))->0 >= best,
                node_value(s, d) is Some && !white && best < beta && !cut ==> (exists|k: int|
                    0 <= k < i && #[trigger] child_value(s, moves@[k], d) == Some(best as int))
                    && (forall|k: int|
                    0 <= k < i ==> (#[trigger] child_value(s, moves@[k], d))->0 >= best),
                node_value(s, d) is Some && !white && best >= beta ==> forall|k: int|
                    0 <= k < i ==> (#[trigger] child_value(s, moves@[k], d))->0 >= best,
                node_value(s, d) is Some && !white && cut ==> exists|k: int|
                    0 <= k < i && (#[trigger] child_value(s, moves@[k], d))->0 <= best,
            decreases moves@.len() - i, (if cut { 0int } else { 1int }),
        {
            let mv = moves[i];
            proof {
                assert(moves@.contains(mv));
                lemma_legal_is_valid(s, mv);
                if node_value(s, d) is Some {
                    lemma_children_have_values(s, d, mv);
                }
            }
            let status = self.state.do_move(mv);
            self.depth = self.depth - 1;
            proof {
                lemma_legal_is_pseudo_legal(s, mv);
                lemma_apply_wf(s, mv);
            }
            let below = self.search_below(lo, hi);
            self.depth = self.depth + 1;
            self.state.undo_move(mv, status);
            proof {
                lemma_undo_restores(s, mv);
            }
            let score = match below {
                None => {
                    return None;
                },
                Some(score) => score,
            };
            proof {
                lemma_score_below_move(s, d, mv, score as int);
            }
            let ghost c = child_value(s, mv, d);
            let ghost old_best = best;
            if white {
                best = max_score(best, score);
                if best >= hi {
                    cut = true;
                } else {
                    lo = max_score(best, lo);
                }
            } else {
                best = min_score(best, score);
                if best <= lo {
                    cut = true;
                } else {
                    hi = min_score(best, hi);
                }
            }
            proof {
                if node_value(s, d) is Some {
                    let v = c->0;
                    assert(c == Some(v));
                    assert(child_value(s, moves@[i as int], d) == Some(v));
                    if white {
                        if cut {
                            assert(child_value(s, moves@[i as int], d)->0 >= best);
                        } else if best > alpha {
                            if score > old_best {
                                assert(child_value(s, moves@[i as int], d) == Some(best as int));
                            } else {
                                let k0 = choose|k: int|
                                    0 <= k < i && #[trigger] child_value(s, moves@[k], d) == Some(
                                        best as int,
                                    );
                                assert(0 <= k0 < i + 1 && child_value(s, moves@[k0], d) == Some(
                                    best as int,
                                ));
                            }
                        }
                    } else {
                        if cut {
                            assert(child_value(s, moves@[i as int], d)->0 <= best);
                        } else if best < beta {
                            if score < old_best {
                                assert(child_value(s, moves@[i as int], d) == Some(best as int));
                            } else {
                                let k0 = choose|k: int|
                                    0 <= k < i && #[trigger] child_value(s, moves@[k], d) == Some(
                                        best as int,
                                    );
                                assert(0 <= k0 < i + 1 && child_value(s, moves@[k0], d) == Some(
                                    best as int,
                                ));
                            }
                        }
                    }
                }
            }
            i = i + 1;
        }
        proof {
            if node_value(s, d) is Some {
                lemma_window_answer(s, d, moves@, i as int, cut, alpha as int, beta as int, best as int);
            }
        }
        Some(best)
    }

    /// Searches the position `depth` plies deep and answers with its value
    /// and the moves that lead to it; without a move, with the terminal
    /// value and no move. The searcher is left as it was but for its
    /// counters and its table. The answer is none only where some move
    /// within the horizon takes a king.
    pub fn best_moves(&mut self) -> (r: Option<(Vec<Move>, Score)>)
        requires
            old(self).inv(),
            old(self).depth >= 1,
        ensures
            final(self).state == old(self).state,
            final(self).depth == old(self).depth,
            final(self).use_table == old(self).use_table,
            final(self).num_leafs >= old(self).num_leafs,
            final(self).num_skips >= old(self).num_skips,
            final(self).inv(),
            is_root_reply(old(self).state, old(self).depth as nat, r),
            r matches Some(a) ==> forall|i: int, j: int|
                0 <= i <= j < a.0@.len() ==> capture_rank(
                    old(self).state.board,
                    (#[trigger] a.0@[i]).1,
                ) <= capture_rank(old(self).state.board, (#[trigger] a.0@[j]).1),
    {
        let ghost s = self.state;
        let ghost d = self.depth as nat;
        let moves = self.ordered_moves(false);
        let mut best_moves: Vec<Move> = Vec::new();
        if moves.len() == 0 {
            proof {
                assert forall|m: Move| !legal(s, m) by {
                    assert(!moves@.contains(m));
                }
                lemma_terminal_value(s, d);
                lemma_score_without_move(s, d, terminal_value(s, d));
            }
            return Some((best_moves, self.terminal_score()));
        }
        if self.any_takes_king(&moves) {
            proof {
                let k = choose|k: int|
                    0 <= k < moves@.len() && removes_king(s, #[trigger] moves@[k]);
                assert(moves@.contains(moves@[k]));
                if node_value(s, d) is Some {
                    lemma_children_have_values(s, d, moves@[k]);
                }
            }
            return None;
        }
        proof {
            assert(moves@.contains(moves@[0]));
            assert forall|m: Move| #[trigger] legal(s, m) implies !removes_king(s, m) by {
                assert(moves@.contains(m));
                let k = choose|k: int| 0 <= k < moves@.len() && moves@[k] == m;
                assert(!removes_king(s, moves@[k]));
            }
        }
        let white = self.state.player == 1;
        let mut best: Score = if white {
            -SCORE_INF
        } else {
            SCORE_INF
        };
        let mut i: usize = 0;
        while i < moves.len()
            invariant
                0 <= i <= moves@.len(),
                moves@.len() > 0,
                self.state == s,
                self.depth == d,
                s == old(self).state,
                d == old(self).depth,
                self.use_table == old(self).use_table,
                self.num_leafs >= old(self).num_leafs,
                self.num_skips >= old(self).num_skips,
                self.table.wf(),
                table_sound(self.table),
                !king_can_be_taken(s),
                exists|m: Move| legal(s, m),
                forall|k: int| 0 <= k < moves@.len() ==> !removes_king(s, #[trigger] moves@[k]),
                i > 0 ==> best_moves@.len() > 0,
                d >= 2 ==> forall|k: int|
                    0 <= k < i ==> !king_can_be_taken(apply(s, #[trigger] moves@[k])),
                d > 0,
                s.wf(),
                d <= MAX_DEPTH,
                white == (s.player == 1),
                forall|m: Move| #[trigger] moves@.contains(m) <==> legal(s, m),
                forall|k: int| 0 <= k < moves@.len() ==> valid_move(#[trigger] moves@[k]),
                i == 0 ==> best == (if white {
                    -SCORE_INF
                } else {
                    SCORE_INF as int
                }) && best_moves@.len() == 0,
                i > 0 ==> -VALUE_LIMIT <= best <= VALUE_LIMIT,
                i > 0 ==> is_score_below(s, d, best as int),
                forall|k: int| 0 <= k < best_moves@.len() ==> legal(s, #[trigger] best_moves@[k]),
                moves@.no_duplicates(),
                best_moves@.no_duplicates(),
                forall|k: int|
                    0 <= k < best_moves@.len() ==> exists|j: int|
                        0 <= j < i && moves@[j] == #[trigger] best_moves@[k],
                forall|i: int, j: int|
                    0 <= i <= j < moves@.len() ==> capture_rank(s.board, (#[trigger] moves@[i]).1)
                        <= capture_rank(s.board, (#[trigger] moves@[j]).1),
                forall|i: int, j: int|
                    0 <= i <= j < best_moves@.len() ==> capture_rank(
                        s.board,
                        (#[trigger] best_moves@[i]).1,
                    ) <= capture_rank(s.board, (#[trigger] best_moves@[j]).1),
                forall|k: int, j: int|
                    0 <= k < best_moves@.len() && i <= j < moves@.len() ==> capture_rank(
                        s.board,
                        (#[trigger] best_moves@[k]).1,
                    ) <= capture_rank(s.board, (#[trigger] moves@[j]).1),
                node_value(s, d) is Some ==> forall|k: int|
                    0 <= k < i ==> (#[trigger] child_value(s, moves@[k], d)) is Some,
                node_value(s, d) is Some && i > 0 ==> exists|k: int|
                    0 <= k < i && #[trigger] child_value(s, moves@[k], d) == Some(best as int),
                node_value(s, d) is Some ==> forall|k: int|
                    0 <= k < i ==> no_worse(
                        s,
                        best as int,
                        (#[trigger] child_value(s, moves@[k], d))->0,
                    ),
                node_value(s, d) is Some ==> forall|m: Move| #[trigger]
                    best_moves@.contains(m) <==> exists|k: int|
                        0 <= k < i && moves@[k] == m && #[trigger] child_value(s, moves@[k], d)
                            == Some(best as int),
            decreases moves@.len() - i,
        {
            let mv = moves[i];
            proof {
                assert(moves@.contains(mv));
                lemma_legal_is_valid(s, mv);
                if node_value(s, d) is Some {
                    lemma_children_have_values(s, d, mv);
                }
            }
            let status = self.state.do_move(mv);
            self.depth = self.depth - 1;
            proof {
                lemma_legal_is_pseudo_legal(s, mv);
                lemma_apply_wf(s, mv);
            }
            let below = self.search_below(-SCORE_INF, SCORE_INF);
            self.depth = self.depth + 1;
            self.state.undo_move(mv, status);
            proof {
                lemma_undo_restores(s, mv);
            }
            let score = match below {
                None => {
                    return None;
                },
                Some(score) => score,
            };
            proof {
                lemma_score_below_move(s, d, mv, score as int);
            }
            let ghost old_best = best;
            let ghost old_moves = best_moves@;
            let better = if white {
                score > best
            } else {
                score < best
            };
            if better {
                best_moves = Vec::new();
                best = score;
            }
            if score == best {
                let ghost before = best_moves@;
                best_moves.push(mv);
                proof {
                    assert forall|k: int| 0 <= k < best_moves@.len() implies legal(
                        s,
                        #[trigger] best_moves@[k],
                    ) by {
                        if k < before.len() {
                            assert(before[k] == best_moves@[k]);
                        }
                    }
                    assert forall|a: int, b: int|
                        0 <= a < best_moves@.len() && 0 <= b < best_moves@.len() && a
                            != b implies best_moves@[a] != best_moves@[b] by {
                        if a < before.len() && b < before.len() {
                            assert(before[a] == best_moves@[a] && before[b] == best_moves@[b]);
                        } else if a < before.len() {
                            assert(before[a] == best_moves@[a]);
                            let j = choose|j: int| 0 <= j < i && moves@[j] == before[a];
                            assert(moves@[j] != moves@[i as int]);
                        } else if b < before.len() {
                            assert(before[b] == best_moves@[b]);
                            let j = choose|j: int| 0 <= j < i && moves@[j] == before[b];
                            assert(moves@[j] != moves@[i as int]);
                        }
                    }
                    assert forall|k: int| 0 <= k < best_moves@.len() implies exists|j: int|
                        0 <= j < i + 1 && moves@[j] == #[trigger] best_moves@[k] by {
                        if k < before.len() {
                            assert(before[k] == best_moves@[k]);
                            let j = choose|j: int| 0 <= j < i && moves@[j] == before[k];
                            assert(0 <= j < i + 1 && moves@[j] == best_moves@[k]);
                        } else {
                            assert(0 <= i < i + 1 && moves@[i as int] == best_moves@[k]);
                        }
                    }
                    assert forall|a: int, b: int|
                        0 <= a <= b < best_moves@.len() implies capture_rank(
                        s.board,
                        (#[trigger] best_moves@[a]).1,
                    ) <= capture_rank(s.board, (#[trigger] best_moves@[b]).1) by {
                        if a < before.len() {
                            assert(before[a] == best_moves@[a]);
                        }
                        if b < before.len() {
                            assert(before[b] == best_moves@[b]);
                        }
                        assert(best_moves@[before.len() as int] == moves@[i as int]);
                    }
                    assert forall|k: int, j: int|
                        0 <= k < best_moves@.len() && i + 1 <= j < moves@.len() implies capture_rank(
                        s.board,
                        (#[trigger] best_moves@[k]).1,
                    ) <= capture_rank(s.board, (#[trigger] moves@[j]).1) by {
                        if k < before.len() {
                            assert(before[k] == best_moves@[k]);
                        } else {
                            assert(best_moves@[k] == moves@[i as int]);
                        }
                    }
                }
            }
            proof {
                if node_value(s, d) is Some {
                    assert(child_value(s, moves@[i as int], d) == Some(score as int));
                    if score == best {
                        assert(child_value(s, moves@[i as int], d) == Some(best as int));
                    } else {
                        let k0 = choose|k: int|
                            0 <= k < i && #[trigger] child_value(s, moves@[k], d) == Some(
                                old_best as int,
                            );
                        assert(0 <= k0 < i + 1 && child_value(s, moves@[k0], d) == Some(
                            best as int,
                        ));
                    }
                    assert forall|k: int| 0 <= k < i + 1 implies no_worse(
                        s,
                        best as int,
                        (#[trigger] child_value(s, moves@[k], d))->0,
                    ) by {
                        if k < i {
                            assert(no_worse(s, old_best as int, child_value(s, moves@[k], d)->0));
                        }
                    }
                    assert forall|m: Move| #[trigger]
                        best_moves@.contains(m) <==> exists|k: int|
                            0 <= k < i + 1 && moves@[k] == m && #[trigger] child_value(
                                s,
                                moves@[k],
                                d,
                            ) == Some(best as int) by {
                        lemma_tied_moves(
                            s,
                            d,
                            moves@,
                            i as int,
                            old_moves,
                            best_moves@,
                            old_best as int,
                            best as int,
                            score as int,
                            m,
                        );
                    }
                }
            }
            i = i + 1;
        }
        proof {
            if node_value(s, d) is Some {
                lemma_root_answer(s, d, moves@, best_moves@, best as int);
            }
            assert forall|m: Move| #[trigger] legal(s, m) implies !(d >= 2 && king_can_be_taken(
                apply(s, m),
            )) by {
                assert(moves@.contains(m));
                let k = choose|k: int| 0 <= k < moves@.len() && moves@[k] == m;
                assert(d >= 2 ==> !king_can_be_taken(apply(s, moves@[k])));
            }
        }
        Some((best_moves, best))
    }

    /// Searches the position that the move `mv` leads to, in a searcher of
    /// its own with a table of its own, and answers with the value found.
    pub fn explore(&self, mv: Move) -> (r: Option<RootOutcome>)
        requires
            self.inv(),
            self.depth >= 1,
            legal(self.state, mv),
        ensures
            is_outcome(self.state, self.depth as nat, mv, r),
    {
        proof {
            lemma_legal_is_valid(self.state, mv);
            lemma_legal_is_pseudo_legal(self.state, mv);
        }
        if self.state.takes_king(mv) {
            proof {
                reveal(child_value);
            }
            return None;
        }
        let mut task = Searcher::new(self.state, self.depth - 1, true);
        let _ = task.state.do_move(mv);
        proof {
            lemma_apply_wf(self.state, mv);
        }
        match task.search_below(-SCORE_INF, SCORE_INF) {
            None => None,
            Some(score) => Some(
                RootOutcome { mv, score, num_leafs: task.num_leafs, num_skips: task.num_skips },
            ),
        }
    }

    /// Puts together what was found for each of the moves `moves` of the
    /// position: the value of the position and the moves that lead to it,
    /// with the same rule for equally good moves as `best_moves` has.
    pub fn merge_outcomes(&mut self, moves: &Vec<Move>, outcomes: &Vec<Option<RootOutcome>>) -> (r:
        Option<(Vec<Move>, Score)>)
        requires
            old(self).inv(),
            old(self).depth >= 1,
            forall|m: Move| #[trigger] moves@.contains(m) <==> legal(old(self).state, m),
            moves@.no_duplicates(),
            outcomes@.len() == moves@.len(),
            forall|k: int|
                0 <= k < moves@.len() ==> is_outcome(
                    old(self).state,
                    old(self).depth as nat,
                    #[trigger] moves@[k],
                    outcomes@[k],
                ),
        ensures
            final(self).state == old(self).state,
            final(self).depth == old(self).depth,
            final(self).use_table == old(self).use_table,
            final(self).num_leafs >= old(self).num_leafs,
            final(self).num_skips >= old(self).num_skips,
            final(self).inv(),
            is_root_reply(old(self).state, old(self).depth as nat, r),
            r is None <==> exists|k: int| 0 <= k < outcomes@.len() && (#[trigger] outcomes@[k]) is None,
    {
        let ghost s = self.state;
        let ghost d = self.depth as nat;
        let mut best_moves: Vec<Move> = Vec::new();
        if moves.len() == 0 {
            proof {
                assert forall|m: Move| !legal(s, m) by {
                    assert(!moves@.contains(m));
                }
                lemma_terminal_value(s, d);
                lemma_score_without_move(s, d, terminal_value(s, d));
            }
            return Some((best_moves, self.terminal_score()));
        }
        let white = self.state.player == 1;
        let mut best: Score = if white {
            -SCORE_INF
        } else {
            SCORE_INF
        };
        let mut i: usize = 0;
        while i < moves.len()
            invariant
                0 <= i <= moves@.len(),
                moves@.len() > 0,
                outcomes@.len() == moves@.len(),
                self.state == s,
                self.depth == d,
                s == old(self).state,
                d == old(self).depth,
                self.use_table == old(self).use_table,
                self.num_leafs >= old(self).num_leafs,
                self.num_skips >= old(self).num_skips,
                self.table.wf(),
                table_sound(self.table),
                forall|k: int| 0 <= k < i ==> (#[trigger] outcomes@[k]) is Some,
                i > 0 ==> best_moves@.len() > 0,
                d > 0,
                s.wf(),
                d <= MAX_DEPTH,
                white == (s.player == 1),
                forall|m: Move| #[trigger] moves@.contains(m) <==> legal(s, m),
                forall|k: int|
                    0 <= k < moves@.len() ==> is_outcome(s, d, #[trigger] moves@[k], outcomes@[k]),
                i == 0 ==> best == (if white {
                    -SCORE_INF
                } else {
                    SCORE_INF as int
                }) && best_moves@.len() == 0,
                i > 0 ==> -VALUE_LIMIT <= best <= VALUE_LIMIT,
                i > 0 ==> is_score_below(s, d, best as int),
                forall|k: int| 0 <= k < best_moves@.len() ==> legal(s, #[trigger] best_moves@[k]),
                moves@.no_duplicates(),
                best_moves@.no_duplicates(),
                forall|k: int|
                    0 <= k < best_moves@.len() ==> exists|j: int|
                        0 <= j < i && moves@[j] == #[trigger] best_moves@[k],
                node_value(s, d) is Some ==> forall|k: int|
                    0 <= k < i ==> (#[trigger] child_value(s, moves@[k], d)) is Some,
                node_value(s, d) is Some && i > 0 ==> exists|k: int|
                    0 <= k < i && #[trigger] child_value(s, moves@[k], d) == Some(best as int),
                node_value(s, d) is Some ==> forall|k: int|
                    0 <= k < i ==> no_worse(
                        s,
                        best as int,
                        (#[trigger] child_value(s, moves@[k], d))->0,
                    ),
                node_value(s, d) is Some ==> forall|m: Move| #[trigger]
                    best_moves@.contains(m) <==> exists|k: int|
                        0 <= k < i && moves@[k] == m && #[trigger] child_value(s, moves@[k], d)
                            == Some(best as int),
            decreases moves@.len() - i,
        {
            let mv = moves[i];
            proof {
                assert(moves@.contains(mv));
                assert(is_outcome(s, d, moves@[i as int], outcomes@[i as int]));
                if node_value(s, d) is Some {
                    lemma_children_have_values(s, d, mv);
                }
            }
            let outcome = match outcomes[i] {
                None => {
                    return None;
                },
                Some(outcome) => outcome,
            };
            let score = outcome.score;
            self.num_leafs = self.num_leafs.saturating_add(outcome.num_leafs);
            self.num_skips = self.num_skips.saturating_add(outcome.num_skips);
            proof {
                lemma_score_below_move(s, d, mv, score as int);
            }
            let ghost old_best = best;
            let ghost old_moves = best_moves@;
            let better = if white {
                score > best
            } else {
                score < best
            };
            if better {
                best_moves = Vec::new();
                best = score;
            }
            if score == best {
                let ghost before = best_moves@;
                best_moves.push(mv);
                proof {
                    assert forall|k: int| 0 <= k < best_moves@.len() implies legal(
                        s,
                        #[trigger] best_moves@[k],
                    ) by {
                        if k < before.len() {
                            assert(before[k] == best_moves@[k]);
                        }
                    }
                    assert forall|a: int, b: int|
                        0 <= a < best_moves@.len() && 0 <= b < best_moves@.len() && a
                            != b implies best_moves@[a] != best_moves@[b] by {
                        if a < before.len() && b < before.len() {
                            assert(before[a] == best_moves@[a] && before[b] == best_moves@[b]);
                        } else if a < before.len() {
                            assert(before[a] == best_moves@[a]);
                            let j = choose|j: int| 0 <= j < i && moves@[j] == before[a];
                            assert(moves@[j] != moves@[i as int]);
                        } else if b < before.len() {
                            assert(before[b] == best_moves@[b]);
                            let j = choose|j: int| 0 <= j < i && moves@[j] == before[b];
                            assert(moves@[j] != moves@[i as int]);
                        }
                    }
                    assert forall|k: int| 0 <= k < best_moves@.len() implies exists|j: int|
                        0 <= j < i + 1 && moves@[j] == #[trigger] best_moves@[k] by {
                        if k < before.len() {
                            assert(before[k] == best_moves@[k]);
                            let j = choose|j: int| 0 <= j < i && moves@[j] == before[k];
                            assert(0 <= j < i + 1 && moves@[j] == best_moves@[k]);
                        } else {
                            assert(0 <= i < i + 1 && moves@[i as int] == best_moves@[k]);
                        }
                    }
                }
            }
            proof {
                if node_value(s, d) is Some {
                    assert(child_value(s, moves@[i as int], d) == Some(score as int));
                    if score == best {
                        assert(child_value(s, moves@[i as int], d) == Some(best as int));
                    } else {
                        let k0 = choose|k: int|
                            0 <= k < i && #[trigger] child_value(s, moves@[k], d) == Some(
                                old_best as int,
                            );
                        assert(0 <= k0 < i + 1 && child_value(s, moves@[k0], d) == Some(
                            best as int,
                        ));
                    }
                    assert forall|k: int| 0 <= k < i + 1 implies no_worse(
                        s,
                        best as int,
                        (#[trigger] child_value(s, moves@[k], d))->0,
                    ) by {
                        if k < i {
                            assert(no_worse(s, old_best as int, child_value(s, moves@[k], d)->0));
                        }
                    }
                    assert forall|m: Move| #[trigger]
                        best_moves@.contains(m) <==> exists|k: int|
                            0 <= k < i + 1 && moves@[k] == m && #[trigger] child_value(
                                s,
                                moves@[k],
                                d,
                            ) == Some(best as int) by {
                        lemma_tied_moves(
                            s,
                            d,
                            moves@,
                            i as int,
                            old_moves,
                            best_moves@,
                            old_best as int,
                            best as int,
                            score as int,
                            m,
                        );
                    }
                }
            }
            i = i + 1;
        }
        proof {
            if node_value(s, d) is Some {
                lemma_root_answer(s, d, moves@, best_moves@, best as int);
            }
            assert(moves@.contains(moves@[0]));
            assert forall|m: Move| #[trigger] legal(s, m) implies !removes_king(s, m) && !(d >= 2
                && king_can_be_taken(apply(s, m))) by {
                assert(moves@.contains(m));
                let k = choose|k: int| 0 <= k < moves@.len() && moves@[k] == m;
                assert(is_outcome(s, d, moves@[k], outcomes@[k]));
                assert(outcomes@[k] is Some);
            }
        }
        Some((best_moves, best))
    }
}

/// A move that the generator offers obeys the movement rules.
pub proof fn lemma_legal_is_pseudo_legal(s: GameState, m: Move)
    requires
        legal(s, m),
    ensures
        pseudo_legal(s, m),
{
    reveal(legal);
}

/// A move that the generator offers stays on the board.
pub proof fn lemma_legal_is_valid(s: GameState, m: Move)
    requires
        legal(s, m),
    ensures
        valid_move(m),
{
    reveal(legal);
}

/// What the loop of the search has found when it ends answers to the window.
proof fn lemma_window_answer(
    s: GameState,
    d: nat,
    moves: Seq<Move>,
    i: int,
    cut: bool,
    alpha: int,
    beta: int,
    best: int,
)
    requires
        d > 0,
        moves.len() > 0,
        0 < i <= moves.len(),
        !cut ==> i == moves.len(),
        alpha < beta,
        forall|m: Move| #[trigger] moves.contains(m) <==> legal(s, m),
        node_value(s, d) is Some,
        cut ==> (if s.player == 1 {
            best >= beta
        } else {
            best <= alpha
        }),
        forall|k: int| 0 <= k < i ==> (#[trigger] child_value(s, moves[k], d)) is Some,
        s.player == 1 && best > alpha && !cut ==> (exists|k: int|
            0 <= k < i && #[trigger] child_value(s, moves[k], d) == Some(best)) && (forall|k: int|
            0 <= k < i ==> (#[trigger] child_value(s, moves[k], d))->0 <= best),
        s.player == 1 && best <= alpha ==> forall|k: int|
            0 <= k < i ==> (#[trigger] child_value(s, moves[k], d))->0 <= best,
        s.player == 1 && cut ==> exists|k: int|
            0 <= k < i && (#[trigger] child_value(s, moves[k], d))->0 >= best,
        s.player != 1 && best < beta && !cut ==> (exists|k: int|
            0 <= k < i && #[trigger] child_value(s, moves[k], d) == Some(best)) && (forall|k: int|
            0 <= k < i ==> (#[trigger] child_value(s, moves[k], d))->0 >= best),
        s.player != 1 && best >= beta ==> forall|k: int|
            0 <= k < i ==> (#[trigger] child_value(s, moves[k], d))->0 >= best,
        s.player != 1 && cut ==> exists|k: int|
            0 <= k < i && (#[trigger] child_value(s, moves[k], d))->0 <= best,
        !cut && s.player == 1 ==> best < beta,
        !cut && s.player != 1 ==> best > alpha,
    ensures
        window_result(node_value(s, d)->0, alpha, beta, best),
{
    assert forall|k: int| 0 <= k < moves.len() implies (#[trigger] child_value(s, moves[k], d)) is Some by {
        assert(moves.contains(moves[k]));
        lemma_children_have_values(s, d, moves[k]);
    }
    lemma_node_value_is_best(s, d, moves);
    let v = node_value(s, d)->0;
    let w = choose|m: Move| #[trigger] legal(s, m) && child_value(s, m, d) == Some(v);
    assert(moves.contains(w));
    let kw = choose|k: int| 0 <= k < moves.len() && moves[k] == w;
    assert(child_value(s, moves[kw], d) == Some(v));
    if cut {
        if s.player == 1 {
            let k = choose|k: int| 0 <= k < i && (#[trigger] child_value(s, moves[k], d))->0 >= best;
            assert(moves.contains(moves[k]));
            assert(legal(s, moves[k]));
        } else {
            let k = choose|k: int| 0 <= k < i && (#[trigger] child_value(s, moves[k], d))->0 <= best;
            assert(moves.contains(moves[k]));
            assert(legal(s, moves[k]));
        }
    } else {
        if s.player == 1 {
            if best > alpha {
                let k = choose|k: int| 0 <= k < i && #[trigger] child_value(s, moves[k], d) == Some(best);
                assert(moves.contains(moves[k]));
                assert(legal(s, moves[k]));
            }
        } else {
            if best < beta {
                let k = choose|k: int| 0 <= k < i && #[trigger] child_value(s, moves[k], d) == Some(best);
                assert(moves.contains(moves[k]));
                assert(legal(s, moves[k]));
            }
        }
    }
}


/// The list of the best moves after one more move has been searched: the
/// move alone if it is better than all before, the list with the move added
/// if it is as good, the list as it was if it is worse.
proof fn lemma_tied_moves(
    s: GameState,
    d: nat,
    moves: Seq<Move>,
    i: int,
    old_list: Seq<Move>,
    new_list: Seq<Move>,
    old_best: int,
    best: int,
    score: int,
    m: Move,
)
    requires
        0 <= i < moves.len(),
        child_value(s, moves[i], d) == Some(score),
        forall|k: int| 0 <= k < i ==> (#[trigger] child_value(s, moves[k], d)) is Some,
        forall|k: int|
            0 <= k < i ==> no_worse(s, old_best, (#[trigger] child_value(s, moves[k], d))->0),
        forall|z: Move| #[trigger]
            old_list.contains(z) <==> exists|k: int|
                0 <= k < i && moves[k] == z && #[trigger] child_value(s, moves[k], d) == Some(
                    old_best,
                ),
        (if s.player == 1 {
            score > old_best
        } else {
            score < old_best
        }) ==> best == score && new_list == seq![moves[i]],
        score == old_best ==> best == score && new_list == old_list.push(moves[i]),
        (if s.player == 1 {
            score < old_best
        } else {
            score > old_best
        }) ==> best == old_best && new_list == old_list,
    ensures
        new_list.contains(m) <==> exists|k: int|
            0 <= k < i + 1 && moves[k] == m && #[trigger] child_value(s, moves[k], d) == Some(best),
{
    let better = if s.player == 1 {
        score > old_best
    } else {
        score < old_best
    };
    if exists|k: int|
        0 <= k < i + 1 && moves[k] == m && #[trigger] child_value(s, moves[k], d) == Some(best) {
        let k = choose|k: int|
            0 <= k < i + 1 && moves[k] == m && #[trigger] child_value(s, moves[k], d) == Some(best);
        if k < i {
            assert(no_worse(s, old_best, child_value(s, moves[k], d)->0));
            assert(!better);
            assert(best == old_best);
            assert(0 <= k < i && moves[k] == m && child_value(s, moves[k], d) == Some(old_best));
            assert(old_list.contains(m));
            if score == old_best {
                let j = choose|j: int| 0 <= j < old_list.len() && old_list[j] == m;
                assert(new_list[j] == m);
            }
        } else {
            assert(k == i);
            assert(score == best);
            if better {
                assert(new_list[0] == m);
            } else {
                assert(new_list[old_list.len() as int] == m);
            }
        }
    }
    if new_list.contains(m) {
        let j = choose|j: int| 0 <= j < new_list.len() && new_list[j] == m;
        if better {
            assert(m == moves[i]);
            assert(0 <= i < i + 1 && moves[i] == m && child_value(s, moves[i], d) == Some(best));
        } else if score == old_best {
            if j < old_list.len() {
                assert(old_list[j] == m);
                assert(old_list.contains(m));
                let k = choose|k: int|
                    0 <= k < i && moves[k] == m && #[trigger] child_value(s, moves[k], d) == Some(
                        old_best,
                    );
                assert(0 <= k < i + 1 && moves[k] == m && child_value(s, moves[k], d) == Some(best));
            } else {
                assert(m == moves[i]);
                assert(0 <= i < i + 1 && moves[i] == m && child_value(s, moves[i], d) == Some(best));
            }
        } else {
            assert(old_list.contains(m));
            let k = choose|k: int|
                0 <= k < i && moves[k] == m && #[trigger] child_value(s, moves[k], d) == Some(
                    old_best,
                );
            assert(0 <= k < i + 1 && moves[k] == m && child_value(s, moves[k], d) == Some(best));
        }
    }
}



/// What the loop over the moves of the root has found when it ends is the
/// answer of the root.
proof fn lemma_root_answer(s: GameState, d: nat, moves: Seq<Move>, best_moves: Seq<Move>, best: int)
    requires
        d > 0,
        moves.len() > 0,
        node_value(s, d) is Some,
        forall|m: Move| #[trigger] moves.contains(m) <==> legal(s, m),
        forall|k: int| 0 <= k < moves.len() ==> (#[trigger] child_value(s, moves[k], d)) is Some,
        exists|k: int|
            0 <= k < moves.len() && #[trigger] child_value(s, moves[k], d) == Some(best),
        forall|k: int|
            0 <= k < moves.len() ==> no_worse(s, best, (#[trigger] child_value(s, moves[k], d))->0),
        forall|m: Move| #[trigger]
            best_moves.contains(m) <==> exists|k: int|
                0 <= k < moves.len() && moves[k] == m && #[trigger] child_value(s, moves[k], d)
                    == Some(best),
        best_moves.no_duplicates(),
    ensures
        is_root_answer(s, d, best_moves, best),
{
    let k0 = choose|k: int|
        0 <= k < moves.len() && #[trigger] child_value(s, moves[k], d) == Some(best);
    assert(moves.contains(moves[k0]));
    assert(legal(s, moves[k0]) && child_value(s, moves[k0], d) == Some(best));
    assert forall|m: Move| #[trigger] legal(s, m) implies (child_value(s, m, d) matches Some(c)
        && no_worse(s, best, c)) by {
        assert(moves.contains(m));
        let k = choose|k: int| 0 <= k < moves.len() && moves[k] == m;
        assert(no_worse(s, best, child_value(s, moves[k], d)->0));
        assert(child_value(s, moves[k], d) is Some);
    }
    lemma_value_is_best(s, d, best);
    assert(0 <= k0 < moves.len() && moves[k0] == moves[k0] && child_value(s, moves[k0], d) == Some(
        best,
    ));
    assert(best_moves.contains(moves[k0]));
    assert forall|m: Move| #[trigger]
        best_moves.contains(m) <==> legal(s, m) && child_value(s, m, d) == Some(best) by {
        if legal(s, m) && child_value(s, m, d) == Some(best) {
            assert(moves.contains(m));
            let k = choose|k: int| 0 <= k < moves.len() && moves[k] == m;
            assert(0 <= k < moves.len() && moves[k] == m && child_value(s, moves[k], d) == Some(
                best,
            ));
        }
        if best_moves.contains(m) {
            let k = choose|k: int|
                0 <= k < moves.len() && moves[k] == m && #[trigger] child_value(s, moves[k], d)
                    == Some(best);
            assert(moves.contains(moves[k]));
        }
    }
}

} // verus!
