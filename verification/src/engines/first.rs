//! The engine that searches one move after the other.

use crate::engines::{answer_move, apply, revert, select_move, status_of, Engine, MoveStatus};
use crate::engines::search::{is_search_answer, Searcher};
use crate::score_functions::{score1, static_score, EVAL_LIMIT};
use crate::types::{valid_move, Move, Score, MAX_DEPTH, SCORE_INF};
use crate::utils::{parse_fen, FenError};
use vstd::prelude::*;

verus! {

/// The engine that searches one move after the other.
pub struct First {
    pub searcher: Searcher,
}

impl Engine for First {
    open spec fn searcher(&self) -> Searcher {
        self.searcher
    }

    fn new(fen: &str, depth: usize) -> (r: Result<Self, FenError>) {
        let data = match parse_fen(fen) {
            Ok(data) => data,
            Err(e) => {
                return Err(e);
            },
        };
        let state = data.state();
        if !state.validate() {
            return Err(FenError::Position);
        }
        if depth > MAX_DEPTH {
            return Err(FenError::Depth);
        }
        Ok(First { searcher: Searcher::new(state, depth, false) })
    }

    fn get_best_moves(&mut self) -> (r: Option<(Vec<Move>, Score)>) {
        self.searcher.best_moves()
    }

    fn choose_move(&self, best_moves: Vec<Move>) -> (m: Move) {
        select_move(&self.searcher.state, &best_moves)
    }

    fn make_move(&mut self) -> (r: Option<(Option<Move>, Score)>) {
        let found = self.searcher.best_moves();
        answer_move(&self.searcher.state, self.searcher.depth, found)
    }
}

impl First {
    /// How many positions at the horizon the engine has evaluated.
    pub fn num_leafs(&self) -> (n: usize)
        ensures
            n == self.searcher.num_leafs,
    {
        self.searcher.num_leafs
    }

    pub fn is_white(&self) -> (r: bool)
        ensures
            r == (self.searcher.state.player == 1),
    {
        self.searcher.state.player == 1
    }

    /// Makes the move `mv` on the engine's position, one ply nearer to the
    /// horizon, and leaves the counters and the table as they are.
    pub fn do_move(&mut self, mv: Move) -> (status: MoveStatus)
        requires
            valid_move(mv),
            old(self).searcher.state.board.wf(),
            old(self).searcher.state.player == 1 || old(self).searcher.state.player == -1,
            old(self).searcher.depth >= 1,
        ensures
            final(self).searcher.state == apply(old(self).searcher.state, mv),
            final(self).searcher.state.player == -old(self).searcher.state.player,
            final(self).searcher.state.can_castle.of(-old(self).searcher.state.player) == old(
                self,
            ).searcher.state.can_castle.of(-old(self).searcher.state.player),
            final(self).searcher.depth == old(self).searcher.depth - 1,
            final(self).searcher.num_leafs == old(self).searcher.num_leafs,
            final(self).searcher.num_skips == old(self).searcher.num_skips,
            final(self).searcher.use_table == old(self).searcher.use_table,
            final(self).searcher.table == old(self).searcher.table,
            status == status_of(old(self).searcher.state, mv),
    {
        let status = self.searcher.state.do_move(mv);
        self.searcher.depth = self.searcher.depth - 1;
        status
    }

    /// Takes back the move `mv`, one ply further from the horizon, and
    /// leaves the counters and the table as they are.
    pub fn undo_move(&mut self, mv: Move, status: MoveStatus)
        requires
            valid_move(mv),
            old(self).searcher.state.player == 1 || old(self).searcher.state.player == -1,
            -6 <= status.piece <= 6,
            old(self).searcher.depth < usize::MAX,
        ensures
            final(self).searcher.state == revert(old(self).searcher.state, mv, status),
            final(self).searcher.depth == old(self).searcher.depth + 1,
            final(self).searcher.num_leafs == old(self).searcher.num_leafs,
            final(self).searcher.num_skips == old(self).searcher.num_skips,
            final(self).searcher.use_table == old(self).searcher.use_table,
            final(self).searcher.table == old(self).searcher.table,
    {
        self.searcher.state.undo_move(mv, status);
        self.searcher.depth = self.searcher.depth + 1;
    }

    /// The static evaluation of the position, as seen by the side that has just moved.
    pub fn score_function(&self) -> (score: Score)
        requires
            self.searcher.state.wf(),
        ensures
            score == static_score(self.searcher.state.board, -self.searcher.state.player),
            -EVAL_LIMIT <= score <= EVAL_LIMIT,
    {
        score1(&self.searcher.state.board, -self.searcher.state.player)
    }

    /// Searches the position with the window `(alpha, beta)`, as the
    /// searcher does: at the horizon the answer is the static evaluation
    /// and one leaf more is counted; without a move it is the terminal
    /// value; where a move takes a king there is none.
    pub fn recursive_best(&mut self, alpha: Score, beta: Score) -> (r: Option<Score>)
        requires
            old(self).searcher.inv(),
            -SCORE_INF <= alpha < beta <= SCORE_INF,
        ensures
            final(self).searcher.state == old(self).searcher.state,
            final(self).searcher.depth == old(self).searcher.depth,
            final(self).searcher.use_table == old(self).searcher.use_table,
            final(self).searcher.num_leafs >= old(self).searcher.num_leafs,
            final(self).searcher.num_skips >= old(self).searcher.num_skips,
            old(self).searcher.depth == 0 ==> final(self).searcher.num_skips == old(
                self,
            ).searcher.num_skips,
            old(self).searcher.depth == 0 ==> final(self).searcher.num_leafs == (if old(
                self,
            ).searcher.num_leafs < usize::MAX {
                old(self).searcher.num_leafs + 1
            } else {
                old(self).searcher.num_leafs as int
            }),
            final(self).searcher.inv(),
            is_search_answer(
                old(self).searcher.state,
                old(self).searcher.depth as nat,
                alpha as int,
                beta as int,
                r,
            ),
    {
        self.searcher.recursive_best(alpha, beta)
    }
}

} // verus!
