//! The engine that searches with a table of scores.

use crate::engines::{answer_move, select_move, Engine};
use crate::engines::search::Searcher;
use crate::types::{Move, Score, MAX_DEPTH};
use crate::utils::{parse_fen, FenError};
use vstd::prelude::*;

verus! {

/// The engine that searches one move after the other and keeps the scores
/// it has found in a table, to use them where a position comes again.
pub struct FirstTrans {
    pub searcher: Searcher,
}

impl Engine for FirstTrans {
    open spec fn searcher(&self) -> Searcher {
        self.searcher
    }

    fn new(fen: &str, depth: usize) -> (r: Result<Self, FenError>) {
        let data = match parse_fen(fen) {
            Ok(data) => data,
            Err(e) => {
                return Err(e);
            },
        };
        let state = data.state();
        if !state.validate() {
            return Err(FenError::Position);
        }
        if depth > MAX_DEPTH {
            return Err(FenError::Depth);
        }
        Ok(FirstTrans { searcher: Searcher::new(state, depth, true) })
    }

    fn get_best_moves(&mut self) -> (r: Option<(Vec<Move>, Score)>) {
        self.searcher.best_moves()
    }

    fn choose_move(&self, best_moves: Vec<Move>) -> (m: Move) {
        select_move(&self.searcher.state, &best_moves)
    }

    fn make_move(&mut self) -> (r: Option<(Option<Move>, Score)>) {
        let found = self.searcher.best_moves();
        answer_move(&self.searcher.state, self.searcher.depth, found)
    }
}

impl FirstTrans {
    /// How many positions at the horizon the engine has evaluated.
    pub fn num_leafs(&self) -> (n: usize)
        ensures
            n == self.searcher.num_leafs,
    {
        self.searcher.num_leafs
    }

    /// How often the engine has taken a score from its table.
    pub fn num_skips(&self) -> (n: usize)
        ensures
            n == self.searcher.num_skips,
    {
        self.searcher.num_skips
    }
}

} // verus!
