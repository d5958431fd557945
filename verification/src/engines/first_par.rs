//! The engine whose root moves can be searched apart from each other.

use crate::engines::{answer_move, select_move, Engine};
use crate::engines::search::{
    capture_rank, is_outcome, is_root_reply, RootOutcome, Searcher,
};
use crate::game::legal;
use crate::types::{Move, Score, MAX_DEPTH};
use crate::utils::{parse_fen, FenError};
use vstd::prelude::*;

verus! {

/// The engine that searches below each move of the root on its own, in a
/// searcher and with a table of its own, so that the moves of the root can
/// be handed out to as many workers as there are.
pub struct FirstPar {
    pub searcher: Searcher,
}

impl FirstPar {
    /// The moves of the root, each of which `explore` takes.
    pub fn root_moves(&self) -> (moves: Vec<Move>)
        requires
            self.searcher.inv(),
        ensures
            forall|m: Move| #[trigger] moves@.contains(m) <==> legal(self.searcher.state, m),
            forall|i: int, j: int|
                0 <= i <= j < moves@.len() ==> capture_rank(
                    self.searcher.state.board,
                    (#[trigger] moves@[i]).1,
                ) <= capture_rank(self.searcher.state.board, (#[trigger] moves@[j]).1),
            moves@.no_duplicates(),
    {
        self.searcher.ordered_moves(true)
    }

    /// What the search below the move `mv` of the root finds.
    pub fn explore(&self, mv: Move) -> (r: Option<RootOutcome>)
        requires
            self.searcher.inv(),
            self.searcher.depth >= 1,
            legal(self.searcher.state, mv),
        ensures
            is_outcome(self.searcher.state, self.searcher.depth as nat, mv, r),
    {
        self.searcher.explore(mv)
    }

    /// What `explore` finds for each of the moves `moves`, one after the other.
    pub fn explore_all(&self, moves: &Vec<Move>) -> (outcomes: Vec<Option<RootOutcome>>)
        requires
            self.searcher.inv(),
            self.searcher.depth >= 1,
            forall|k: int| 0 <= k < moves@.len() ==> legal(self.searcher.state, #[trigger] moves@[k]),
        ensures
            outcomes@.len() == moves@.len(),
            forall|k: int|
                0 <= k < moves@.len() ==> is_outcome(
                    self.searcher.state,
                    self.searcher.depth as nat,
                    #[trigger] moves@[k],
                    outcomes@[k],
                ),
    {
        let mut outcomes: Vec<Option<RootOutcome>> = Vec::new();
        let mut i: usize = 0;
        while i < moves.len()
            invariant
                0 <= i <= moves@.len(),
                self.searcher.inv(),
                self.searcher.depth >= 1,
                forall|k: int|
                    0 <= k < moves@.len() ==> legal(self.searcher.state, #[trigger] moves@[k]),
                outcomes@.len() == i,
                forall|k: int|
                    0 <= k < i ==> is_outcome(
                        self.searcher.state,
                        self.searcher.depth as nat,
                        #[trigger] moves@[k],
                        outcomes@[k],
                    ),
            decreases moves@.len() - i,
        {
            let outcome = self.searcher.explore(moves[i]);
            outcomes.push(outcome);
            i += 1;
        }
        outcomes
    }

    /// The answer of the root, from what `explore` has found for each of the
    /// moves `moves` of the root.
    pub fn finish(&mut self, moves: &Vec<Move>, outcomes: &Vec<Option<RootOutcome>>) -> (r: Option<
        (Vec<Move>, Score),
    >)
        requires
            old(self).searcher.inv(),
            old(self).searcher.depth >= 1,
            forall|m: Move| #[trigger] moves@.contains(m) <==> legal(old(self).searcher.state, m),
            moves@.no_duplicates(),
            outcomes@.len() == moves@.len(),
            forall|k: int|
                0 <= k < moves@.len() ==> is_outcome(
                    old(self).searcher.state,
                    old(self).searcher.depth as nat,
                    #[trigger] moves@[k],
                    outcomes@[k],
                ),
        ensures
            final(self).searcher.state == old(self).searcher.state,
            final(self).searcher.depth == old(self).searcher.depth,
            final(self).searcher.use_table == old(self).searcher.use_table,
            final(self).searcher.num_leafs >= old(self).searcher.num_leafs,
            final(self).searcher.num_skips >= old(self).searcher.num_skips,
            final(self).searcher.inv(),
            is_root_reply(old(self).searcher.state, old(self).searcher.depth as nat, r),
            r is None <==> exists|k: int| 0 <= k < outcomes@.len() && (#[trigger] outcomes@[k]) is None,
    {
        self.searcher.merge_outcomes(moves, outcomes)
    }

    /// How many positions at the horizon the engine has evaluated.
    pub fn num_leafs(&self) -> (n: usize)
        ensures
            n == self.searcher.num_leafs,
    {
        self.searcher.num_leafs
    }

    /// How often the engine has taken a score from a table.
    pub fn num_skips(&self) -> (n: usize)
        ensures
            n == self.searcher.num_skips,
    {
        self.searcher.num_skips
    }
}

impl Engine for FirstPar {
    open spec fn searcher(&self) -> Searcher {
        self.searcher
    }

    fn new(fen: &str, depth: usize) -> (r: Result<Self, FenError>) {
        let data = match parse_fen(fen) {
            Ok(data) => data,
            Err(e) => {
                return Err(e);
            },
        };
        let state = data.state();
        if !state.validate() {
            return Err(FenError::Position);
        }
        if depth > MAX_DEPTH {
            return Err(FenError::Depth);
        }
        Ok(FirstPar { searcher: Searcher::new(state, depth, true) })
    }

    fn get_best_moves(&mut self) -> (r: Option<(Vec<Move>, Score)>) {
        let moves = self.root_moves();
        proof {
            assert forall|k: int| 0 <= k < moves@.len() implies legal(
                self.searcher.state,
                #[trigger] moves@[k],
            ) by {
                assert(moves@.contains(moves@[k]));
            }
        }
        let outcomes = self.explore_all(&moves);
        self.finish(&moves, &outcomes)
    }

    fn choose_move(&self, best_moves: Vec<Move>) -> (m: Move) {
        select_move(&self.searcher.state, &best_moves)
    }

    fn make_move(&mut self) -> (r: Option<(Option<Move>, Score)>) {
        let found = self.get_best_moves();
        answer_move(&self.searcher.state, self.searcher.depth, found)
    }
}

} // verus!
