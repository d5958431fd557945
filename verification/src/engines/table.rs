//! The table of scores, kept by position and depth.

use crate::types::{Board, GameState, Position, Score};
use std::collections::HashMap;
use vstd::prelude::*;

verus! {

broadcast use vstd::std_specs::hash::group_hash_axioms;

/// A position, the depth it was searched to, and the score that was found.
#[derive(Clone, Copy, Debug)]
pub struct Entry {
    pub state: GameState,
    pub depth: usize,
    pub score: Score,
}

/// One step of the bucket key: the key so far, mixed with one more number.
pub open spec fn mix(h: int, v: int) -> int {
    (h * 31 + v) % 1_000_000_007
}

/// The bucket key of the first `n` squares of the board, file by file.
pub open spec fn board_key(b: Board, n: int) -> int
    decreases n,
{
    if n <= 0 {
        7
    } else {
        mix(board_key(b, n - 1), b.piece((n - 1) / 8, (n - 1) % 8) + 128)
    }
}

/// The number that stands for an en-passant target in the bucket key.
pub open spec fn en_passant_code(t: Option<Position>) -> int {
    match t {
        Some(p) => 1 + (p.0 % 8) * 8 + (p.1 % 8),
        None => 0,
    }
}

/// The bucket in which a position searched to `depth` is kept.
pub open spec fn bucket_of(s: GameState, depth: usize) -> int {
    let c = s.can_castle;
    let rights = (if c.white.k {
        1int
    } else {
        0int
    }) + (if c.white.q {
        2int
    } else {
        0int
    }) + (if c.black.k {
        4int
    } else {
        0int
    }) + (if c.black.q {
        8int
    } else {
        0int
    });
    mix(
        mix(mix(mix(board_key(s.board, 64), s.player + 128), rights), en_passant_code(s.en_passant)),
        (depth % 1_000_003) as int,
    )
}

/// Whether two boards hold the same pieces.
pub fn same_board(a: &Board, b: &Board) -> (r: bool)
    ensures
        r == (*a == *b),
{
    let mut x: usize = 0;
    while x < 8
        invariant
            0 <= x <= 8,
            forall|i: int, j: int| 0 <= i < x && 0 <= j < 8 ==> #[trigger] a.piece(i, j) == b.piece(i, j),
        decreases 8 - x,
    {
        let mut y: usize = 0;
        while y < 8
            invariant
                0 <= y <= 8,
                0 <= x < 8,
                forall|i: int, j: int|
                    0 <= i < x && 0 <= j < 8 ==> #[trigger] a.piece(i, j) == b.piece(i, j),
                forall|j: int| 0 <= j < y ==> #[trigger] a.piece(x as int, j) == b.piece(x as int, j),
            decreases 8 - y,
        {
            if a.at((x, y)) != b.at((x, y)) {
                return false;
            }
            y += 1;
        }
        x += 1;
    }
    proof {
        Board::lemma_ext(*a, *b);
    }
    true
}

/// Whether two positions are the same in every part.
pub fn same_state(a: &GameState, b: &GameState) -> (r: bool)
    ensures
        r == (*a == *b),
{
    let same_target = match (a.en_passant, b.en_passant) {
        (Some(p), Some(q)) => p.0 == q.0 && p.1 == q.1,
        (None, None) => true,
        _ => false,
    };
    a.player == b.player && a.can_castle == b.can_castle && same_target && same_board(
        &a.board,
        &b.board,
    )
}

/// The bucket key of a position searched to `depth`.
pub fn bucket_key(state: &GameState, depth: usize) -> (h: u64)
    ensures
        h == bucket_of(*state, depth),
{
    let mut h: u64 = 7;
    let mut k: usize = 0;
    while k < 64
        invariant
            0 <= k <= 64,
            h == board_key(state.board, k as int),
            0 <= h < 1_000_000_007,
        decreases 64 - k,
    {
        let p = state.board.at((k / 8, k % 8));
        let v: u64 = (p as i64 + 128) as u64;
        h = (h * 31 + v) % 1_000_000_007;
        k += 1;
    }
    h = (h * 31 + (state.player as i64 + 128) as u64) % 1_000_000_007;
    let c = state.can_castle;
    let mut rights: u64 = 0;
    if c.white.k {
        rights = rights + 1;
    }
    if c.white.q {
        rights = rights + 2;
    }
    if c.black.k {
        rights = rights + 4;
    }
    if c.black.q {
        rights = rights + 8;
    }
    h = (h * 31 + rights) % 1_000_000_007;
    let target: u64 = match state.en_passant {
        Some(p) => (1 + (p.0 % 8) * 8 + (p.1 % 8)) as u64,
        None => 0,
    };
    h = (h * 31 + target) % 1_000_000_007;
    h = (h * 31 + (depth % 1_000_003) as u64) % 1_000_000_007;
    h
}

/// The scores found so far, by position and depth.
pub struct TranspositionTable {
    pub buckets: HashMap<u64, Vec<Entry>>,
}

impl TranspositionTable {
    /// The table keeps the score `score` for `state` searched to `depth`.
    pub open spec fn holds(&self, state: GameState, depth: usize, score: Score) -> bool {
        exists|k: u64, i: int|
            self.buckets@.contains_key(k) && 0 <= i < self.buckets@[k]@.len()
                && #[trigger] self.buckets@[k]@[i] == (Entry { state, depth, score })
    }

    /// Each entry lies in the bucket of its position and depth.
    pub open spec fn wf(&self) -> bool {
        forall|k: u64, i: int|
            self.buckets@.contains_key(k) && 0 <= i < self.buckets@[k]@.len() ==> k == bucket_of(
                (#[trigger] self.buckets@[k]@[i]).state,
                self.buckets@[k]@[i].depth,
            )
    }

    pub fn new() -> (t: TranspositionTable)
        ensures
            t.wf(),
            forall|s: GameState, d: usize, x: Score| !t.holds(s, d, x),
    {
        TranspositionTable { buckets: HashMap::new() }
    }

    /// A score kept for `state` searched to `depth`, if there is one.
    pub fn lookup(&self, state: &GameState, depth: usize) -> (r: Option<Score>)
        requires
            self.wf(),
        ensures
            match r {
                Some(x) => self.holds(*state, depth, x),
                None => forall|x: Score| !self.holds(*state, depth, x),
            },
    {
        let h = bucket_key(state, depth);
        match self.buckets.get(&h) {
            None => {
                proof {
                    assert forall|x: Score| !self.holds(*state, depth, x) by {
                        if self.holds(*state, depth, x) {
                            let (k, i) = choose|k: u64, i: int|
                                self.buckets@.contains_key(k) && 0 <= i < self.buckets@[k]@.len()
                                    && #[trigger] self.buckets@[k]@[i] == (Entry {
                                    state: *state,
                                    depth,
                                    score: x,
                                });
                            assert(k == h);
                        }
                    }
                }
                None
            },
            Some(bucket) => {
                let mut i: usize = 0;
                while i < bucket.len()
                    invariant
                        0 <= i <= bucket@.len(),
                        self.wf(),
                        h == bucket_of(*state, depth),
                        self.buckets@.contains_key(h),
                        self.buckets@[h] == *bucket,
                        forall|j: int|
                            0 <= j < i ==> !((#[trigger] bucket@[j]).state == *state && bucket@[j].depth
                                == depth),
                    decreases bucket@.len() - i,
                {
                    let e = bucket[i];
                    if e.depth == depth && same_state(&e.state, state) {
                        proof {
                            assert(self.buckets@[h]@[i as int] == (Entry {
                                state: *state,
                                depth,
                                score: e.score,
                            }));
                        }
                        return Some(e.score);
                    }
                    i += 1;
                }
                proof {
                    assert forall|x: Score| !self.holds(*state, depth, x) by {
                        if self.holds(*state, depth, x) {
                            let (k, j) = choose|k: u64, j: int|
                                self.buckets@.contains_key(k) && 0 <= j < self.buckets@[k]@.len()
                                    && #[trigger] self.buckets@[k]@[j] == (Entry {
                                    state: *state,
                                    depth,
                                    score: x,
                                });
                            assert(k == h);
                            assert(bucket@[j].state == *state);
                        }
                    }
                }
                None
            },
        }
    }

    /// Keeps `score` for `state` searched to `depth`.
    pub fn store(&mut self, state: GameState, depth: usize, score: Score)
        requires
            old(self).wf(),
        ensures
            final(self).wf(),
            forall|s: GameState, d: usize, x: Score|
                final(self).holds(s, d, x) <==> old(self).holds(s, d, x) || (s == state && d
                    == depth && x == score),
    {
        let h = bucket_key(&state, depth);
        let ghost before = self.buckets@;
        let mut bucket = match self.buckets.remove(&h) {
            Some(b) => b,
            None => Vec::new(),
        };
        let ghost kept = bucket@;
        let entry = Entry { state, depth, score };
        bucket.push(entry);
        self.buckets.insert(h, bucket);
        proof {
            let after = self.buckets@;
            assert(before.contains_key(h) ==> before[h]@ == kept);
            assert(!before.contains_key(h) ==> kept.len() == 0);
            assert(after[h]@ == kept.push(entry));
            assert forall|k: u64| k != h implies (after.contains_key(k) <==> before.contains_key(k))
                && (after.contains_key(k) ==> after[k] == before[k]) by {}
            assert forall|k: u64, i: int|
                after.contains_key(k) && 0 <= i < after[k]@.len() implies k == bucket_of(
                (#[trigger] after[k]@[i]).state,
                after[k]@[i].depth,
            ) by {
                if k == h {
                    if i < kept.len() {
                        assert(before[h]@[i] == after[h]@[i]);
                    }
                } else {
                    assert(before[k]@[i] == after[k]@[i]);
                }
            }
            assert forall|s: GameState, d: usize, x: Score|
                final(self).holds(s, d, x) <==> old(self).holds(s, d, x) || (s == state && d
                    == depth && x == score) by {
                let e = Entry { state: s, depth: d, score: x };
                if old(self).holds(s, d, x) {
                    let (k, i) = choose|k: u64, i: int|
                        before.contains_key(k) && 0 <= i < before[k]@.len() && #[trigger] before[k]@[i]
                            == e;
                    if k == h {
                        assert(after[h]@[i] == e);
                    } else {
                        assert(after[k]@[i] == e);
                    }
                }
                if s == state && d == depth && x == score {
                    assert(after[h]@[kept.len() as int] == e);
                }
                if final(self).holds(s, d, x) {
                    let (k, i) = choose|k: u64, i: int|
                        after.contains_key(k) && 0 <= i < after[k]@.len() && #[trigger] after[k]@[i]
                            == e;
                    if k == h {
                        if i < kept.len() {
                            assert(before[h]@[i] == e);
                        }
                    } else {
                        assert(before[k]@[i] == e);
                    }
                }
            }
        }
    }
}

} // verus!
