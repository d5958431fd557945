//! A chess engine with proofs: a move generator whose moves keep the
//! mover's king safe, moves that can be taken back exactly, a static
//! evaluation, and a search to a fixed depth that prunes and keeps scores
//! without changing what it finds.

pub mod engines;
pub mod game;
pub mod king_safety;
pub mod score_functions;
pub mod types;
pub mod utils;
