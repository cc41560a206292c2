//! A verified chess engine core: board model with reversible move
//! application, pseudo-legal move generation, attack detection, static
//! evaluation, and a negamax/alpha-beta game-tree search.

pub mod board;
pub mod constants;
pub mod conversion;
pub mod evaluate;
pub mod movegen;
pub mod moves;
pub mod search;
pub mod uci;
