//! A verified engine for the classic 8x8 disc-flipping board game.
//!
//! The library has two halves: a board model (legality of moves, capture
//! flips, terminal detection, counting and a static evaluation) and a
//! time-bounded adversarial search (minimax with alpha-beta pruning under
//! an iterative-deepening driver). The board model carries exact
//! contracts; the search is proved to return the full minimax value
//! whenever it runs without a deadline.

pub mod board;
mod clock;
pub mod notation;
pub mod search;

pub use board::Board;
pub use board::Piece;
pub use notation::parse_input;
pub use search::get_best_move;
pub use search::minimax;
pub use search::SearchClock;
