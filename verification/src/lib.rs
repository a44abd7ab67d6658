//! A perfect tic-tac-toe player.
//!
//! The board is a 3x3 grid whose cells are numbered 1 through 9 in row-major
//! order. [`Board`] records the cells each side has claimed and which side
//! made the first move of the game; [`play`] returns the optimal next move
//! for the perfect player, found by an exhaustive minimax search over the
//! remaining game tree.

pub mod board;
pub mod search;

pub use board::Board;
pub use board::BoardModel;
pub use board::Player;
pub use search::Node;
pub use search::NodeModel;
pub use search::play;
