//! The rules engine of a six-player Chinese checkers game: a hexagram board
//! on a skewed integer grid, the players' pieces, and a move generator for
//! crawls and chained jumps.

pub mod game;
pub mod laws;
pub mod player;
pub mod position;

pub use game::{ChineseChecker, GameError, Node, PlayerState, MAX_PLAYERS};
pub use player::{Move, Player};
pub use position::{Position, MAX_SIZE};
