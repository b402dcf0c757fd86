//! A Minesweeper board and the reinforcement-learning bookkeeping that plays it.
//!
//! The board logic (bomb placement, hint counting, flood reveal, win detection),
//! the environment that turns board moves into observations and rewards, the
//! replay buffer and the per-game training decisions are verified here.

pub mod count;
pub mod flood;
pub mod game;
pub mod ml;
pub mod properties;
pub(crate) mod random;
pub mod tui;
