//! What the learning agent sees of a board and remembers of its moves.
pub mod env;
pub mod model;
pub mod replay;
pub mod transition;
