//! A falling-block puzzle engine: a fixed grid of settled cells, one falling
//! piece, and the rules for moving, rotating, locking and clearing rows, with
//! a table of the best scores.
pub mod board;
pub mod game;
pub mod piece;
pub mod scores;
