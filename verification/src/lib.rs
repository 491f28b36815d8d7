//! The rules of the 2048 sliding-tile game on a four by four board.

pub mod game;
pub mod line;
pub mod score;
pub mod laws;
pub mod play;
