pub mod game;
pub mod grid;
pub mod misc;
pub mod turn;
