pub mod board;
pub mod generator;
pub mod play;
pub mod solver;
pub mod session;
pub mod look;
