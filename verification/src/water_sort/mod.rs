pub mod game;
pub mod generator;
pub mod search;
pub mod seen;
pub mod solver;
pub mod session;
pub mod play;
