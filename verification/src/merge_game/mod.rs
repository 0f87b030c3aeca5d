pub mod board;
pub mod game;
pub mod play;
pub mod storage;
pub mod session;
