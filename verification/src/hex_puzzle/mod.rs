pub mod game;
pub mod levels;
pub mod storage;
pub mod session;
