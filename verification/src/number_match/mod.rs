pub mod grid;
pub mod session;
pub mod storage;
pub mod play;
