pub mod board;
pub mod direction;
pub mod laws;
