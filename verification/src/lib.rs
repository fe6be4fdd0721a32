pub mod board;
pub mod engine;
pub mod monte;
pub mod player;
