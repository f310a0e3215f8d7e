pub mod board;
pub mod game;
pub mod human;
pub mod minimax;
pub mod random;
