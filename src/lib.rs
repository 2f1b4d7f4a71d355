pub mod board;
pub mod boundary;
pub mod figure;
pub mod game;
