pub mod cell;
pub mod board;
