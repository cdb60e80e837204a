pub mod board;
pub mod boundary;
pub mod candidates;
pub mod computer;
pub mod geometry;
pub mod grid;
pub mod legality;
pub mod letter;
pub mod moves;
pub mod premium;
pub mod rack;
pub mod ranking;
pub mod score;

pub use board::{Board, Direction, Position, Word};
pub use letter::Letter;
