//! Chess board state, FEN piece-placement loading and pseudo-legal move
//! generation.

pub mod board;
pub mod pieces;

pub use board::Board;
pub use pieces::{Piece, PieceColor, PieceType};
