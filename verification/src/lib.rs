//! A verified parser for Forsyth-Edwards Notation (FEN), the one-line text
//! encoding of a chess position. `parse_fen` turns a FEN string into a
//! `Board`: a mapping from square name (such as `"a0"`) to the `Piece`
//! standing there, or fails with a `FENParseError` that says exactly what was
//! wrong with the input.

pub mod board;
pub mod laws;
pub mod parser;
pub mod pieces;
pub mod split;
pub mod squares;

pub use board::Board;
pub use parser::parse_fen;
pub use pieces::FENParseError;
pub use pieces::Piece;
pub use pieces::PieceColour;
pub use pieces::parse_piece;
pub use pieces::piece_colour;
pub use squares::location;
