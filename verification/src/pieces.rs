//! The piece model: colours, pieces, the parse errors, and the decoding of a
//! single placement character.

use vstd::prelude::*;

verus! {

/// The ways a FEN string can be rejected. Every failure of `parse_fen` is one
/// of these three; each carries what a caller needs for diagnostics.
#[derive(Clone, Copy, Debug, PartialEq, Eq, Structural)]
pub enum FENParseError {
    /// A placement character that is neither a piece letter nor a skip digit.
    InvalidPiece { invalid_piece: char },
    /// The input did not split into exactly six space-separated sections.
    InvalidSectionCount { count: usize },
    /// A placement landed on a square that is off the board or already taken.
    DuplicateSquare,
}

#[derive(Clone, Copy, Debug, PartialEq, Eq, Structural)]
pub enum PieceColour {
    White,
    Black,
}

#[derive(Clone, Copy, Debug, PartialEq, Eq, Structural)]
pub enum Piece {
    /// The flag says whether this pawn stands on the en-passant target square.
    Pawn(PieceColour, bool),
    Knight(PieceColour),
    Bishop(PieceColour),
    Rook(PieceColour),
    Queen(PieceColour),
    King(PieceColour),
    /// Never produced by the parser: empty squares are absent from the board
    /// mapping rather than stored as `Empty`.
    Empty,
}

/// Whether a character is uppercase in the Unicode sense: the result of
/// `char::is_uppercase` on it.
pub uninterp spec fn uppercase_of(c: char) -> bool;

/// Relies on `char::is_uppercase`: true exactly for characters with the
/// Unicode `Uppercase` property, which its documentation shows holding for
/// the ASCII capital letters and failing for the ASCII small letters; the
/// result depends on the character alone.
pub assume_specification[ char::is_uppercase ](c: char) -> (r: bool)
    ensures
        r == uppercase_of(c),
        'A' <= c && c <= 'Z' ==> r,
        'a' <= c && c <= 'z' ==> !r,
;

/// The colour encoded by a placement character's case: an uppercase letter
/// means White, anything else Black. On the ASCII letters, which cover every
/// piece character, the case is spelt out; beyond them it is the Unicode
/// `Uppercase` property that `char::is_uppercase` tests.
pub open spec fn colour_of(c: char) -> PieceColour {
    if 'A' <= c && c <= 'Z' {
        PieceColour::White
    } else if 'a' <= c && c <= 'z' {
        PieceColour::Black
    } else if uppercase_of(c) {
        PieceColour::White
    } else {
        PieceColour::Black
    }
}

/// The twelve placement characters that denote a piece.
pub open spec fn is_piece_char(c: char) -> bool {
    ||| c == 'P' || c == 'p'
    ||| c == 'N' || c == 'n'
    ||| c == 'B' || c == 'b'
    ||| c == 'R' || c == 'r'
    ||| c == 'Q' || c == 'q'
    ||| c == 'K' || c == 'k'
}

/// The piece denoted by a placement character, with `is_target` saying
/// whether a pawn stands on the en-passant target square. Only meaningful on
/// the twelve piece characters.
pub open spec fn piece_of(c: char, is_target: bool) -> Piece
    recommends
        is_piece_char(c),
{
    if c == 'P' || c == 'p' {
        Piece::Pawn(colour_of(c), is_target)
    } else if c == 'N' || c == 'n' {
        Piece::Knight(colour_of(c))
    } else if c == 'B' || c == 'b' {
        Piece::Bishop(colour_of(c))
    } else if c == 'R' || c == 'r' {
        Piece::Rook(colour_of(c))
    } else if c == 'Q' || c == 'q' {
        Piece::Queen(colour_of(c))
    } else if c == 'K' || c == 'k' {
        Piece::King(colour_of(c))
    } else {
        Piece::Empty
    }
}

/// The colour a piece carries, if it is not `Empty`.
pub open spec fn colour_of_piece(p: Piece) -> Option<PieceColour> {
    match p {
        Piece::Pawn(c, _) => Some(c),
        Piece::Knight(c) => Some(c),
        Piece::Bishop(c) => Some(c),
        Piece::Rook(c) => Some(c),
        Piece::Queen(c) => Some(c),
        Piece::King(c) => Some(c),
        Piece::Empty => None,
    }
}

/// What `parse_piece` returns on every character: the decoded piece for the
/// twelve piece letters, and `InvalidPiece` carrying the character otherwise.
pub open spec fn parse_piece_spec(c: char, is_target: bool) -> Result<Piece, FENParseError> {
    if is_piece_char(c) {
        Ok(piece_of(c, is_target))
    } else {
        Err(FENParseError::InvalidPiece { invalid_piece: c })
    }
}

/// Whether a character is one of the twelve piece letters.
pub fn is_piece_letter(c: char) -> (r: bool)
    ensures
        r == is_piece_char(c),
{
    c == 'P' || c == 'p' || c == 'N' || c == 'n' || c == 'B' || c == 'b' || c == 'R' || c == 'r'
        || c == 'Q' || c == 'q' || c == 'K' || c == 'k'
}

/// The colour of a placement character: uppercase letters are White,
/// everything else Black.
pub fn piece_colour(piece: char) -> (c: PieceColour)
    ensures
        c == colour_of(piece),
{
    if piece.is_uppercase() {
        PieceColour::White
    } else {
        PieceColour::Black
    }
}

/// Decode one placement character, tagging a pawn that stands on the
/// en-passant target square.
pub fn parse_piece(piece: char, pawn_is_target: bool) -> (r: Result<Piece, FENParseError>)
    ensures
        r == parse_piece_spec(piece, pawn_is_target),
{
    let colour = piece_colour(piece);
    match piece {
        'P' | 'p' => Ok(Piece::Pawn(colour, pawn_is_target)),
        'N' | 'n' => Ok(Piece::Knight(colour)),
        'B' | 'b' => Ok(Piece::Bishop(colour)),
        'R' | 'r' => Ok(Piece::Rook(colour)),
        'Q' | 'q' => Ok(Piece::Queen(colour)),
        'K' | 'k' => Ok(Piece::King(colour)),
        _ => Err(FENParseError::InvalidPiece { invalid_piece: piece }),
    }
}

} // verus!
