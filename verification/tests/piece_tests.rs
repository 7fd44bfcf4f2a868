use fen::location;
use fen::parse_piece;
use fen::piece_colour;
use fen::FENParseError;
use fen::Piece;
use fen::PieceColour;

#[test]
fn capital_letters_decode_to_white_pieces() {
    assert_eq!(
        parse_piece('P', false),
        Ok(Piece::Pawn(PieceColour::White, false))
    );
    assert_eq!(parse_piece('N', false), Ok(Piece::Knight(PieceColour::White)));
    assert_eq!(parse_piece('B', false), Ok(Piece::Bishop(PieceColour::White)));
    assert_eq!(parse_piece('R', false), Ok(Piece::Rook(PieceColour::White)));
    assert_eq!(parse_piece('Q', false), Ok(Piece::Queen(PieceColour::White)));
    assert_eq!(parse_piece('K', false), Ok(Piece::King(PieceColour::White)));
}

#[test]
fn small_letters_decode_to_black_pieces() {
    assert_eq!(
        parse_piece('p', false),
        Ok(Piece::Pawn(PieceColour::Black, false))
    );
    assert_eq!(parse_piece('n', false), Ok(Piece::Knight(PieceColour::Black)));
    assert_eq!(parse_piece('b', false), Ok(Piece::Bishop(PieceColour::Black)));
    assert_eq!(parse_piece('r', false), Ok(Piece::Rook(PieceColour::Black)));
    assert_eq!(parse_piece('q', false), Ok(Piece::Queen(PieceColour::Black)));
    assert_eq!(parse_piece('k', false), Ok(Piece::King(PieceColour::Black)));
}

#[test]
fn pawn_carries_the_target_flag() {
    assert_eq!(
        parse_piece('P', true),
        Ok(Piece::Pawn(PieceColour::White, true))
    );
    assert_eq!(
        parse_piece('p', true),
        Ok(Piece::Pawn(PieceColour::Black, true))
    );
}

#[test]
fn unknown_characters_are_invalid_pieces() {
    assert_eq!(
        parse_piece('Z', false),
        Err(FENParseError::InvalidPiece { invalid_piece: 'Z' })
    );
    assert_eq!(
        parse_piece('0', false),
        Err(FENParseError::InvalidPiece { invalid_piece: '0' })
    );
    assert_eq!(
        parse_piece('9', true),
        Err(FENParseError::InvalidPiece { invalid_piece: '9' })
    );
    assert_eq!(
        parse_piece('/', false),
        Err(FENParseError::InvalidPiece { invalid_piece: '/' })
    );
}

#[test]
fn colour_follows_letter_case() {
    assert_eq!(piece_colour('P'), PieceColour::White);
    assert_eq!(piece_colour('K'), PieceColour::White);
    assert_eq!(piece_colour('p'), PieceColour::Black);
    assert_eq!(piece_colour('k'), PieceColour::Black);
}

#[test]
fn colour_uses_unicode_case_beyond_ascii() {
    assert_eq!(piece_colour('\u{00C0}'), PieceColour::White);
    assert_eq!(piece_colour('\u{00E0}'), PieceColour::Black);
    assert_eq!(piece_colour('5'), PieceColour::Black);
    assert_eq!(piece_colour('/'), PieceColour::Black);
}

#[test]
fn location_names_file_then_rank() {
    assert_eq!(location(0, 0), "a0");
    assert_eq!(location(7, 7), "h7");
    assert_eq!(location(3, 0), "a3");
    assert_eq!(location(0, 4), "e0");
}
