use fen::parse_fen;
use fen::Board;
use fen::FENParseError;
use fen::Piece;
use fen::PieceColour;

fn expect_err(input: &str) -> FENParseError {
    match parse_fen(input) {
        Ok(_) => panic!("expected the parse of {:?} to fail", input),
        Err(e) => e,
    }
}

fn expect_ok(input: &str) -> Board {
    match parse_fen(input) {
        Ok(board) => board,
        Err(e) => panic!("expected the parse of {:?} to succeed, got {:?}", input, e),
    }
}

#[test]
fn empty_board_parses() {
    let board = expect_ok("8/8/8/8/8/8/8/8 w - - 0 1");
    assert_eq!(board.len(), 0);
    assert_eq!(board.get("a0"), None);
    assert_eq!(board.get("h7"), None);
}

#[test]
fn four_sections_counted() {
    let e = expect_err("8/8/8/8/8/8/8/8 w - -");
    assert_eq!(e, FENParseError::InvalidSectionCount { count: 4 });
}

#[test]
fn five_sections_counted() {
    let e = expect_err("8/8/8/8/8/8/8/8 w - - 0");
    assert_eq!(e, FENParseError::InvalidSectionCount { count: 5 });
}

#[test]
fn seven_sections_counted() {
    let e = expect_err("8/8/8/8/8/8/8/8 w - - 0 1 x");
    assert_eq!(e, FENParseError::InvalidSectionCount { count: 7 });
}

#[test]
fn empty_input_is_one_section() {
    let e = expect_err("");
    assert_eq!(e, FENParseError::InvalidSectionCount { count: 1 });
}

#[test]
fn doubled_space_makes_empty_section() {
    let e = expect_err("8/8/8/8/8/8/8/8  w - - 0 1");
    assert_eq!(e, FENParseError::InvalidSectionCount { count: 7 });
}

#[test]
fn invalid_piece_reported() {
    let e = expect_err("Z7/8/8/8/8/8/8/8 w - - 0 1");
    assert_eq!(e, FENParseError::InvalidPiece { invalid_piece: 'Z' });
}

#[test]
fn invalid_piece_mid_rank() {
    let e = expect_err("8/8/8/3x4/8/8/8/8 w - - 0 1");
    assert_eq!(e, FENParseError::InvalidPiece { invalid_piece: 'x' });
}

#[test]
fn zero_is_no_skip_digit() {
    let e = expect_err("0/8/8/8/8/8/8/8 w - - 0 1");
    assert_eq!(e, FENParseError::InvalidPiece { invalid_piece: '0' });
}

#[test]
fn adjacent_pieces_take_adjacent_files() {
    let board = expect_ok("KQ6/8/8/8/8/8/8/8 w - - 0 1");
    assert_eq!(board.len(), 2);
    assert_eq!(board.get("a0"), Some(Piece::King(PieceColour::White)));
    assert_eq!(board.get("b0"), Some(Piece::Queen(PieceColour::White)));
    assert_eq!(board.get("c0"), None);
}

#[test]
fn full_rank_skip_leaves_rank_empty() {
    let board = expect_ok("8/pppppppp/8/8/8/8/8/8 w - - 0 1");
    assert_eq!(board.len(), 8);
    for file in ["a", "b", "c", "d", "e", "f", "g", "h"] {
        assert_eq!(board.get(&format!("{}0", file)), None);
        assert_eq!(
            board.get(&format!("{}1", file)),
            Some(Piece::Pawn(PieceColour::Black, false))
        );
    }
}

#[test]
fn overfull_rank_is_duplicate_square() {
    let e = expect_err("PPPPPPPPP/8/8/8/8/8/8/8 w - - 0 1");
    assert_eq!(e, FENParseError::DuplicateSquare);
}

#[test]
fn piece_after_full_skip_is_duplicate_square() {
    let e = expect_err("8P/8/8/8/8/8/8/8 w - - 0 1");
    assert_eq!(e, FENParseError::DuplicateSquare);
}

#[test]
fn piece_on_ninth_rank_is_duplicate_square() {
    let e = expect_err("8/8/8/8/8/8/8/8/P w - - 0 1");
    assert_eq!(e, FENParseError::DuplicateSquare);
}

#[test]
fn extra_all_empty_ranks_place_nothing() {
    let board = expect_ok("8/8/8/8/8/8/8/8/8 w - - 0 1");
    assert_eq!(board.len(), 0);
}

#[test]
fn en_passant_flag_set_on_matching_pawn_only() {
    let board = expect_ok("8/8/8/P7/1p6/8/8/8 w - a3 0 1");
    assert_eq!(board.len(), 2);
    assert_eq!(board.get("a3"), Some(Piece::Pawn(PieceColour::White, true)));
    assert_eq!(board.get("b4"), Some(Piece::Pawn(PieceColour::Black, false)));
}

#[test]
fn en_passant_dash_matches_no_square() {
    let board = expect_ok("8/8/8/P7/8/8/8/8 w - - 0 1");
    assert_eq!(board.get("a3"), Some(Piece::Pawn(PieceColour::White, false)));
}

#[test]
fn entries_list_every_occupied_square() {
    let board = expect_ok("8/8/8/P7/1p6/8/8/8 w - a3 0 1");
    let entries = board.entries();
    assert_eq!(entries.len(), 2);
    let mut found_white = false;
    let mut found_black = false;
    for (name, piece) in entries {
        match name.as_str() {
            "a3" => {
                assert_eq!(*piece, Piece::Pawn(PieceColour::White, true));
                found_white = true;
            }
            "b4" => {
                assert_eq!(*piece, Piece::Pawn(PieceColour::Black, false));
                found_black = true;
            }
            other => panic!("unexpected square {:?}", other),
        }
    }
    assert!(found_white && found_black);
}

#[test]
fn starting_position_parses() {
    let board = expect_ok("rnbqkbnr/pppppppp/8/8/8/8/PPPPPPPP/RNBQKBNR w KQkq - 0 1");
    assert_eq!(board.len(), 32);
    assert_eq!(board.get("a0"), Some(Piece::Rook(PieceColour::Black)));
    assert_eq!(board.get("b0"), Some(Piece::Knight(PieceColour::Black)));
    assert_eq!(board.get("c0"), Some(Piece::Bishop(PieceColour::Black)));
    assert_eq!(board.get("d0"), Some(Piece::Queen(PieceColour::Black)));
    assert_eq!(board.get("e0"), Some(Piece::King(PieceColour::Black)));
    assert_eq!(board.get("e1"), Some(Piece::Pawn(PieceColour::Black, false)));
    assert_eq!(board.get("e4"), None);
    assert_eq!(board.get("e6"), Some(Piece::Pawn(PieceColour::White, false)));
    assert_eq!(board.get("d7"), Some(Piece::Queen(PieceColour::White)));
    assert_eq!(board.get("h7"), Some(Piece::Rook(PieceColour::White)));
}

#[test]
fn mixed_skips_and_pieces() {
    let board = expect_ok("3k4/8/8/8/8/8/8/4K3 w - - 0 1");
    assert_eq!(board.len(), 2);
    assert_eq!(board.get("d0"), Some(Piece::King(PieceColour::Black)));
    assert_eq!(board.get("e7"), Some(Piece::King(PieceColour::White)));
}
