//! The FEN parser. `parse_fen_spec` is the mathematical statement of what a
//! parse returns on every input; `parse_fen` is the executable parser, proved
//! to return exactly that.
//!
//! A FEN string is six space-separated sections. The first is the placement:
//! eight rank strings separated by `'/'`, each a run of piece letters and
//! skip digits `'1'` through `'8'`. The fourth names the en-passant target
//! square; a pawn placed on that very square gets its target flag set. The
//! remaining sections are captured by the section count but not interpreted.
//!
//! Each placed piece advances the file by one, and a skip digit by its value,
//! so adjacent piece letters occupy adjacent files. A placement character that
//! is neither a digit nor a piece letter stops the parse with `InvalidPiece`.
//! A piece that would land outside the eight ranks and eight files of the
//! board, or on a square already taken, stops it with `DuplicateSquare`.

use vstd::prelude::*;

use crate::board::Board;
use crate::pieces::FENParseError;
use crate::pieces::Piece;
use crate::pieces::is_piece_char;
use crate::pieces::is_piece_letter;
use crate::pieces::parse_piece;
use crate::pieces::piece_of;
use crate::split::spec_split;
use crate::split::split_str;
use crate::split::str_eq;
use crate::squares::location;
use crate::squares::square_name;

verus! {

/// The characters that skip a run of empty squares.
pub open spec fn is_skip_digit(c: char) -> bool {
    '1' <= c && c <= '8'
}

/// The number of squares a skip digit stands for.
pub open spec fn digit_value(c: char) -> int
    recommends
        is_skip_digit(c),
{
    c as int - '0' as int
}

/// One rank of the placement section, scanned left to right from `file`:
/// skip digits advance the file, piece letters go onto the board and advance
/// it by one. The result is the board grown by this rank's pieces, or the
/// first error met.
pub open spec fn expand_rank(
    rank: int,
    s: Seq<char>,
    file: int,
    ep: Seq<char>,
    board: Map<Seq<char>, Piece>,
) -> Result<Map<Seq<char>, Piece>, FENParseError>
    decreases s.len(),
{
    if s.len() == 0 {
        Ok(board)
    } else {
        let c = s[0];
        if is_skip_digit(c) {
            expand_rank(rank, s.drop_first(), file + digit_value(c), ep, board)
        } else if !is_piece_char(c) {
            Err(FENParseError::InvalidPiece { invalid_piece: c })
        } else if rank >= 8 || file >= 8 {
            Err(FENParseError::DuplicateSquare)
        } else if board.contains_key(square_name(rank, file)) {
            Err(FENParseError::DuplicateSquare)
        } else {
            expand_rank(
                rank,
                s.drop_first(),
                file + 1,
                ep,
                board.insert(square_name(rank, file), piece_of(c, ep == square_name(rank, file))),
            )
        }
    }
}

/// The rank strings in order, each expanded onto the board grown so far.
pub open spec fn expand_ranks(
    ranks: Seq<Seq<char>>,
    rank: int,
    ep: Seq<char>,
    board: Map<Seq<char>, Piece>,
) -> Result<Map<Seq<char>, Piece>, FENParseError>
    decreases ranks.len(),
{
    if ranks.len() == 0 {
        Ok(board)
    } else {
        match expand_rank(rank, ranks[0], 0, ep, board) {
            Ok(b) => expand_ranks(ranks.drop_first(), rank + 1, ep, b),
            Err(e) => Err(e),
        }
    }
}

/// The rank strings of the input's placement section.
pub open spec fn placement_ranks(input: Seq<char>) -> Seq<Seq<char>> {
    spec_split(spec_split(input, ' ')[0], '/')
}

/// The input's en-passant target section.
pub open spec fn en_passant_section(input: Seq<char>) -> Seq<char> {
    spec_split(input, ' ')[3]
}

/// What `parse_fen` returns on every input: `InvalidSectionCount` carrying
/// the section count unless it is six, and otherwise the placement section
/// expanded rank by rank onto the empty board, with the fourth section as the
/// en-passant target name.
pub open spec fn parse_fen_spec(input: Seq<char>) -> Result<Map<Seq<char>, Piece>, FENParseError> {
    let sections = spec_split(input, ' ');
    if sections.len() != 6 {
        Err(FENParseError::InvalidSectionCount { count: sections.len() as usize })
    } else {
        expand_ranks(placement_ranks(input), 0, en_passant_section(input), Map::empty())
    }
}

/// Parse a FEN string into the board it describes.
pub fn parse_fen(input: &str) -> (r: Result<Board, FENParseError>)
    ensures
        match r {
            Ok(board) => board.wf() && parse_fen_spec(input@) == Ok::<
                Map<Seq<char>, Piece>,
                FENParseError,
            >(board@),
            Err(e) => parse_fen_spec(input@) == Err::<Map<Seq<char>, Piece>, FENParseError>(e),
        },
{
    let sections = split_str(input, ' ');
    if sections.len() != 6 {
        return Err(FENParseError::InvalidSectionCount { count: sections.len() });
    }
    let placement: &str = sections[0];
    let ep: &str = sections[3];
    let ranks = split_str(placement, '/');
    let ghost spec_ranks = spec_split(placement@, '/');
    let ghost target = expand_ranks(spec_ranks, 0, ep@, Map::<Seq<char>, Piece>::empty());
    proof {
        assert(parse_fen_spec(input@) == target);
    }
    let mut board = Board::new();
    let n_ranks = ranks.len();
    let mut ri: usize = 0;
    proof {
        assert(spec_ranks.skip(0) =~= spec_ranks);
    }
    while ri < n_ranks
        invariant
            ri <= n_ranks,
            n_ranks == ranks@.len(),
            ranks@.len() == spec_ranks.len(),
            forall|k: int| 0 <= k < ranks@.len() ==> ranks@[k]@ == spec_ranks[k],
            board.wf(),
            expand_ranks(spec_ranks.skip(ri as int), ri as int, ep@, board@) == target,
            parse_fen_spec(input@) == target,
        decreases n_ranks - ri,
    {
        let rank_str: &str = ranks[ri];
        let ghost rank_seq = spec_ranks[ri as int];
        let ghost entry_board = board@;
        let rank_len = rank_str.unicode_len();
        let mut file: usize = 0;
        let ghost mut file_m: int = 0;
        let mut ci: usize = 0;
        proof {
            assert(rank_seq.skip(0) =~= rank_seq);
        }
        while ci < rank_len
            invariant
                ci <= rank_len,
                rank_len == rank_seq.len(),
                rank_str@ == rank_seq,
                board.wf(),
                file <= 15,
                file_m >= 0,
                file_m < 8 ==> file == file_m,
                file_m >= 8 ==> file >= 8,
                expand_rank(ri as int, rank_seq.skip(ci as int), file_m, ep@, board@)
                    == expand_rank(ri as int, rank_seq, 0, ep@, entry_board),
                ri < n_ranks,
                n_ranks == ranks@.len(),
                ranks@.len() == spec_ranks.len(),
                rank_seq == spec_ranks[ri as int],
                forall|k: int| 0 <= k < ranks@.len() ==> ranks@[k]@ == spec_ranks[k],
                expand_ranks(spec_ranks.skip(ri as int), ri as int, ep@, entry_board) == target,
                parse_fen_spec(input@) == target,
            decreases rank_len - ci,
        {
            let c = rank_str.get_char(ci);
            proof {
                assert(rank_seq.skip(ci as int)[0] == rank_seq[ci as int]);
                assert(rank_seq.skip(ci as int).drop_first() =~= rank_seq.skip(ci as int + 1));
            }
            if '1' <= c && c <= '8' {
                let d = (c as u32 - '0' as u32) as usize;
                proof {
                    assert(d == digit_value(c));
                }
                if file < 8 {
                    file = file + d;
                }
                proof {
                    file_m = file_m + digit_value(c);
                }
            } else {
                if !is_piece_letter(c) {
                    proof {
                        assert(expand_rank(ri as int, rank_seq.skip(ci as int), file_m, ep@, board@)
                            == Err::<Map<Seq<char>, Piece>, FENParseError>(
                            FENParseError::InvalidPiece { invalid_piece: c },
                        ));
                        assert(spec_ranks.skip(ri as int)[0] == rank_seq);
                        lemma_expand_ranks_err(spec_ranks.skip(ri as int), ri as int, ep@,
                            entry_board, FENParseError::InvalidPiece { invalid_piece: c });
                    }
                    return Err(FENParseError::InvalidPiece { invalid_piece: c });
                }
                if ri >= 8 || file >= 8 {
                    proof {
                        assert(expand_rank(ri as int, rank_seq.skip(ci as int), file_m, ep@, board@)
                            == Err::<Map<Seq<char>, Piece>, FENParseError>(
                            FENParseError::DuplicateSquare,
                        ));
                        assert(spec_ranks.skip(ri as int)[0] == rank_seq);
                        lemma_expand_ranks_err(spec_ranks.skip(ri as int), ri as int, ep@,
                            entry_board, FENParseError::DuplicateSquare);
                    }
                    return Err(FENParseError::DuplicateSquare);
                }
                let name = location(ri, file);
                let is_target = str_eq(ep, name.as_str());
                match board.get(name.as_str()) {
                    Some(_) => {
                        proof {
                            assert(board@.contains_key(square_name(ri as int, file_m)));
                            assert(expand_rank(ri as int, rank_seq.skip(ci as int), file_m, ep@,
                                board@) == Err::<Map<Seq<char>, Piece>, FENParseError>(
                                FENParseError::DuplicateSquare,
                            ));
                            assert(spec_ranks.skip(ri as int)[0] == rank_seq);
                            lemma_expand_ranks_err(spec_ranks.skip(ri as int), ri as int, ep@,
                                entry_board, FENParseError::DuplicateSquare);
                        }
                        return Err(FENParseError::DuplicateSquare);
                    },
                    None => {},
                }
                match parse_piece(c, is_target) {
                    Ok(piece) => {
                        board.insert(name, piece);
                        file = file + 1;
                        proof {
                            file_m = file_m + 1;
                        }
                    },
                    Err(_) => {
                        proof {
                            assert(false);
                        }
                    },
                }
            }
            ci = ci + 1;
        }
        proof {
            assert(rank_seq.skip(rank_len as int) =~= Seq::<char>::empty());
            assert(expand_rank(ri as int, rank_seq, 0, ep@, entry_board) == Ok::<
                Map<Seq<char>, Piece>,
                FENParseError,
            >(board@));
            assert(spec_ranks.skip(ri as int)[0] == rank_seq);
            assert(spec_ranks.skip(ri as int).drop_first() =~= spec_ranks.skip(ri as int + 1));
        }
        ri = ri + 1;
    }
    proof {
        assert(spec_ranks.skip(n_ranks as int) =~= Seq::<Seq<char>>::empty());
    }
    Ok(board)
}

/// When one rank stops with an error, the whole expansion stops with it.
proof fn lemma_expand_ranks_err(
    ranks: Seq<Seq<char>>,
    rank: int,
    ep: Seq<char>,
    board: Map<Seq<char>, Piece>,
    e: FENParseError,
)
    requires
        ranks.len() > 0,
        expand_rank(rank, ranks[0], 0, ep, board) == Err::<Map<Seq<char>, Piece>, FENParseError>(e),
    ensures
        expand_ranks(ranks, rank, ep, board) == Err::<Map<Seq<char>, Piece>, FENParseError>(e),
{
}

} // verus!
