//! The laws of the parser, stated and proved once and for all inputs: how the
//! section count is policed, how a piece's colour follows from its letter's
//! case, and how the en-passant flag is tied to the en-passant target section.

use vstd::prelude::*;

use crate::pieces::FENParseError;
use crate::pieces::Piece;
use crate::pieces::PieceColour;
use crate::pieces::colour_of;
use crate::pieces::colour_of_piece;
use crate::pieces::is_piece_char;
use crate::pieces::piece_of;
use crate::parser::en_passant_section;
use crate::parser::expand_rank;
use crate::parser::expand_ranks;
use crate::parser::is_skip_digit;
use crate::parser::parse_fen_spec;
use crate::parser::placement_ranks;
use crate::split::spec_split;
use crate::squares::lemma_square_name_injective;
use crate::squares::square_name;

verus! {

/// Whenever the input does not hold exactly six space-separated sections, the
/// parse fails with `InvalidSectionCount` carrying the actual section count.
pub proof fn lemma_section_count(input: Seq<char>)
    requires
        spec_split(input, ' ').len() != 6,
    ensures
        parse_fen_spec(input) == Err::<Map<Seq<char>, Piece>, FENParseError>(
            FENParseError::InvalidSectionCount { count: spec_split(input, ' ').len() as usize },
        ),
{
}

/// A piece's colour follows from its letter's case: every capital letter
/// decodes to a White piece and every small letter to a Black one, the pawn
/// letters included.
pub proof fn lemma_colour_from_case(c: char, is_target: bool)
    requires
        is_piece_char(c),
    ensures
        colour_of_piece(piece_of(c, is_target)) == Some(colour_of(c)),
        (colour_of(c) == PieceColour::White) <==> ('A' <= c && c <= 'Z'),
        c == 'P' ==> piece_of(c, is_target) == Piece::Pawn(PieceColour::White, is_target),
        c == 'p' ==> piece_of(c, is_target) == Piece::Pawn(PieceColour::Black, is_target),
{
}

/// Every pawn on the board is flagged exactly when it stands on the
/// en-passant target square.
pub open spec fn pawn_flags_consistent(m: Map<Seq<char>, Piece>, ep: Seq<char>) -> bool {
    forall|k: Seq<char>|
        #[trigger] m.contains_key(k) ==> (m[k] matches Piece::Pawn(_, t) ==> t == (k == ep))
}

proof fn lemma_expand_rank_pawn_flags(
    rank: int,
    s: Seq<char>,
    file: int,
    ep: Seq<char>,
    board: Map<Seq<char>, Piece>,
)
    requires
        expand_rank(rank, s, file, ep, board).is_ok(),
        pawn_flags_consistent(board, ep),
    ensures
        pawn_flags_consistent(expand_rank(rank, s, file, ep, board)->Ok_0, ep),
    decreases s.len(),
{
    if s.len() == 0 {
    } else {
        let c = s[0];
        if is_skip_digit(c) {
            lemma_expand_rank_pawn_flags(rank, s.drop_first(), file + crate::parser::digit_value(c), ep, board);
        } else {
            let name = crate::squares::square_name(rank, file);
            let grown = board.insert(name, piece_of(c, ep == name));
            assert(pawn_flags_consistent(grown, ep));
            lemma_expand_rank_pawn_flags(rank, s.drop_first(), file + 1, ep, grown);
        }
    }
}

proof fn lemma_expand_ranks_pawn_flags(
    ranks: Seq<Seq<char>>,
    rank: int,
    ep: Seq<char>,
    board: Map<Seq<char>, Piece>,
)
    requires
        expand_ranks(ranks, rank, ep, board).is_ok(),
        pawn_flags_consistent(board, ep),
    ensures
        pawn_flags_consistent(expand_ranks(ranks, rank, ep, board)->Ok_0, ep),
    decreases ranks.len(),
{
    if ranks.len() == 0 {
    } else {
        lemma_expand_rank_pawn_flags(rank, ranks[0], 0, ep, board);
        let grown = expand_rank(rank, ranks[0], 0, ep, board)->Ok_0;
        lemma_expand_ranks_pawn_flags(ranks.drop_first(), rank + 1, ep, grown);
    }
}

/// En-passant tagging: on every board a parse returns, a pawn's target flag
/// is set exactly when the en-passant target section names that pawn's
/// square; every other pawn's flag is clear.
pub proof fn lemma_en_passant_tagging(
    input: Seq<char>,
    m: Map<Seq<char>, Piece>,
    k: Seq<char>,
    colour: PieceColour,
    is_target: bool,
)
    requires
        parse_fen_spec(input) == Ok::<Map<Seq<char>, Piece>, FENParseError>(m),
        m.contains_key(k),
        m[k] == Piece::Pawn(colour, is_target),
    ensures
        is_target == (k == spec_split(input, ' ')[3]),
{
    let sections = spec_split(input, ' ');
    let ranks = spec_split(sections[0], '/');
    assert(pawn_flags_consistent(Map::<Seq<char>, Piece>::empty(), sections[3]));
    lemma_expand_ranks_pawn_flags(ranks, 0, sections[3], Map::empty());
}

/// Every square a rank expansion adds lies on the board, in that very rank.
proof fn lemma_expand_rank_keys(
    rank: int,
    s: Seq<char>,
    file: int,
    ep: Seq<char>,
    board: Map<Seq<char>, Piece>,
)
    requires
        0 <= rank,
        0 <= file,
        expand_rank(rank, s, file, ep, board).is_ok(),
    ensures
        forall|k: Seq<char>|
            #[trigger] (expand_rank(rank, s, file, ep, board)->Ok_0).contains_key(k)
                ==> board.contains_key(k) || (0 <= rank < 8 && exists|f: int|
                0 <= f < 8 && k == square_name(rank, f)),
    decreases s.len(),
{
    if s.len() == 0 {
    } else {
        let c = s[0];
        if is_skip_digit(c) {
            lemma_expand_rank_keys(rank, s.drop_first(), file + crate::parser::digit_value(c), ep, board);
        } else {
            let name = square_name(rank, file);
            let grown = board.insert(name, piece_of(c, ep == name));
            assert(rank < 8 && file < 8);
            lemma_expand_rank_keys(rank, s.drop_first(), file + 1, ep, grown);
            assert forall|k: Seq<char>| #[trigger] grown.contains_key(k) implies
                board.contains_key(k) || (0 <= rank < 8 && exists|f: int|
                0 <= f < 8 && k == square_name(rank, f)) by {
                if k == name {
                    assert(0 <= file < 8 && name == square_name(rank, file));
                }
            }
        }
    }
}

/// Every square an expansion of several ranks adds lies on the board, in a
/// rank at or after the one the expansion starts from.
proof fn lemma_expand_ranks_keys(
    ranks: Seq<Seq<char>>,
    rank: int,
    ep: Seq<char>,
    board: Map<Seq<char>, Piece>,
)
    requires
        0 <= rank,
        expand_ranks(ranks, rank, ep, board).is_ok(),
    ensures
        forall|k: Seq<char>|
            #[trigger] (expand_ranks(ranks, rank, ep, board)->Ok_0).contains_key(k)
                ==> board.contains_key(k) || (exists|r: int, f: int|
                rank <= r < rank + ranks.len() && r < 8 && 0 <= f < 8 && k == square_name(r, f)),
    decreases ranks.len(),
{
    if ranks.len() == 0 {
    } else {
        lemma_expand_rank_keys(rank, ranks[0], 0, ep, board);
        let grown = expand_rank(rank, ranks[0], 0, ep, board)->Ok_0;
        lemma_expand_ranks_keys(ranks.drop_first(), rank + 1, ep, grown);
    }
}

/// A rank string without a piece letter places nothing.
proof fn lemma_expand_rank_no_piece(
    rank: int,
    s: Seq<char>,
    file: int,
    ep: Seq<char>,
    board: Map<Seq<char>, Piece>,
)
    requires
        expand_rank(rank, s, file, ep, board).is_ok(),
        forall|i: int| 0 <= i < s.len() ==> !is_piece_char(#[trigger] s[i]),
    ensures
        expand_rank(rank, s, file, ep, board) == Ok::<Map<Seq<char>, Piece>, FENParseError>(board),
    decreases s.len(),
{
    if s.len() > 0 {
        assert(!is_piece_char(s[0]));
        lemma_expand_rank_no_piece(rank, s.drop_first(), file + crate::parser::digit_value(s[0]), ep, board);
    }
}

proof fn lemma_expand_ranks_skip_rank(
    ranks: Seq<Seq<char>>,
    rank: int,
    ep: Seq<char>,
    board: Map<Seq<char>, Piece>,
    j: int,
)
    requires
        expand_ranks(ranks, rank, ep, board).is_ok(),
        0 <= rank,
        0 <= j < ranks.len(),
        rank + j < 8,
        forall|i: int| 0 <= i < ranks[j].len() ==> !is_piece_char(#[trigger] ranks[j][i]),
        forall|f: int| 0 <= f < 8 ==> !board.contains_key(#[trigger] square_name(rank + j, f)),
    ensures
        forall|f: int|
            0 <= f < 8 ==> !(expand_ranks(ranks, rank, ep, board)->Ok_0).contains_key(
                #[trigger] square_name(rank + j, f),
            ),
    decreases ranks.len(),
{
    let grown = expand_rank(rank, ranks[0], 0, ep, board)->Ok_0;
    let whole = expand_ranks(ranks, rank, ep, board)->Ok_0;
    if j == 0 {
        lemma_expand_rank_no_piece(rank, ranks[0], 0, ep, board);
        lemma_expand_ranks_keys(ranks.drop_first(), rank + 1, ep, board);
        assert forall|f: int| 0 <= f < 8 implies !whole.contains_key(
            #[trigger] square_name(rank, f),
        ) by {
            if whole.contains_key(square_name(rank, f)) {
                let (r2, f2) = choose|r2: int, f2: int|
                    rank + 1 <= r2 < 8 && 0 <= f2 < 8 && square_name(rank, f) == square_name(
                        r2,
                        f2,
                    );
                lemma_square_name_injective(rank, f, r2, f2);
            }
        }
    } else {
        lemma_expand_rank_keys(rank, ranks[0], 0, ep, board);
        assert forall|f: int| 0 <= f < 8 implies !grown.contains_key(
            #[trigger] square_name(rank + j, f),
        ) by {
            if grown.contains_key(square_name(rank + j, f)) {
                let f2 = choose|f2: int| 0 <= f2 < 8 && square_name(rank + j, f) == square_name(
                    rank,
                    f2,
                );
                lemma_square_name_injective(rank + j, f, rank, f2);
            }
        }
        assert(ranks.drop_first()[j - 1] == ranks[j]);
        lemma_expand_ranks_skip_rank(ranks.drop_first(), rank + 1, ep, grown, j - 1);
    }
}

/// A rank string that is one skip digit `'8'` leaves its whole rank empty: no
/// square of that rank appears on the board a parse returns.
pub proof fn lemma_full_rank_skip(input: Seq<char>, m: Map<Seq<char>, Piece>, j: int)
    requires
        parse_fen_spec(input) == Ok::<Map<Seq<char>, Piece>, FENParseError>(m),
        0 <= j < spec_split(spec_split(input, ' ')[0], '/').len(),
        j < 8,
        spec_split(spec_split(input, ' ')[0], '/')[j] == seq!['8'],
    ensures
        forall|f: int| 0 <= f < 8 ==> !m.contains_key(#[trigger] square_name(j, f)),
{
    let sections = spec_split(input, ' ');
    let ranks = spec_split(sections[0], '/');
    assert(forall|i: int| 0 <= i < ranks[j].len() ==> !is_piece_char(#[trigger] ranks[j][i]));
    lemma_expand_ranks_skip_rank(ranks, 0, sections[3], Map::empty(), j);
}

/// Scanning a rank whose clean prefix ends at an unrecognised character stops
/// with `InvalidPiece` carrying that character.
proof fn lemma_expand_rank_err_at(
    rank: int,
    s: Seq<char>,
    file: int,
    ep: Seq<char>,
    board: Map<Seq<char>, Piece>,
    i: int,
)
    requires
        0 <= i < s.len(),
        !is_skip_digit(s[i]),
        !is_piece_char(s[i]),
        forall|j: int| 0 <= j < i ==> is_skip_digit(#[trigger] s[j]) || is_piece_char(s[j]),
        expand_rank(rank, s.take(i), file, ep, board).is_ok(),
    ensures
        expand_rank(rank, s, file, ep, board) == Err::<Map<Seq<char>, Piece>, FENParseError>(
            FENParseError::InvalidPiece { invalid_piece: s[i] },
        ),
    decreases i,
{
    if i == 0 {
    } else {
        let c = s[0];
        assert(is_skip_digit(c) || is_piece_char(c));
        assert(s.take(i)[0] == c);
        assert(s.take(i).drop_first() =~= s.drop_first().take(i - 1));
        assert(s.drop_first()[i - 1] == s[i]);
        assert(forall|j: int|
            0 <= j < i - 1 ==> is_skip_digit(#[trigger] s.drop_first()[j]) || is_piece_char(
                s.drop_first()[j],
            ));
        if is_skip_digit(c) {
            lemma_expand_rank_err_at(
                rank,
                s.drop_first(),
                file + crate::parser::digit_value(c),
                ep,
                board,
                i - 1,
            );
        } else {
            assert(!(rank >= 8 || file >= 8));
            let name = square_name(rank, file);
            assert(!board.contains_key(name));
            let grown = board.insert(name, piece_of(c, ep == name));
            lemma_expand_rank_err_at(rank, s.drop_first(), file + 1, ep, grown, i - 1);
        }
    }
}

/// When the ranks before the one at hand expand cleanly and that rank stops
/// with an error, the whole expansion stops with it.
proof fn lemma_expand_ranks_err_at(
    ranks: Seq<Seq<char>>,
    rank: int,
    ep: Seq<char>,
    board: Map<Seq<char>, Piece>,
    k: int,
    e: FENParseError,
)
    requires
        0 <= k < ranks.len(),
        expand_ranks(ranks.take(k), rank, ep, board).is_ok(),
        expand_rank(
            rank + k,
            ranks[k],
            0,
            ep,
            expand_ranks(ranks.take(k), rank, ep, board)->Ok_0,
        ) == Err::<Map<Seq<char>, Piece>, FENParseError>(e),
    ensures
        expand_ranks(ranks, rank, ep, board) == Err::<Map<Seq<char>, Piece>, FENParseError>(e),
    decreases k,
{
    if k == 0 {
        assert(ranks.take(0) =~= Seq::<Seq<char>>::empty());
    } else {
        assert(ranks.take(k)[0] == ranks[0]);
        let first = expand_rank(rank, ranks[0], 0, ep, board);
        assert(first.is_ok());
        let b0 = first->Ok_0;
        assert(ranks.take(k).drop_first() =~= ranks.drop_first().take(k - 1));
        assert(ranks.drop_first()[k - 1] == ranks[k]);
        lemma_expand_ranks_err_at(ranks.drop_first(), rank + 1, ep, b0, k - 1, e);
    }
}

/// A placement character that is neither a skip digit nor a piece letter
/// fails the parse with `InvalidPiece` carrying that very character, provided
/// the scan reaches it: the input has six sections, the ranks before its rank
/// expand cleanly, and so do the characters before it on its own rank.
pub proof fn lemma_invalid_piece(input: Seq<char>, k: int, i: int)
    requires
        spec_split(input, ' ').len() == 6,
        0 <= k < placement_ranks(input).len(),
        0 <= i < placement_ranks(input)[k].len(),
        !is_skip_digit(placement_ranks(input)[k][i]),
        !is_piece_char(placement_ranks(input)[k][i]),
        forall|j: int|
            0 <= j < i ==> is_skip_digit(#[trigger] placement_ranks(input)[k][j]) || is_piece_char(
                placement_ranks(input)[k][j],
            ),
        expand_ranks(
            placement_ranks(input).take(k),
            0,
            en_passant_section(input),
            Map::empty(),
        ).is_ok(),
        expand_rank(
            k,
            placement_ranks(input)[k].take(i),
            0,
            en_passant_section(input),
            expand_ranks(
                placement_ranks(input).take(k),
                0,
                en_passant_section(input),
                Map::empty(),
            )->Ok_0,
        ).is_ok(),
    ensures
        parse_fen_spec(input) == Err::<Map<Seq<char>, Piece>, FENParseError>(
            FENParseError::InvalidPiece { invalid_piece: placement_ranks(input)[k][i] },
        ),
{
    let ranks = placement_ranks(input);
    let ep = en_passant_section(input);
    let before = expand_ranks(ranks.take(k), 0, ep, Map::empty())->Ok_0;
    lemma_expand_rank_err_at(k, ranks[k], 0, ep, before, i);
    lemma_expand_ranks_err_at(
        ranks,
        0,
        ep,
        Map::empty(),
        k,
        FENParseError::InvalidPiece { invalid_piece: ranks[k][i] },
    );
}

/// The first anomaly of the scan wins: with six sections, when every rank
/// before rank `k` holds only valid characters whose pieces all fit on the
/// board, and on rank `k` every character before position `i` is valid with
/// its pieces fitting, an unrecognised character at position `i` fails the
/// parse with `InvalidPiece` carrying that very character.
pub proof fn lemma_first_invalid_piece(input: Seq<char>, k: int, i: int)
    requires
        spec_split(input, ' ').len() == 6,
        0 <= k < placement_ranks(input).len(),
        k < 8,
        forall|j: int| 0 <= j < k ==> rank_chars_valid(#[trigger] placement_ranks(input)[j]),
        forall|j: int| 0 <= j < k ==> rank_fits(#[trigger] placement_ranks(input)[j]),
        0 <= i < placement_ranks(input)[k].len(),
        forall|j: int|
            0 <= j < i ==> is_skip_digit(#[trigger] placement_ranks(input)[k][j]) || is_piece_char(
                placement_ranks(input)[k][j],
            ),
        rank_fits(placement_ranks(input)[k].take(i)),
        !is_skip_digit(placement_ranks(input)[k][i]),
        !is_piece_char(placement_ranks(input)[k][i]),
    ensures
        parse_fen_spec(input) == Err::<Map<Seq<char>, Piece>, FENParseError>(
            FENParseError::InvalidPiece { invalid_piece: placement_ranks(input)[k][i] },
        ),
{
    let ranks = placement_ranks(input);
    let ep = en_passant_section(input);
    let prefix_ranks = ranks.take(k);
    assert(forall|j: int|
        0 <= j < prefix_ranks.len() ==> #[trigger] prefix_ranks[j] == ranks[j]);
    lemma_expand_ranks_ok(prefix_ranks, 0, ep, Map::empty());
    let before = expand_ranks(prefix_ranks, 0, ep, Map::empty())->Ok_0;
    lemma_expand_ranks_keys(prefix_ranks, 0, ep, Map::empty());
    assert forall|f: int| 0 <= f < 8 implies !before.contains_key(
        #[trigger] square_name(k, f),
    ) by {
        if before.contains_key(square_name(k, f)) {
            let (r2, f2) = choose|r2: int, f2: int|
                0 <= r2 < prefix_ranks.len() && r2 < 8 && 0 <= f2 < 8 && square_name(k, f)
                    == square_name(r2, f2);
            lemma_square_name_injective(k, f, r2, f2);
        }
    }
    let pre = ranks[k].take(i);
    assert(forall|j: int| 0 <= j < pre.len() ==> #[trigger] pre[j] == ranks[k][j]);
    lemma_expand_rank_ok(k, pre, 0, ep, before);
    lemma_invalid_piece(input, k, i);
}

/// Every character of the rank string is a skip digit or a piece letter.
pub open spec fn rank_chars_valid(s: Seq<char>) -> bool {
    forall|i: int| 0 <= i < s.len() ==> is_skip_digit(#[trigger] s[i]) || is_piece_char(s[i])
}

/// How many files the rank string covers: a skip digit covers its value, a
/// piece letter one file.
pub open spec fn rank_width(s: Seq<char>) -> int
    decreases s.len(),
{
    if s.len() == 0 {
        0
    } else {
        (if is_skip_digit(s[0]) {
            crate::parser::digit_value(s[0])
        } else {
            1
        }) + rank_width(s.drop_first())
    }
}

/// Every piece letter of the rank string lands within the eight files.
pub open spec fn rank_fits(s: Seq<char>) -> bool {
    forall|i: int|
        0 <= i < s.len() && is_piece_char(#[trigger] s[i]) ==> rank_width(s.take(i)) < 8
}

proof fn lemma_expand_rank_ok(
    rank: int,
    s: Seq<char>,
    file: int,
    ep: Seq<char>,
    board: Map<Seq<char>, Piece>,
)
    requires
        0 <= rank < 8,
        0 <= file,
        rank_chars_valid(s),
        forall|i: int|
            0 <= i < s.len() && is_piece_char(#[trigger] s[i]) ==> file + rank_width(s.take(i))
                < 8,
        forall|f: int| file <= f < 8 ==> !board.contains_key(#[trigger] square_name(rank, f)),
    ensures
        expand_rank(rank, s, file, ep, board).is_ok(),
        forall|k: Seq<char>|
            #[trigger] (expand_rank(rank, s, file, ep, board)->Ok_0).contains_key(k)
                ==> board.contains_key(k) || (exists|f: int|
                file <= f < 8 && k == square_name(rank, f)),
    decreases s.len(),
{
    if s.len() == 0 {
    } else {
        let c = s[0];
        let rest = s.drop_first();
        assert(forall|i: int|
            0 <= i < rest.len() ==> is_skip_digit(#[trigger] rest[i]) || is_piece_char(rest[i]));
        let step: int = if is_skip_digit(c) {
            crate::parser::digit_value(c)
        } else {
            1
        };
        assert(1 <= step <= 8);
        assert forall|i: int| 0 <= i < rest.len() && is_piece_char(#[trigger] rest[i]) implies
            (file + step) + rank_width(rest.take(i)) < 8 by {
            assert(rest[i] == s[i + 1]);
            assert(s.take(i + 1).drop_first() =~= rest.take(i));
            assert(s.take(i + 1)[0] == c);
            assert(rank_width(s.take(i + 1)) == step + rank_width(rest.take(i)));
            assert(file + rank_width(s.take(i + 1)) < 8);
        }
        if is_skip_digit(c) {
            lemma_expand_rank_ok(rank, rest, file + step, ep, board);
            assert forall|k: Seq<char>|
                #[trigger] (expand_rank(rank, s, file, ep, board)->Ok_0).contains_key(k)
                    && !board.contains_key(k) implies (exists|f: int|
                file <= f < 8 && k == square_name(rank, f)) by {
                let f = choose|f: int| file + step <= f < 8 && k == square_name(rank, f);
                assert(file <= f < 8 && k == square_name(rank, f));
            }
        } else {
            assert(is_piece_char(c));
            assert(s.take(0) =~= Seq::<char>::empty());
            assert(rank_width(s.take(0)) == 0);
            assert(file < 8);
            let name = square_name(rank, file);
            assert(!board.contains_key(name));
            let grown = board.insert(name, piece_of(c, ep == name));
            assert forall|f: int| file + 1 <= f < 8 implies !grown.contains_key(
                #[trigger] square_name(rank, f),
            ) by {
                if square_name(rank, f) == name {
                    lemma_square_name_injective(rank, f, rank, file);
                }
            }
            lemma_expand_rank_ok(rank, rest, file + 1, ep, grown);
            assert forall|k: Seq<char>|
                #[trigger] (expand_rank(rank, s, file, ep, board)->Ok_0).contains_key(k)
                    && !board.contains_key(k) implies (exists|f: int|
                file <= f < 8 && k == square_name(rank, f)) by {
                if grown.contains_key(k) {
                    if k == name {
                        assert(file <= file < 8 && k == square_name(rank, file));
                    }
                } else {
                    let f = choose|f: int| file + 1 <= f < 8 && k == square_name(rank, f);
                    assert(file <= f < 8 && k == square_name(rank, f));
                }
            }
        }
    }
}

proof fn lemma_expand_ranks_ok(
    ranks: Seq<Seq<char>>,
    rank: int,
    ep: Seq<char>,
    board: Map<Seq<char>, Piece>,
)
    requires
        0 <= rank,
        rank + ranks.len() <= 8,
        forall|j: int| 0 <= j < ranks.len() ==> rank_chars_valid(#[trigger] ranks[j]),
        forall|j: int| 0 <= j < ranks.len() ==> rank_fits(#[trigger] ranks[j]),
        forall|r: int, f: int|
            rank <= r < 8 && 0 <= f < 8 ==> !board.contains_key(#[trigger] square_name(r, f)),
    ensures
        expand_ranks(ranks, rank, ep, board).is_ok(),
    decreases ranks.len(),
{
    if ranks.len() > 0 {
        assert(rank_chars_valid(ranks[0]) && rank_fits(ranks[0]));
        assert(forall|f: int|
            0 <= f < 8 ==> !board.contains_key(#[trigger] square_name(rank, f)));
        lemma_expand_rank_ok(rank, ranks[0], 0, ep, board);
        let grown = expand_rank(rank, ranks[0], 0, ep, board)->Ok_0;
        assert forall|r: int, f: int| rank + 1 <= r < 8 && 0 <= f < 8 implies !grown.contains_key(
            #[trigger] square_name(r, f),
        ) by {
            if grown.contains_key(square_name(r, f)) {
                let f2 = choose|f2: int| 0 <= f2 < 8 && square_name(r, f) == square_name(rank, f2);
                lemma_square_name_injective(r, f, rank, f2);
            }
        }
        assert(forall|j: int|
            0 <= j < ranks.drop_first().len() ==> #[trigger] ranks.drop_first()[j]
                == ranks[j + 1]);
        lemma_expand_ranks_ok(ranks.drop_first(), rank + 1, ep, grown);
    }
}

/// Success is owed: an input of six sections whose placement has at most
/// eight ranks, every character of them a skip digit or a piece letter, and
/// every piece landing within the eight files, parses without error.
pub proof fn lemma_parse_fen_ok(input: Seq<char>)
    requires
        spec_split(input, ' ').len() == 6,
        placement_ranks(input).len() <= 8,
        forall|j: int|
            0 <= j < placement_ranks(input).len() ==> rank_chars_valid(
                #[trigger] placement_ranks(input)[j],
            ),
        forall|j: int|
            0 <= j < placement_ranks(input).len() ==> rank_fits(
                #[trigger] placement_ranks(input)[j],
            ),
    ensures
        parse_fen_spec(input).is_ok(),
{
    lemma_expand_ranks_ok(placement_ranks(input), 0, en_passant_section(input), Map::empty());
}

} // verus!
