//! Square naming: a (rank index, file index) pair becomes an algebraic-style
//! name, one file letter followed by one rank digit.
//!
//! The rank digit is the raw 0-based index in which the placement section
//! lists the ranks, so names run `"a0"` through `"h7"`; the en-passant target
//! section is compared against these names verbatim, which keeps the scheme
//! consistent for every caller.

use vstd::prelude::*;

verus! {

/// The file letter for a file index: 'a' through 'h'. Only meaningful below 8.
pub open spec fn file_char(file: int) -> char
    recommends
        0 <= file < 8,
{
    if file == 0 {
        'a'
    } else if file == 1 {
        'b'
    } else if file == 2 {
        'c'
    } else if file == 3 {
        'd'
    } else if file == 4 {
        'e'
    } else if file == 5 {
        'f'
    } else if file == 6 {
        'g'
    } else {
        'h'
    }
}

/// The rank digit for a rank index: '0' through '7'. Only meaningful below 8.
pub open spec fn rank_char(rank: int) -> char
    recommends
        0 <= rank < 8,
{
    if rank == 0 {
        '0'
    } else if rank == 1 {
        '1'
    } else if rank == 2 {
        '2'
    } else if rank == 3 {
        '3'
    } else if rank == 4 {
        '4'
    } else if rank == 5 {
        '5'
    } else if rank == 6 {
        '6'
    } else {
        '7'
    }
}

/// The two-character name of the square at (rank, file).
pub open spec fn square_name(rank: int, file: int) -> Seq<char>
    recommends
        0 <= rank < 8,
        0 <= file < 8,
{
    seq![file_char(file), rank_char(rank)]
}

/// Distinct on-board squares have distinct names.
pub proof fn lemma_square_name_injective(r1: int, f1: int, r2: int, f2: int)
    requires
        0 <= r1 < 8,
        0 <= f1 < 8,
        0 <= r2 < 8,
        0 <= f2 < 8,
        square_name(r1, f1) == square_name(r2, f2),
    ensures
        r1 == r2,
        f1 == f2,
{
    assert(square_name(r1, f1)[0] == square_name(r2, f2)[0]);
    assert(square_name(r1, f1)[1] == square_name(r2, f2)[1]);
}

/// The name of the square at (rank, file), as a fresh `String`.
pub fn location(rank: usize, file: usize) -> (r: String)
    requires
        rank < 8,
        file < 8,
    ensures
        r@ == square_name(rank as int, file as int),
{
    proof {
        reveal_strlit("a");
        reveal_strlit("b");
        reveal_strlit("c");
        reveal_strlit("d");
        reveal_strlit("e");
        reveal_strlit("f");
        reveal_strlit("g");
        reveal_strlit("h");
        reveal_strlit("0");
        reveal_strlit("1");
        reveal_strlit("2");
        reveal_strlit("3");
        reveal_strlit("4");
        reveal_strlit("5");
        reveal_strlit("6");
        reveal_strlit("7");
    }
    let file_letter: &str = match file {
        0 => "a",
        1 => "b",
        2 => "c",
        3 => "d",
        4 => "e",
        5 => "f",
        6 => "g",
        _ => "h",
    };
    let rank_digit: &str = match rank {
        0 => "0",
        1 => "1",
        2 => "2",
        3 => "3",
        4 => "4",
        5 => "5",
        6 => "6",
        _ => "7",
    };
    let name = String::from_str(file_letter).concat(rank_digit);
    proof {
        assert(name@ =~= square_name(rank as int, file as int));
    }
    name
}

} // verus!
