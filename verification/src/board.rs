//! The board state a successful parse returns: a mapping from square name to
//! the piece standing there. Only occupied squares have an entry. Viewed in
//! specifications as a `Map<Seq<char>, Piece>`.

use vstd::prelude::*;

use crate::pieces::Piece;

verus! {

/// The mapping that a sequence of entries denotes, later entries taking
/// precedence (the board never holds two entries with one key).
pub open spec fn entries_map(s: Seq<(String, Piece)>) -> Map<Seq<char>, Piece>
    decreases s.len(),
{
    if s.len() == 0 {
        Map::empty()
    } else {
        entries_map(s.drop_last()).insert(s.last().0@, s.last().1)
    }
}

/// No two entries share a key.
pub open spec fn entries_distinct(s: Seq<(String, Piece)>) -> bool {
    forall|i: int, j: int| 0 <= i < j < s.len() ==> s[i].0@ != s[j].0@
}

/// A key is in the mapping exactly when some entry holds it.
pub proof fn lemma_entries_map_contains(s: Seq<(String, Piece)>, k: Seq<char>)
    ensures
        entries_map(s).contains_key(k) <==> exists|i: int| 0 <= i < s.len() && s[i].0@ == k,
    decreases s.len(),
{
    if s.len() > 0 {
        lemma_entries_map_contains(s.drop_last(), k);
        if s.last().0@ == k {
            assert(s[s.len() - 1].0@ == k);
        } else if entries_map(s).contains_key(k) {
            let i = choose|i: int| 0 <= i < s.drop_last().len() && s.drop_last()[i].0@ == k;
            assert(s[i].0@ == k);
        } else {
            assert(forall|i: int| 0 <= i < s.len() - 1 ==> s.drop_last()[i].0@ == s[i].0@);
        }
    }
}

/// With distinct keys, the mapping sends each entry's key to its piece.
pub proof fn lemma_entries_map_index(s: Seq<(String, Piece)>, i: int)
    requires
        entries_distinct(s),
        0 <= i < s.len(),
    ensures
        entries_map(s).contains_key(s[i].0@),
        entries_map(s)[s[i].0@] == s[i].1,
    decreases s.len(),
{
    if i == s.len() - 1 {
        assert(s[i] == s.last());
    } else {
        assert(entries_distinct(s.drop_last()));
        assert(s.drop_last()[i] == s[i]);
        lemma_entries_map_index(s.drop_last(), i);
        assert(s[i].0@ != s.last().0@);
    }
}

/// With distinct keys, the mapping is finite and has one pair per entry.
pub proof fn lemma_entries_map_len(s: Seq<(String, Piece)>)
    requires
        entries_distinct(s),
    ensures
        entries_map(s).dom().finite(),
        entries_map(s).len() == s.len(),
    decreases s.len(),
{
    if s.len() > 0 {
        assert(entries_distinct(s.drop_last()));
        lemma_entries_map_len(s.drop_last());
        lemma_entries_map_contains(s.drop_last(), s.last().0@);
        assert(forall|i: int| 0 <= i < s.len() - 1 ==> s.drop_last()[i].0@ == s[i].0@);
        assert(!entries_map(s.drop_last()).contains_key(s.last().0@));
    }
}

/// A chess position: which piece stands on which square. Produced by
/// `parse_fen`; squares without a piece are absent.
pub struct Board {
    entries: Vec<(String, Piece)>,
}

impl Board {
    /// The mapping this board denotes.
    pub closed spec fn view(&self) -> Map<Seq<char>, Piece> {
        entries_map(self.entries@)
    }

    /// Each square appears at most once.
    pub closed spec fn wf(&self) -> bool {
        entries_distinct(self.entries@)
    }

    /// The empty board.
    pub fn new() -> (b: Board)
        ensures
            b.wf(),
            b@ == Map::<Seq<char>, Piece>::empty(),
    {
        Board { entries: Vec::new() }
    }

    /// How many squares are occupied.
    pub fn len(&self) -> (n: usize)
        requires
            self.wf(),
        ensures
            n == self@.len(),
    {
        proof {
            lemma_entries_map_len(self.entries@);
        }
        self.entries.len()
    }

    /// The piece on the named square, if any.
    pub fn get(&self, name: &str) -> (r: Option<Piece>)
        requires
            self.wf(),
        ensures
            match r {
                Some(p) => self@.contains_key(name@) && self@[name@] == p,
                None => !self@.contains_key(name@),
            },
    {
        let n = self.entries.len();
        let mut i: usize = 0;
        while i < n
            invariant
                i <= n,
                n == self.entries@.len(),
                self.wf(),
                forall|k: int| 0 <= k < i ==> self.entries@[k].0@ != name@,
            decreases n - i,
        {
            if crate::split::str_eq(self.entries[i].0.as_str(), name) {
                proof {
                    lemma_entries_map_index(self.entries@, i as int);
                }
                return Some(self.entries[i].1);
            }
            i = i + 1;
        }
        proof {
            lemma_entries_map_contains(self.entries@, name@);
        }
        None
    }

    /// The occupied squares with their pieces: one entry per occupied square,
    /// together exactly the mapping this board denotes.
    pub fn entries(&self) -> (r: &Vec<(String, Piece)>)
        requires
            self.wf(),
        ensures
            r@.len() == self@.len(),
            forall|i: int, j: int| 0 <= i < j < r@.len() ==> r@[i].0@ != r@[j].0@,
            forall|i: int|
                0 <= i < r@.len() ==> self@.contains_key(#[trigger] r@[i].0@) && self@[r@[i].0@]
                    == r@[i].1,
            forall|k: Seq<char>|
                #[trigger] self@.contains_key(k) ==> exists|i: int|
                    0 <= i < r@.len() && r@[i].0@ == k,
    {
        proof {
            lemma_entries_map_len(self.entries@);
            assert forall|i: int| 0 <= i < self.entries@.len() implies entries_map(
                self.entries@,
            ).contains_key(#[trigger] self.entries@[i].0@) && entries_map(
                self.entries@,
            )[self.entries@[i].0@] == self.entries@[i].1 by {
                lemma_entries_map_index(self.entries@, i);
            }
            assert forall|k: Seq<char>| #[trigger] entries_map(self.entries@).contains_key(
                k,
            ) implies exists|i: int| 0 <= i < self.entries@.len() && self.entries@[i].0@ == k by {
                lemma_entries_map_contains(self.entries@, k);
            }
        }
        &self.entries
    }

    /// Put a piece on a square not yet occupied.
    pub fn insert(&mut self, name: String, piece: Piece)
        requires
            old(self).wf(),
            !old(self)@.contains_key(name@),
        ensures
            final(self).wf(),
            final(self)@ == old(self)@.insert(name@, piece),
    {
        proof {
            lemma_entries_map_contains(self.entries@, name@);
        }
        self.entries.push((name, piece));
        proof {
            assert(self.entries@.drop_last() =~= old(self).entries@);
            assert(self.entries@.last().0@ == name@);
        }
    }
}

} // verus!
