//! Splitting a string on a separator character, with the separator-free parts
//! kept in order: the spec-level definition, the executable splitter proved
//! against it, and character-wise string equality.

use vstd::prelude::*;

verus! {

/// The parts of `s` between occurrences of `sep`, in order. Always at least
/// one part; an empty input gives one empty part, and each separator ends the
/// part before it, so separators at the edges or side by side give empty
/// parts.
pub open spec fn spec_split(s: Seq<char>, sep: char) -> Seq<Seq<char>>
    decreases s.len(),
{
    if s.len() == 0 {
        seq![Seq::<char>::empty()]
    } else if s[0] == sep {
        seq![Seq::<char>::empty()] + spec_split(s.drop_first(), sep)
    } else {
        let rest = spec_split(s.drop_first(), sep);
        seq![seq![s[0]] + rest[0]] + rest.drop_first()
    }
}

/// A string without the separator is one single part.
pub proof fn lemma_split_no_sep(s: Seq<char>, sep: char)
    requires
        forall|k: int| 0 <= k < s.len() ==> s[k] != sep,
    ensures
        spec_split(s, sep) == seq![s],
    decreases s.len(),
{
    if s.len() == 0 {
        assert(s =~= Seq::<char>::empty());
        assert(spec_split(s, sep) =~= seq![s]);
    } else {
        lemma_split_no_sep(s.drop_first(), sep);
        let rest = spec_split(s.drop_first(), sep);
        assert(rest == seq![s.drop_first()]);
        assert(rest[0] == s.drop_first());
        assert(seq![s[0]] + rest[0] =~= s);
        assert(rest.drop_first() =~= Seq::<Seq<char>>::empty());
        assert(spec_split(s, sep) =~= seq![s]);
    }
}

/// The first separator ends the first part: splitting `prefix + sep + rest`
/// where `prefix` is separator-free yields `prefix` and then the parts of
/// `rest`.
pub proof fn lemma_split_at_first_sep(prefix: Seq<char>, rest: Seq<char>, sep: char)
    requires
        forall|k: int| 0 <= k < prefix.len() ==> prefix[k] != sep,
    ensures
        spec_split(prefix + seq![sep] + rest, sep) == seq![prefix] + spec_split(rest, sep),
    decreases prefix.len(),
{
    let s = prefix + seq![sep] + rest;
    assert(s.len() > 0);
    if prefix.len() == 0 {
        assert(s[0] == sep);
        assert(s.drop_first() =~= rest);
        assert(spec_split(s, sep) == seq![Seq::<char>::empty()] + spec_split(rest, sep));
        assert(prefix =~= Seq::<char>::empty());
        assert(spec_split(s, sep) =~= seq![prefix] + spec_split(rest, sep));
    } else {
        assert(s[0] == prefix[0]);
        assert(s[0] != sep);
        assert(s.drop_first() =~= prefix.drop_first() + seq![sep] + rest);
        lemma_split_at_first_sep(prefix.drop_first(), rest, sep);
        let inner = spec_split(s.drop_first(), sep);
        assert(inner == seq![prefix.drop_first()] + spec_split(rest, sep));
        assert(spec_split(s, sep) == seq![seq![s[0]] + inner[0]] + inner.drop_first());
        assert(inner[0] == prefix.drop_first());
        assert(seq![s[0]] + inner[0] =~= prefix);
        assert(inner.drop_first() =~= spec_split(rest, sep));
        assert(spec_split(s, sep) =~= seq![prefix] + spec_split(rest, sep));
    }
}

/// Whether two strings hold the same characters.
pub fn str_eq(a: &str, b: &str) -> (r: bool)
    ensures
        r == (a@ == b@),
{
    let a_len = a.unicode_len();
    let b_len = b.unicode_len();
    if a_len != b_len {
        return false;
    }
    let mut i: usize = 0;
    while i < a_len
        invariant
            i <= a_len,
            a_len == a@.len(),
            a_len == b@.len(),
            forall|k: int| 0 <= k < i ==> a@[k] == b@[k],
        decreases a_len - i,
    {
        if a.get_char(i) != b.get_char(i) {
            return false;
        }
        i = i + 1;
    }
    proof {
        assert(a@ =~= b@);
    }
    true
}

/// Split `s` into its parts between occurrences of `sep`.
pub fn split_str<'a>(s: &'a str, sep: char) -> (parts: Vec<&'a str>)
    ensures
        parts@.len() == spec_split(s@, sep).len(),
        forall|k: int| 0 <= k < parts@.len() ==> parts@[k]@ == spec_split(s@, sep)[k],
{
    let n = s.unicode_len();
    let mut parts: Vec<&str> = Vec::new();
    let mut start: usize = 0;
    let mut i: usize = 0;
    proof {
        assert(s@.skip(0) =~= s@);
        assert(parts@.map_values(|p: &str| p@) + spec_split(s@, sep) =~= spec_split(s@, sep));
    }
    while i < n
        invariant
            start <= i <= n,
            n == s@.len(),
            forall|k: int| start <= k < i ==> s@[k] != sep,
            spec_split(s@, sep) =~= parts@.map_values(|p: &str| p@) + spec_split(
                s@.skip(start as int),
                sep,
            ),
        decreases n - i,
    {
        if s.get_char(i) == sep {
            let part = s.substring_char(start, i);
            proof {
                let prefix = s@.subrange(start as int, i as int);
                assert(s@.skip(start as int) =~= prefix + seq![sep] + s@.skip(i + 1));
                lemma_split_at_first_sep(prefix, s@.skip(i + 1), sep);
                assert((parts@ + seq![part]).map_values(|p: &str| p@) =~= parts@.map_values(
                    |p: &str| p@,
                ) + seq![part@]);
            }
            parts.push(part);
            start = i + 1;
        }
        i = i + 1;
    }
    let last = s.substring_char(start, n);
    proof {
        assert(s@.skip(start as int) =~= s@.subrange(start as int, n as int));
        lemma_split_no_sep(s@.skip(start as int), sep);
        assert((parts@ + seq![last]).map_values(|p: &str| p@) =~= parts@.map_values(|p: &str| p@)
            + seq![last@]);
    }
    parts.push(last);
    proof {
        assert(forall|k: int| 0 <= k < parts@.len() ==> parts@[k]@ == parts@.map_values(
            |p: &str| p@,
        )[k]);
    }
    parts
}

} // verus!
