//! Splitting of character sequences on a delimiter substring.
//!
//! The record format of the store is line-oriented text where each line is
//! split on every occurrence of a delimiter substring. This module defines
//! the mathematical meaning of that split (`split_on`, `lines_of`) and
//! verified executable functions that compute it.

use vstd::prelude::*;

verus! {

use vstd::string::StrSliceExecFns;

/// The delimiter `d` occurs in `s` at position `i`.
pub open spec fn contains_at(s: Seq<char>, d: Seq<char>, i: int) -> bool {
    &&& 0 <= i
    &&& i + d.len() <= s.len()
    &&& s.subrange(i, i + d.len() as int) == d
}

/// Position of the first occurrence of `d` in `s` at or after `from`,
/// if there is one.
pub open spec fn find_at_or_after(s: Seq<char>, d: Seq<char>, from: int) -> Option<int>
    decreases s.len() - from,
{
    if from < 0 || d.len() == 0 || from + d.len() > s.len() {
        None
    } else if contains_at(s, d, from) {
        Some(from)
    } else {
        find_at_or_after(s, d, from + 1)
    }
}

/// The segments of `s` around every occurrence of the non-empty delimiter
/// `d`, scanned left to right; occurrences do not overlap. A sequence with
/// no occurrence yields itself as the single segment, so the result always
/// holds one segment more than the number of occurrences taken.
pub open spec fn split_on(s: Seq<char>, d: Seq<char>) -> Seq<Seq<char>>
    recommends
        d.len() > 0,
    decreases s.len(),
{
    match find_at_or_after(s, d, 0) {
        None => seq![s],
        Some(i) => {
            // A successful search always lands within bounds with a
            // non-empty delimiter; the guard restates that so the
            // recursion visibly shrinks the suffix.
            if 0 <= i && i + d.len() <= s.len() && d.len() > 0 {
                seq![s.subrange(0, i)] + split_on(s.subrange(i + d.len() as int, s.len() as int), d)
            } else {
                seq![s]
            }
        },
    }
}

/// The line terminator.
pub open spec fn newline() -> Seq<char> {
    seq!['\n']
}

/// The lines of a text: the segments around every `'\n'`, except that the
/// empty segment after a trailing newline (or of an empty text) is not a
/// line.
pub open spec fn lines_of(s: Seq<char>) -> Seq<Seq<char>> {
    let parts = split_on(s, newline());
    if parts.len() > 0 && parts.last().len() == 0 {
        parts.drop_last()
    } else {
        parts
    }
}

/// Whether the delimiter `d` matches `s` at position `i`.
pub fn match_at(s: &str, d: &str, i: usize) -> (r: bool)
    requires
        i + d@.len() <= s@.len(),
    ensures
        r == contains_at(s@, d@, i as int),
{
    let s_len: usize = s.unicode_len();
    let d_len: usize = d.unicode_len();
    let mut j: usize = 0;
    while j < d_len
        invariant
            s_len == s@.len(),
            d_len == d@.len(),
            i + d_len <= s_len,
            0 <= j <= d_len,
            forall|k: int| 0 <= k < j ==> s@[i + k] == d@[k],
        decreases d_len - j,
    {
        if s.get_char(i + j) != d.get_char(j) {
            assert(!contains_at(s@, d@, i as int)) by {
                assert(s@.subrange(i as int, i + d@.len() as int) != d@) by {
                    assert(s@.subrange(i as int, i + d@.len() as int)[j as int] != d@[j as int]);
                }
            }
            return false;
        }
        j = j + 1;
    }
    assert(s@.subrange(i as int, i + d@.len() as int) =~= d@);
    true
}

/// A successful search yields the first occurrence at or after `from`.
pub proof fn lemma_find_some(s: Seq<char>, d: Seq<char>, from: int, p: int)
    requires
        find_at_or_after(s, d, from) == Some(p),
    ensures
        from <= p,
        d.len() > 0,
        contains_at(s, d, p),
        forall|k: int| from <= k < p ==> !contains_at(s, d, k),
    decreases s.len() - from,
{
    if !(from < 0 || d.len() == 0 || from + d.len() > s.len()) && !contains_at(s, d, from) {
        lemma_find_some(s, d, from + 1, p);
    }
}

/// An occurrence at `p` with none before it is what the search finds.
pub proof fn lemma_find_exact(s: Seq<char>, d: Seq<char>, from: int, p: int)
    requires
        0 <= from <= p,
        d.len() > 0,
        contains_at(s, d, p),
        forall|k: int| from <= k < p ==> !contains_at(s, d, k),
    ensures
        find_at_or_after(s, d, from) == Some(p),
    decreases p - from,
{
    if from < p {
        lemma_find_exact(s, d, from + 1, p);
    }
}

/// Splitting around a first occurrence at `p`: the segment before `p`,
/// then the segments of what follows the occurrence.
pub proof fn lemma_split_here(s: Seq<char>, d: Seq<char>, p: int)
    requires
        d.len() > 0,
        contains_at(s, d, p),
        forall|k: int| 0 <= k < p ==> !contains_at(s, d, k),
    ensures
        split_on(s, d) == seq![s.subrange(0, p)] + split_on(
            s.subrange(p + d.len() as int, s.len() as int),
            d,
        ),
{
    lemma_find_exact(s, d, 0, p);
}

/// A sequence without any occurrence of the delimiter is one segment.
pub proof fn lemma_split_whole(s: Seq<char>, d: Seq<char>)
    requires
        d.len() > 0,
        forall|k: int| !contains_at(s, d, k),
    ensures
        split_on(s, d) == seq![s],
{
    match find_at_or_after(s, d, 0) {
        None => {},
        Some(p) => {
            lemma_find_some(s, d, 0, p);
        },
    }
}

/// Position of the first occurrence of the non-empty delimiter `d` in `s`,
/// if there is one.
pub fn find_first(s: &str, d: &str) -> (r: Option<usize>)
    requires
        d@.len() > 0,
    ensures
        match r {
            Some(i) => find_at_or_after(s@, d@, 0) == Some(i as int),
            None => find_at_or_after(s@, d@, 0) is None,
        },
{
    let s_len: usize = s.unicode_len();
    let d_len: usize = d.unicode_len();
    if d_len > s_len {
        return None;
    }
    let mut i: usize = 0;
    while i <= s_len - d_len
        invariant
            s_len == s@.len(),
            d_len == d@.len(),
            0 < d_len <= s_len,
            0 <= i <= s_len - d_len + 1,
            find_at_or_after(s@, d@, 0) == find_at_or_after(s@, d@, i as int),
        decreases s_len - i,
    {
        if match_at(s, d, i) {
            return Some(i);
        }
        assert(find_at_or_after(s@, d@, i as int) == find_at_or_after(s@, d@, i + 1));
        i = i + 1;
    }
    assert(find_at_or_after(s@, d@, i as int) is None);
    None
}

/// The segments of `s` around every occurrence of the non-empty
/// delimiter `d`.
pub fn split_str(s: &str, d: &str) -> (r: Vec<String>)
    requires
        d@.len() > 0,
    ensures
        r.deep_view() == split_on(s@, d@),
    decreases s@.len(),
{
    let found = find_first(s, d);
    match found {
        None => {
            let mut v: Vec<String> = Vec::new();
            v.push(s.to_owned());
            proof {
                assert(v.deep_view() =~= seq![s@]);
            }
            v
        },
        Some(i) => {
            proof {
                lemma_find_some(s@, d@, 0, i as int);
            }
            let s_len: usize = s.unicode_len();
            let d_len: usize = d.unicode_len();
            let head = s.substring_char(0, i);
            let tail = s.substring_char(i + d_len, s_len);
            let mut v = split_str(tail, d);
            v.insert(0, head.to_owned());
            proof {
                assert(v.deep_view() =~= seq![s@.subrange(0, i as int)] + split_on(
                    s@.subrange(i + d@.len() as int, s@.len() as int),
                    d@,
                ));
            }
            v
        },
    }
}

/// The lines of `s`: the segments around every newline, without the empty
/// segment that a trailing newline leaves at the end.
pub fn split_lines(s: &str) -> (r: Vec<String>)
    ensures
        r.deep_view() == lines_of(s@),
{
    let nl = "\n";
    proof {
        reveal_strlit("\n");
        assert(nl@ =~= newline());
    }
    let mut parts = split_str(s, nl);
    proof {
        assert(split_on(s@, newline()).len() > 0);
    }
    if parts.len() > 0 && parts[parts.len() - 1].as_str().unicode_len() == 0 {
        parts.pop();
        proof {
            assert(parts.deep_view() =~= lines_of(s@));
        }
    } else {
        proof {
            assert(parts.deep_view() =~= lines_of(s@));
        }
    }
    parts
}

} // verus!
