//! String facts that the library relies on from std.
use vstd::prelude::*;

verus! {

/// `s` ends with `suffix`.
pub open spec fn has_suffix(s: Seq<char>, suffix: Seq<char>) -> bool {
    suffix.len() <= s.len() && s.subrange(s.len() - suffix.len(), s.len() as int) == suffix
}

/// Relies on `str::ends_with` with a `&str` pattern: true exactly when
/// `suffix` is a suffix of `s`.
#[verifier::external_body]
pub(crate) fn ends_with(s: &str, suffix: &str) -> (r: bool)
    ensures
        r == has_suffix(s@, suffix@),
{
    s.ends_with(suffix)
}

/// The pieces of `s` between the occurrences of `sep`, in order; an empty
/// `s` is one empty piece.
pub open spec fn pieces(s: Seq<char>, sep: char) -> Seq<Seq<char>>
    decreases s.len(),
{
    if s.len() == 0 {
        seq![Seq::empty()]
    } else {
        let rest = pieces(s.drop_last(), sep);
        if s.last() == sep {
            rest.push(Seq::empty())
        } else {
            rest.update(rest.len() - 1, rest.last().push(s.last()))
        }
    }
}

/// Relies on `str::split` with a `char` pattern: the substrings between
/// the matches of `sep`, in order, each copied into a `String`.
#[verifier::external_body]
pub(crate) fn split(s: &str, sep: char) -> (r: Vec<String>)
    ensures
        r@.len() == pieces(s@, sep).len(),
        forall|i: int| 0 <= i < r@.len() ==> r@[i]@ == pieces(s@, sep)[i],
{
    s.split(sep).map(|p| p.to_string()).collect()
}

/// `j` is the position of the first `sep` in `s`.
pub open spec fn first_at(s: Seq<char>, sep: char, j: int) -> bool {
    &&& 0 <= j < s.len()
    &&& s[j] == sep
    &&& forall|k: int| 0 <= k < j ==> s[k] != sep
}

/// `s` cut at its first `sep` into what stands before and after it; all of
/// `s` and an empty rest when there is none.
pub open spec fn cut_at_first(s: Seq<char>, sep: char) -> (Seq<char>, Seq<char>) {
    if exists|j: int| first_at(s, sep, j) {
        let j = choose|j: int| first_at(s, sep, j);
        (s.subrange(0, j), s.subrange(j + 1, s.len() as int))
    } else {
        (s, Seq::empty())
    }
}

/// Relies on `str::split_once` with a `char` pattern: `None` when `sep`
/// does not occur, else the text before and after its first occurrence.
#[verifier::external_body]
pub(crate) fn split_once(s: &str, sep: char) -> (r: Option<(String, String)>)
    ensures
        r is None ==> forall|j: int| 0 <= j < s@.len() ==> s@[j] != sep,
        r is Some ==> (r->Some_0.0@, r->Some_0.1@) == cut_at_first(s@, sep),
{
    s.split_once(sep).map(|(a, b)| (a.to_string(), b.to_string()))
}

} // verus!
