//! Parsing of two values separated by a delimiter character.
use std::str::FromStr;
use vstd::prelude::*;
use vstd::string::StrSliceExecFns;

verus! {

/// `i` is the position of the first occurrence of `sep` in `s`.
pub open spec fn is_first_index(s: Seq<char>, sep: char, i: int) -> bool {
    &&& 0 <= i < s.len()
    &&& s[i] == sep
    &&& forall|j: int| 0 <= j < i ==> s[j] != sep
}

/// Position, counted in characters, of the first `separator` in `s`;
/// `None` exactly when `s` holds no `separator`.
pub fn find_separator(s: &str, separator: char) -> (r: Option<usize>)
    ensures
        r is None <==> !s@.contains(separator),
        r matches Some(i) ==> is_first_index(s@, separator, i as int),
{
    let n = s.unicode_len();
    let mut i: usize = 0;
    while i < n
        invariant
            n == s@.len(),
            i <= n,
            forall|j: int| 0 <= j < i ==> s@[j] != separator,
        decreases n - i,
    {
        if s.get_char(i) == separator {
            return Some(i);
        }
        i = i + 1;
    }
    None
}

/// Both halves parsed: the pair of them; otherwise nothing.
pub fn join_pair<T>(left: Option<T>, right: Option<T>) -> (r: Option<(T, T)>)
    ensures
        r is Some <==> (left is Some && right is Some),
        r matches Some((l, rt)) ==> left == Some(l) && right == Some(rt),
{
    match (left, right) {
        (Some(l), Some(rt)) => Some((l, rt)),
        _ => None,
    }
}

/// Relies on `FromStr::from_str` of `T`: the value that `s` spells, if any.
/// Nothing is stated of which texts parse, since that is up to `T`.
#[verifier::external_body]
fn parse_value<T: FromStr>(s: &str) -> (r: Option<T>) {
    T::from_str(s).ok()
}

/// Splits `s` at its first `separator` and parses both sides as `T`.
/// Text without the separator gives `None`; so does a side that does not parse.
pub fn parse_pair<T: FromStr>(s: &str, separator: char) -> (r: Option<(T, T)>)
    ensures
        !s@.contains(separator) ==> r is None,
        r is Some ==> s@.contains(separator),
{
    match find_separator(s, separator) {
        None => None,
        Some(index) => {
            let n = s.unicode_len();
            let left = s.substring_char(0, index);
            let right = s.substring_char(index + 1, n);
            join_pair(parse_value::<T>(left), parse_value::<T>(right))
        },
    }
}

} // verus!
