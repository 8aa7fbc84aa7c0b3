use vstd::prelude::*;

use vstd::string::StrSliceExecFns;

verus! {

/// Position of the first occurrence of `c` in `s`, or nothing when `c`
/// does not occur.
pub fn find_char(s: &str, c: char) -> (r: Option<usize>)
    ensures
        match r {
            Some(i) => {
                &&& i < s@.len()
                &&& s@[i as int] == c
                &&& forall|j: int| 0 <= j < i ==> s@[j] != c
            },
            None => forall|j: int| 0 <= j < s@.len() ==> s@[j] != c,
        },
{
    let n = s.unicode_len();
    let mut i: usize = 0;
    while i < n
        invariant
            n == s@.len(),
            i <= n,
            forall|j: int| 0 <= j < i ==> s@[j] != c,
        decreases n - i,
    {
        if s.get_char(i) == c {
            return Some(i);
        }
        i = i + 1;
    }
    None
}

/// Relies on `core::str::FromStr::from_str` (through `str::parse`): what a
/// parse returns is up to `T`'s implementation, so nothing is promised of
/// the outcome; the error is dropped in favor of `None`.
#[verifier::external_body]
fn parse_value<T: core::str::FromStr>(s: &str) -> Option<T> {
    match s.parse::<T>() {
        Ok(v) => Some(v),
        Err(_) => None,
    }
}

/// Keep a pair only when both of its halves are present.
pub fn pair_of<T>(left: Option<T>, right: Option<T>) -> (r: Option<(T, T)>)
    ensures
        r is Some <==> (left is Some && right is Some),
        r matches Some(p) ==> left == Some(p.0) && right == Some(p.1),
{
    match (left, right) {
        (Some(l), Some(r)) => Some((l, r)),
        _ => None,
    }
}

/// Split `s` at the first occurrence of `separator` and parse the two
/// sides as values of `T`.  Without the separator, or when either side
/// fails to parse, there is no pair.
pub fn parse_pair<T: core::str::FromStr>(s: &str, separator: char) -> (r: Option<(T, T)>)
    ensures
        r is Some ==> exists|j: int| 0 <= j < s@.len() && s@[j] == separator,
        (forall|j: int| 0 <= j < s@.len() ==> s@[j] != separator) ==> r is None,
{
    match find_char(s, separator) {
        None => None,
        Some(index) => {
            let n = s.unicode_len();
            let left = s.substring_char(0, index);
            let right = s.substring_char(index + 1, n);
            pair_of(parse_value::<T>(left), parse_value::<T>(right))
        },
    }
}

} // verus!
