//! Small string helpers shared by the modules.

use vstd::prelude::*;

verus! {

/// Compares two string slices by their characters.
///
/// Trusted: calls `<str as PartialEq>::eq`, which std documents as byte-wise
/// equality; for valid UTF-8 that is equality of the character sequences.
#[verifier::external_body]
pub fn str_eq(a: &str, b: &str) -> (r: bool)
    ensures
        r == (a@ == b@),
{
    a == b
}

/// A copy of an optional string.
pub fn copy_opt_string(s: &Option<String>) -> (r: Option<String>)
    ensures
        r == *s,
{
    match s {
        Some(v) => Some(v.clone()),
        None => None,
    }
}

/// The character view of an optional string.
pub open spec fn opt_view(s: Option<String>) -> Option<Seq<char>> {
    match s {
        Some(v) => Some(v@),
        None => None,
    }
}

/// A copy of a vector of strings.
pub fn copy_strings(v: &Vec<String>) -> (r: Vec<String>)
    ensures
        r@ == v@,
{
    let mut r: Vec<String> = Vec::new();
    let mut i: usize = 0;
    while i < v.len()
        invariant
            i <= v.len(),
            r@ == v@.subrange(0, i as int),
        decreases v.len() - i,
    {
        r.push(v[i].clone());
        i += 1;
        assert(r@ =~= v@.subrange(0, i as int));
    }
    assert(v@.subrange(0, v.len() as int) =~= v@);
    r
}

/// The value recorded last for a key in a list of (key, value) entries, if any.
pub open spec fn lookup_last(s: Seq<(String, i64)>, key: Seq<char>) -> Option<i64>
    decreases s.len(),
{
    if s.len() == 0 {
        None
    } else if s.last().0@ == key {
        Some(s.last().1)
    } else {
        lookup_last(s.drop_last(), key)
    }
}

/// The value recorded last for a key, if any.
pub fn find_last(s: &Vec<(String, i64)>, key: &str) -> (r: Option<i64>)
    ensures
        r == lookup_last(s@, key@),
{
    let mut i: usize = s.len();
    assert(s@.take(s.len() as int) =~= s@);
    while i > 0
        invariant
            i <= s.len(),
            lookup_last(s@, key@) == lookup_last(s@.take(i as int), key@),
        decreases i,
    {
        assert(s@.take(i as int).drop_last() =~= s@.take(i - 1));
        if str_eq(s[i - 1].0.as_str(), key) {
            return Some(s[i - 1].1);
        }
        i -= 1;
    }
    None
}

/// The text recorded last for a key in a list of (key, text) entries, if any.
pub open spec fn lookup_last_text(s: Seq<(String, String)>, key: Seq<char>) -> Option<Seq<char>>
    decreases s.len(),
{
    if s.len() == 0 {
        None
    } else if s.last().0@ == key {
        Some(s.last().1@)
    } else {
        lookup_last_text(s.drop_last(), key)
    }
}

/// The text recorded last for a key, if any.
pub fn find_last_text<'a>(s: &'a Vec<(String, String)>, key: &str) -> (r: Option<&'a str>)
    ensures
        match r {
            Some(t) => lookup_last_text(s@, key@) == Some(t@),
            None => lookup_last_text(s@, key@) is None,
        },
{
    let mut i: usize = s.len();
    assert(s@.take(s.len() as int) =~= s@);
    while i > 0
        invariant
            i <= s.len(),
            lookup_last_text(s@, key@) == lookup_last_text(s@.take(i as int), key@),
        decreases i,
    {
        assert(s@.take(i as int).drop_last() =~= s@.take(i - 1));
        if str_eq(s[i - 1].0.as_str(), key) {
            return Some(s[i - 1].1.as_str());
        }
        i -= 1;
    }
    None
}

} // verus!
