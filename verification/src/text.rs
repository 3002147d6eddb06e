use vstd::prelude::*;

verus! {

/// The characters of a string slice: `str::chars`, collected.
#[verifier::external_body]
pub(crate) fn str_chars(s: &str) -> (r: Vec<char>)
    ensures
        r@ == s@,
{
    s.chars().collect()
}

/// The string made of the given characters: `String::from_iter`.
#[verifier::external_body]
pub(crate) fn string_from_chars(chars: Vec<char>) -> (r: String)
    ensures
        r@ == chars@,
{
    String::from_iter(chars)
}

} // verus!
