use vstd::prelude::*;

verus! {

/// Relies on core::str::Chars and Iterator::collect: the collected vector
/// holds exactly the characters of the string, in order.
#[verifier::external_body]
pub fn str_to_chars(s: &str) -> (r: Vec<char>)
    ensures
        r@ == s@,
{
    s.chars().collect()
}

/// Relies on String::from_iter over characters: the string holds exactly
/// the given characters, in order.
#[verifier::external_body]
pub fn chars_to_string(v: &Vec<char>) -> (r: String)
    ensures
        r@ == v@,
{
    v.iter().collect()
}


/// The characters a byte sequence decodes to as UTF-8, when it is valid;
/// the result depends on the bytes alone.
pub uninterp spec fn utf8_decode(b: Seq<u8>) -> Option<Seq<char>>;

/// Relies on core::str::from_utf8 and core::str::Chars: the characters of
/// the text the bytes spell in UTF-8, or nothing when they are not valid
/// UTF-8.
#[verifier::external_body]
pub fn bytes_to_chars(b: &[u8]) -> (r: Option<Vec<char>>)
    ensures
        match r {
            Some(v) => utf8_decode(b@) == Some(v@),
            None => utf8_decode(b@) is None,
        },
{
    match core::str::from_utf8(b) {
        Ok(s) => Some(s.chars().collect()),
        Err(_) => None,
    }
}

} // verus!
