//! Unicode classification and case folding, supplied by the standard library
//! behind a trusted boundary. Both results depend on their argument alone, so
//! each gets a name that contracts can use.

use vstd::prelude::*;

verus! {

/// The lowercase form of a character sequence, as unicode case folding
/// defines it; a function of the characters alone.
pub uninterp spec fn lower_of(s: Seq<char>) -> Seq<char>;

/// Relies on `str::to_lowercase`: the lowercase form of `s`, determined by
/// its characters alone; an empty string stays empty.
#[verifier::external_body]
pub(crate) fn lowercase(s: &str) -> (r: String)
    ensures
        r@ == lower_of(s@),
        s@.len() == 0 ==> r@.len() == 0,
{
    s.to_lowercase()
}

/// Whether a character is a unicode letter or digit; a function of the
/// character alone.
pub uninterp spec fn word_char(c: char) -> bool;

/// Relies on `char::is_alphanumeric`: whether the character is a unicode
/// letter or numeric character; word runs are split on everything else.
#[verifier::external_body]
pub(crate) fn is_word_char(c: char) -> (r: bool)
    ensures
        r == word_char(c),
{
    c.is_alphanumeric()
}

} // verus!
