//! What the library takes from `std`'s strings without proof: comparison,
//! prefix test, case folding and appending a character, each with the contract
//! that the verified code relies on.

use crate::order::precedes;
use vstd::prelude::*;

verus! {

/// The upper-case form of a text, as `str::to_uppercase` computes it: the
/// Unicode upper-case mapping applied character by character, where one
/// character may map to several. Nothing more is assumed about it.
pub uninterp spec fn uppercase(text: Seq<char>) -> Seq<char>;

/// `str::to_uppercase`: returns the upper-case form of `text`, which depends
/// on the characters of `text` alone.
pub assume_specification[ str::to_uppercase ](text: &str) -> (upper: String)
    ensures
        upper@ == uppercase(text@),
;

/// `String::push`: appends `ch` to the end of `text` and changes nothing else.
pub assume_specification[ String::push ](text: &mut String, ch: char)
    ensures
        final(text)@ == old(text)@.push(ch),
;

/// `<` on `str`, that is `PartialOrd::lt`: strings are ordered
/// lexicographically by their bytes, which for UTF-8 is the lexicographic
/// order of their code points.
#[verifier::external_body]
pub(crate) fn comes_before(a: &str, b: &str) -> (r: bool)
    ensures
        r == precedes(a@, b@),
{
    a < b
}

/// `str::starts_with` with a string pattern: whether `prefix` is a prefix of
/// `word`.
#[verifier::external_body]
pub(crate) fn starts_with(word: &str, prefix: &str) -> (r: bool)
    ensures
        r == prefix@.is_prefix_of(word@),
{
    word.starts_with(prefix)
}

} // verus!
