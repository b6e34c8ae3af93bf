//! Unicode character properties of the standard library.

use crate::text;
use vstd::prelude::*;

verus! {

/// A letter or digit of any script.
pub uninterp spec fn alphanumeric(c: char) -> bool;

/// The lowercase form of a text.
pub uninterp spec fn lowercase(s: Seq<char>) -> Seq<char>;

/// An ASCII letter or digit.
pub open spec fn ascii_alphanumeric(c: char) -> bool {
    'a' <= c <= 'z' || 'A' <= c <= 'Z' || '0' <= c <= '9'
}

/// A text of ASCII characters.
pub open spec fn is_ascii_text(s: Seq<char>) -> bool {
    forall|i: int| 0 <= i < s.len() ==> (#[trigger] s[i] as u32) < 0x80
}

/// Calls `char::is_alphanumeric`. Which characters of other scripts are letters or
/// digits is named, not stated; among ASCII characters they are `a-z`, `A-Z`, `0-9`.
#[verifier::external_body]
pub(crate) fn is_alphanumeric(c: char) -> (r: bool)
    ensures
        r == alphanumeric(c),
        (c as u32) < 0x80 ==> r == ascii_alphanumeric(c),
{
    c.is_alphanumeric()
}

/// Calls `str::to_lowercase`. The lowercase form of other scripts is named, not
/// stated; a text of ASCII characters has its letters `A-Z` replaced by `a-z`.
#[verifier::external_body]
pub(crate) fn to_lowercase(s: &str) -> (r: String)
    ensures
        r@ == lowercase(s@),
        is_ascii_text(s@) ==> r@ == text::ascii_lowered(s@),
{
    s.to_lowercase()
}

} // verus!
