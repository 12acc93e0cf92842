//! What the standard library knows of Unicode: case, classes and decoding.

use crate::text::{all_ascii, ascii_lower, ascii_upper, is_alnum};
use vstd::prelude::*;
use vstd::utf8::{decode_utf8, valid_utf8};

verus! {

/// The text of `s` in lower case, by the Unicode tables.
pub uninterp spec fn lowercase_of(s: Seq<char>) -> Seq<char>;

/// `str::to_lowercase`: a function of the text alone. For an ASCII text it is known: the capitals
/// become small letters. Of other characters nothing is said but that the result is named.
#[verifier::external_body]
pub(crate) fn lowercase(s: &str) -> (r: String)
    ensures
        r@ == lowercase_of(s@),
        all_ascii(s@) ==> r@ == ascii_lower(s@),
{
    s.to_lowercase()
}

/// The text of `s` in upper case, by the Unicode tables.
pub uninterp spec fn uppercase_of(s: Seq<char>) -> Seq<char>;

/// `str::to_uppercase`: a function of the text alone. For an ASCII text it is known: the small letters
/// become capitals.
#[verifier::external_body]
pub(crate) fn uppercase(s: &str) -> (r: String)
    ensures
        r@ == uppercase_of(s@),
        all_ascii(s@) ==> r@ == ascii_upper(s@),
{
    s.to_uppercase()
}

/// Whether a character is a letter or a number, by the Unicode tables.
pub uninterp spec fn alphanumeric_of(c: char) -> bool;

/// `char::is_alphanumeric`: a function of the character alone. For an ASCII character it is
/// known: the letters and the digits.
#[verifier::external_body]
pub(crate) fn is_alphanumeric(c: char) -> (r: bool)
    ensures
        r == alphanumeric_of(c),
        c as u32 <= 127 ==> r == is_alnum(c),
{
    c.is_alphanumeric()
}

/// The text of some bytes, where bytes that are no UTF-8 have become replacement characters.
pub uninterp spec fn lossy_text(bytes: Seq<u8>) -> Seq<char>;

/// `String::from_utf8_lossy`: a function of the bytes alone. Of valid UTF-8 it is known: the text
/// that the bytes encode.
#[verifier::external_body]
pub(crate) fn from_utf8_lossy(bytes: &[u8]) -> (r: String)
    ensures
        r@ == lossy_text(bytes@),
        valid_utf8(bytes@) ==> r@ == decode_utf8(bytes@),
{
    String::from_utf8_lossy(bytes).into_owned()
}

/// A text in quotes, with what cannot be shown escaped.
pub uninterp spec fn debug_text(s: Seq<char>) -> Seq<char>;

/// A character that `{:?}` shows as it is: a printable ASCII character that is neither a quote nor a
/// backslash.
pub open spec fn is_plain(c: char) -> bool {
    ' ' <= c && c <= '~' && c != '"' && c != '\\'
}

/// `{:?}` of a text: a function of the text. Of a text of plain characters it is known: the text in
/// quotes.
#[verifier::external_body]
pub(crate) fn quoted(s: &str) -> (r: String)
    ensures
        r@ == debug_text(s@),
        (forall|i: int| 0 <= i < s@.len() ==> is_plain(#[trigger] s@[i])) ==> r@ == seq!['"'] + s@
            + seq!['"'],
{
    format!("{s:?}")
}

} // verus!
