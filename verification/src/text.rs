//! Text conversions at the byte/string boundary.
//!
//! Command names arrive as raw bytes and leave as `String`s; the statistics
//! table keys them by their uppercased form. Both conversions are done by
//! the standard library and are named here so that contracts elsewhere can
//! speak of them exactly.

use vstd::prelude::*;
use vstd::utf8::{decode_utf8, valid_utf8};

verus! {

/// The text that best-effort UTF-8 decoding yields for the given bytes.
pub uninterp spec fn lossy_text_of(b: Seq<u8>) -> Seq<char>;

/// The uppercase form of the given text.
pub uninterp spec fn upper_of(s: Seq<char>) -> Seq<char>;

/// ASCII uppercasing of one character: `a`..`z` map to `A`..`Z`, everything
/// else is unchanged.
pub open spec fn ascii_upper_char(c: char) -> char {
    if 97 <= c as u32 && c as u32 <= 122 {
        ((c as u32 - 32) as char)
    } else {
        c
    }
}

/// Pointwise ASCII uppercasing of a text.
pub open spec fn ascii_upper(s: Seq<char>) -> Seq<char> {
    s.map_values(|c: char| ascii_upper_char(c))
}

/// Relies on `String::from_utf8_lossy`: the result is a function of the
/// bytes alone, and valid UTF-8 input decodes without change.
#[verifier::external_body]
pub fn bytes_to_text(b: &[u8]) -> (r: String)
    ensures
        r@ == lossy_text_of(b@),
        valid_utf8(b@) ==> r@ == decode_utf8(b@),
{
    String::from_utf8_lossy(b).into_owned()
}

/// Relies on `str::to_uppercase`: the result depends on the characters
/// alone, and on ASCII input it uppercases `a`..`z` pointwise and leaves
/// the other characters unchanged.
#[verifier::external_body]
pub fn uppercase_text(s: &str) -> (r: String)
    ensures
        r@ == upper_of(s@),
        vstd::utf8::is_ascii_chars(s@) ==> r@ == ascii_upper(s@),
{
    s.to_uppercase()
}

} // verus!
