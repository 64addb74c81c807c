//! What the standard library knows about Unicode text, as far as the language
//! server uses it.
//!
//! Most of the character tables behind these functions are too long to write
//! down, so their results have names, and everything else in this crate speaks of
//! them by those names.

use vstd::prelude::*;
use vstd::utf8::{decode_utf8, valid_utf8};

verus! {

/// Whether a character is alphabetic or numeric: the answer of
/// `char::is_alphanumeric`.
pub uninterp spec fn alphanumeric(c: char) -> bool;

/// Whether a character has the `White_Space` property of Unicode.
pub open spec fn whitespace(c: char) -> bool {
    ||| '\u{9}' <= c <= '\u{d}'
    ||| c == ' '
    ||| c == '\u{85}'
    ||| c == '\u{a0}'
    ||| c == '\u{1680}'
    ||| '\u{2000}' <= c <= '\u{200a}'
    ||| c == '\u{2028}'
    ||| c == '\u{2029}'
    ||| c == '\u{202f}'
    ||| c == '\u{205f}'
    ||| c == '\u{3000}'
}

/// The lowercase form of a text: the answer of `str::to_lowercase`.
pub uninterp spec fn lowercase(text: Seq<char>) -> Seq<char>;

/// The text that a sequence of bytes spells, with every malformed part replaced
/// by U+FFFD: the answer of `String::from_utf8_lossy`.
pub uninterp spec fn lossy_text(bytes: Seq<u8>) -> Seq<char>;

/// `char::is_alphanumeric`: the answer depends on the character alone, and is
/// called [`alphanumeric`]. No alphabetic or numeric character is whitespace.
pub assume_specification[ char::is_alphanumeric ](c: char) -> (answer: bool)
    ensures
        answer == alphanumeric(c),
        answer ==> !whitespace(c),
;

/// `char::is_whitespace`: the answer is whether the character has the
/// `White_Space` property, which [`whitespace`] lists.
pub assume_specification[ char::is_whitespace ](c: char) -> (answer: bool)
    ensures
        answer == whitespace(c),
;

/// `str::to_lowercase`: the new string depends on the text alone, and is called
/// [`lowercase`]. Every character has a lowercase form of at least one character,
/// so that of a text is empty only if the text is.
pub assume_specification[ str::to_lowercase ](text: &str) -> (lower: String)
    ensures
        lower@ == lowercase(text@),
        lower@.len() == 0 <==> text@.len() == 0,
;

/// `String::push` appends one character.
pub assume_specification[ String::push ](text: &mut String, c: char)
    ensures
        final(text)@ == old(text)@.push(c),
;

/// `String::from_utf8_lossy`: the text depends on the bytes alone, and is called
/// [`lossy_text`]. Bytes that are valid UTF-8 are read as they stand.
#[verifier::external_body]
pub(crate) fn read_lossy(bytes: &[u8]) -> (text: String)
    ensures
        text@ == lossy_text(bytes@),
        valid_utf8(bytes@) ==> text@ == decode_utf8(bytes@),
{
    String::from_utf8_lossy(bytes).into_owned()
}

} // verus!
