//! Character categories used by the lexer.
//!
//! The lexer classifies characters with `char::is_alphabetic`,
//! `char::is_numeric` and `char::is_alphanumeric` of the standard library.
//! On ASCII the categories are spelled out here. Beyond ASCII they are
//! whatever the Unicode tables of the standard library hold: the contracts
//! give them a name and say nothing more of them.
//!
//! The contracts of the three methods are assumed, not proved.

use vstd::prelude::*;

verus! {

/// Whether a character beyond ASCII has the Unicode `Alphabetic` property.
pub uninterp spec fn unicode_alphabetic(c: char) -> bool;

/// Whether a character beyond ASCII is in one of the Unicode number
/// categories (`Nd`, `Nl`, `No`).
pub uninterp spec fn unicode_numeric(c: char) -> bool;

/// Characters up to U+007F.
pub open spec fn ascii(c: char) -> bool {
    c <= '\x7f'
}

/// The ASCII letters `A`-`Z` and `a`-`z`.
pub open spec fn ascii_letter(c: char) -> bool {
    ('a' <= c && c <= 'z') || ('A' <= c && c <= 'Z')
}

/// The ASCII digits `0`-`9`.
pub open spec fn ascii_digit(c: char) -> bool {
    '0' <= c && c <= '9'
}

/// Characters that may start an identifier.
pub open spec fn alphabetic(c: char) -> bool {
    if ascii(c) {
        ascii_letter(c)
    } else {
        unicode_alphabetic(c)
    }
}

/// Characters that make up an integer literal.
pub open spec fn numeric(c: char) -> bool {
    if ascii(c) {
        ascii_digit(c)
    } else {
        unicode_numeric(c)
    }
}

/// Characters that may continue an identifier.
pub open spec fn alphanumeric(c: char) -> bool {
    alphabetic(c) || numeric(c)
}

/// Assumed of `char::is_alphabetic` of the standard library, which tests
/// the Unicode `Alphabetic` property: among the ASCII characters exactly the
/// letters `A`-`Z` and `a`-`z` have that property, and for any other
/// character the result depends on the character alone.
pub assume_specification[ char::is_alphabetic ](c: char) -> (b: bool)
    ensures
        ascii(c) ==> b == ascii_letter(c),
        !ascii(c) ==> b == unicode_alphabetic(c),
;

/// Assumed of `char::is_numeric` of the standard library, which tests for
/// the Unicode general categories `Nd`, `Nl` and `No`: among the ASCII
/// characters exactly the digits `0`-`9` are in one of them, and for any
/// other character the result depends on the character alone.
pub assume_specification[ char::is_numeric ](c: char) -> (b: bool)
    ensures
        ascii(c) ==> b == ascii_digit(c),
        !ascii(c) ==> b == unicode_numeric(c),
;

/// Assumed of `char::is_alphanumeric` of the standard library: it holds of
/// a character exactly when `char::is_alphabetic` or `char::is_numeric`
/// does.
pub assume_specification[ char::is_alphanumeric ](c: char) -> (b: bool)
    ensures
        b == alphanumeric(c),
;

} // verus!
