//! Contracts for character classification that the pipeline takes from
//! outside the crate: Unicode properties from `std` and the
//! `unicode_categories` tables.

use vstd::prelude::*;

verus! {

/// Whether `c` has the Unicode `White_Space` property.
pub uninterp spec fn is_uni_whitespace(c: char) -> bool;

/// Relies on `char::is_whitespace`: the `White_Space` property depends
/// on the character alone. The ASCII facts are as std documents them:
/// space, tab, line feed and carriage return are whitespace, and no
/// other printable ASCII character is.
pub assume_specification[ char::is_whitespace ](c: char) -> (r: bool)
    ensures
        r == is_uni_whitespace(c),
        (c == ' ' || c == '\t' || c == '\n' || c == '\r') ==> r,
        (0x21 <= c as u32 && c as u32 <= 0x7E) ==> !r,
;

/// Whether `c` is Unicode alphanumeric (categories L and Nd, Nl, No).
pub uninterp spec fn is_uni_alphanumeric(c: char) -> bool;

/// Relies on `char::is_alphanumeric`: the property depends on the
/// character alone. The ASCII facts are as std documents them: ASCII
/// letters and digits are alphanumeric; ASCII punctuation, symbols and
/// whitespace are not.
pub assume_specification[ char::is_alphanumeric ](c: char) -> (r: bool)
    ensures
        r == is_uni_alphanumeric(c),
        (('a' <= c && c <= 'z') || ('A' <= c && c <= 'Z') || ('0' <= c && c <= '9')) ==> r,
        (c as u32 <= 0x2F || (0x3A <= c as u32 && c as u32 <= 0x40) || (0x5B <= c as u32 && c
            as u32 <= 0x60) || (0x7B <= c as u32 && c as u32 <= 0x7E)) ==> !r,
;

/// Whether `c` is in one of the Unicode punctuation categories
/// (Pc, Pd, Pe, Pf, Pi, Po, Ps).
pub uninterp spec fn is_uni_punctuation(c: char) -> bool;

/// Relies on `unicode_categories::UnicodeCategories::is_punctuation`:
/// a lookup in fixed category tables, a function of the character
/// alone. The ASCII fact is read off the tables: no ASCII letter,
/// digit or space appears in any punctuation table.
#[verifier::external_body]
pub fn char_is_punctuation(c: char) -> (r: bool)
    ensures
        r == is_uni_punctuation(c),
        (('a' <= c && c <= 'z') || ('A' <= c && c <= 'Z') || ('0' <= c && c <= '9') || c == ' ')
            ==> !r,
{
    unicode_categories::UnicodeCategories::is_punctuation(c)
}

} // verus!
