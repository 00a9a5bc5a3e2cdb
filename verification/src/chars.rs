use vstd::prelude::*;

verus! {

/// Whether `c` has the Unicode `White_Space` property: the control
/// characters tab to carriage return, space, next line, no-break space,
/// Ogham space mark, the spaces U+2000 to U+200A, the line and paragraph
/// separators, narrow no-break space, medium mathematical space and
/// ideographic space.
pub open spec fn is_whitespace_char(c: char) -> bool {
    let u = c as u32;
    ||| 0x09 <= u <= 0x0D
    ||| u == 0x20
    ||| u == 0x85
    ||| u == 0xA0
    ||| u == 0x1680
    ||| 0x2000 <= u <= 0x200A
    ||| u == 0x2028
    ||| u == 0x2029
    ||| u == 0x202F
    ||| u == 0x205F
    ||| u == 0x3000
}

/// Whether `char::is_alphanumeric` holds of `c` (Unicode alphabetic or numeric).
pub uninterp spec fn is_alphanumeric_char(c: char) -> bool;

/// Whether `char::is_numeric` holds of `c` (Unicode numeric).
pub uninterp spec fn is_numeric_char(c: char) -> bool;

/// What `str::to_uppercase` makes of a string (Unicode upper-case mapping).
pub uninterp spec fn str_to_uppercase(s: Seq<char>) -> Seq<char>;

/// What `str::to_lowercase` makes of a string (Unicode lower-case mapping).
pub uninterp spec fn str_to_lowercase(s: Seq<char>) -> Seq<char>;

/// An ASCII decimal digit.
pub open spec fn is_digit(c: char) -> bool {
    '0' <= c && c <= '9'
}

/// Calls `char::is_whitespace`, which its documentation says holds exactly of
/// the characters with the Unicode `White_Space` property.
#[verifier::external_body]
pub(crate) fn is_whitespace(c: char) -> (r: bool)
    ensures
        r == is_whitespace_char(c),
{
    c.is_whitespace()
}

/// Calls `char::is_alphanumeric`; the result is named, nothing more is claimed.
#[verifier::external_body]
pub(crate) fn is_alphanumeric(c: char) -> (r: bool)
    ensures
        r == is_alphanumeric_char(c),
{
    c.is_alphanumeric()
}

/// Calls `char::is_numeric`; the result is named, nothing more is claimed.
#[verifier::external_body]
pub(crate) fn is_numeric(c: char) -> (r: bool)
    ensures
        r == is_numeric_char(c),
{
    c.is_numeric()
}

/// Calls `str::to_uppercase`; the result is named, nothing more is claimed.
#[verifier::external_body]
pub(crate) fn to_uppercase(s: &str) -> (r: String)
    ensures
        r@ == str_to_uppercase(s@),
{
    s.to_uppercase()
}

/// Calls `str::to_lowercase`; the result is named, nothing more is claimed.
#[verifier::external_body]
pub(crate) fn to_lowercase(s: &str) -> (r: String)
    ensures
        r@ == str_to_lowercase(s@),
{
    s.to_lowercase()
}

/// `c` is an ASCII decimal digit (what `char::is_ascii_digit` decides).
pub fn is_ascii_digit(c: char) -> (r: bool)
    ensures
        r == is_digit(c),
{
    '0' <= c && c <= '9'
}

/// `String::push` appends the character to the end of the string, as its
/// documentation says.
pub assume_specification[std::string::String::push](s: &mut String, ch: char)
    ensures
        final(s)@ == old(s)@.push(ch),
;

} // verus!
