use vstd::prelude::*;
use crate::symbols::TypeSymbol;
use crate::tokens::{Token, TokenType};

verus! {

/// The `Debug` text of an optional character; it depends on the value alone.
pub uninterp spec fn option_char_debug_text(c: Option<char>) -> Seq<char>;

/// Formats an optional character with its `Debug` implementation.
#[verifier::external_body]
pub(crate) fn option_char_debug(c: Option<char>) -> (r: String)
    ensures
        r@ == option_char_debug_text(c),
{
    format!("{:?}", c)
}

/// The `Debug` text of a token; it depends on the token alone.
pub uninterp spec fn token_debug_text(t: Token) -> Seq<char>;

/// Formats a token with its derived `Debug` implementation.
#[verifier::external_body]
pub(crate) fn token_debug(t: &Token) -> (r: String)
    ensures
        r@ == token_debug_text(*t),
{
    format!("{:?}", t)
}

/// `prefix` followed by `tail`.
fn joined_text(prefix: &str, tail: &str) -> (r: String)
    ensures
        r@ == prefix@ + tail@,
{
    let mut s = String::from_str(prefix);
    s.append(tail);
    s
}

/// Text of the message for a character the lexer does not know.
pub open spec fn unexpected_character_text(c: Option<char>) -> Seq<char> {
    "unexpected character "@ + option_char_debug_text(c)
}

/// The message for a character the lexer does not know.
pub(crate) fn unexpected_character_message(c: Option<char>) -> (r: String)
    ensures
        r@ == unexpected_character_text(c),
{
    let d = option_char_debug(c);
    joined_text("unexpected character ", d.as_str())
}

/// Text of the message for a token other than the expected one.
pub open spec fn expected_token_text(expected: TokenType, got: Token) -> Seq<char> {
    "expected token "@ + token_type_debug_text(expected) + ", got "@ + token_debug_text(got)
}

/// The message for a token other than the expected one.
pub(crate) fn expected_token_message(expected: TokenType, got: Token) -> (r: String)
    ensures
        r@ == expected_token_text(expected, got),
{
    let e = token_type_debug(&expected);
    let g = token_debug(&got);
    let mut s = joined_text("expected token ", e.as_str());
    s.append(", got ");
    s.append(g.as_str());
    s
}

/// Text of the message for a token where an identifier was expected.
pub open spec fn expected_id_text(got: Token) -> Seq<char> {
    "expected id, got "@ + token_debug_text(got)
}

/// The message for a token where an identifier was expected.
pub(crate) fn expected_id_message(got: Token) -> (r: String)
    ensures
        r@ == expected_id_text(got),
{
    let g = token_debug(&got);
    joined_text("expected id, got ", g.as_str())
}

/// Text of the message for a token that cannot start a factor.
pub open spec fn unexpected_factor_text(got: Token) -> Seq<char> {
    "unexpected factor "@ + token_debug_text(got)
}

/// The message for a token that cannot start a factor.
pub(crate) fn unexpected_factor_message(got: Token) -> (r: String)
    ensures
        r@ == unexpected_factor_text(got),
{
    let g = token_debug(&got);
    joined_text("unexpected factor ", g.as_str())
}

/// Text of the message for a token that is not a literal.
pub open spec fn unknown_literal_text(got: Token) -> Seq<char> {
    "unkown literal "@ + token_debug_text(got)
}

/// The message for a token that is not a literal.
pub(crate) fn unknown_literal_message(got: Token) -> (r: String)
    ensures
        r@ == unknown_literal_text(got),
{
    let g = token_debug(&got);
    joined_text("unkown literal ", g.as_str())
}

/// Formats `v` with its `Debug` implementation; nothing is claimed of the text.
#[verifier::external_body]
pub(crate) fn debug_text<T: std::fmt::Debug>(v: &T) -> String {
    format!("{:?}", v)
}

/// The `Debug` text of a token kind; it depends on the kind alone.
pub uninterp spec fn token_type_debug_text(t: TokenType) -> Seq<char>;

/// Formats a token kind with its derived `Debug` implementation.
#[verifier::external_body]
pub(crate) fn token_type_debug(t: &TokenType) -> (r: String)
    ensures
        r@ == token_type_debug_text(*t),
{
    format!("{:?}", t)
}

/// The `Debug` text of a type symbol; it depends on the symbol alone.
pub uninterp spec fn type_symbol_debug_text(t: TypeSymbol) -> Seq<char>;

/// Formats a type symbol with its derived `Debug` implementation.
#[verifier::external_body]
pub(crate) fn type_symbol_debug(t: &TypeSymbol) -> (r: String)
    ensures
        r@ == type_symbol_debug_text(*t),
{
    format!("{:?}", t)
}

} // verus!
