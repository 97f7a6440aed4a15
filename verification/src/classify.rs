//! Character classes of the grammar.

use vstd::prelude::*;

verus! {

/// Space, tab and newline separate tokens.
pub open spec fn spec_is_whitespace(c: char) -> bool {
    c == ' ' || c == '\t' || c == '\n'
}

/// The decimal digits `0` to `9`.
pub open spec fn spec_is_digit(c: char) -> bool {
    '0' <= c <= '9'
}

/// Characters that may begin an identifier: letters, the underscore and the
/// operator-like symbols `! ? * - + / = < >`.
pub open spec fn spec_is_ident_start(c: char) -> bool {
    ||| 'a' <= c <= 'z'
    ||| 'A' <= c <= 'Z'
    ||| c == '_'
    ||| c == '!'
    ||| c == '?'
    ||| c == '*'
    ||| c == '-'
    ||| c == '+'
    ||| c == '/'
    ||| c == '='
    ||| c == '<'
    ||| c == '>'
}

/// Characters that may continue an identifier: those that may begin one, and digits.
pub open spec fn spec_is_ident_char(c: char) -> bool {
    spec_is_ident_start(c) || spec_is_digit(c)
}

/// Returns `true` if the given character is whitespace.
#[verifier::when_used_as_spec(spec_is_whitespace)]
pub fn is_whitespace(c: char) -> (b: bool)
    ensures
        b == spec_is_whitespace(c),
{
    match c {
        ' ' | '\t' | '\n' => true,
        _ => false,
    }
}

/// Returns `true` if the given character is a digit.
#[verifier::when_used_as_spec(spec_is_digit)]
pub fn is_digit(c: char) -> (b: bool)
    ensures
        b == spec_is_digit(c),
{
    match c {
        '0'..='9' => true,
        _ => false,
    }
}

/// Returns `true` if the given character is valid at the start of an identifier.
#[verifier::when_used_as_spec(spec_is_ident_start)]
pub fn is_ident_start(c: char) -> (b: bool)
    ensures
        b == spec_is_ident_start(c),
{
    match c {
        'a'..='z' | 'A'..='Z' | '_' | '!' | '?' | '*' | '-' | '+' | '/' | '=' | '<' | '>' => true,
        _ => false,
    }
}

/// Returns `true` if the given character is valid in an identifier.
#[verifier::when_used_as_spec(spec_is_ident_char)]
pub fn is_ident_char(c: char) -> (b: bool)
    ensures
        b == spec_is_ident_char(c),
{
    is_ident_start(c) || is_digit(c)
}

} // verus!
