//! The grammar, as functions on sequences of characters.
//!
//! An input is a sequence of tokens that whitespace may separate. A token that
//! begins with an identifier-start character is an identifier; one that begins
//! with a digit is a number. Both extend over the whole run of identifier
//! characters, so that `123abc` is one malformed number and not a number
//! followed by an identifier. Any other character is a token by itself, and an
//! error.

use vstd::prelude::*;
use crate::classify::{spec_is_digit, spec_is_ident_char, spec_is_ident_start};
use crate::number::decimal_literal;
use crate::parser::{ExprView, Item, ParseErrorView};
use crate::runs::{ident_class, ident_run, lemma_run_len, whitespace_class, whitespace_run};

verus! {

/// What a token that begins with a digit denotes.
pub open spec fn number_item(token: Seq<char>) -> Item {
    match decimal_literal(token) {
        Ok(value) => Ok(ExprView::Number(value)),
        Err(reason) => Err(ParseErrorView::InvalidNumber(token, reason)),
    }
}

/// Number of characters of the token at the start of `s`: the run of
/// identifier characters, or one character that cannot be part of any
/// expression; zero only for the empty text.
pub open spec fn token_len(s: Seq<char>) -> nat {
    if s.len() == 0 {
        0
    } else if spec_is_ident_char(s[0]) {
        ident_run(s)
    } else {
        1
    }
}

/// What the token at the start of `s` denotes.
pub open spec fn token_item(s: Seq<char>) -> Item {
    if s.len() == 0 {
        Err(ParseErrorView::UnexpectedEnd)
    } else if s[0] == '(' {
        Err(ParseErrorView::Unsupported(s[0]))
    } else if spec_is_ident_start(s[0]) {
        Ok(ExprView::Ident(s.take(ident_run(s) as int)))
    } else if spec_is_digit(s[0]) {
        number_item(s.take(ident_run(s) as int))
    } else {
        Err(ParseErrorView::UnexpectedChar(s[0]))
    }
}

/// The text that is left of `s` once its leading whitespace is skipped.
pub open spec fn trim_start(s: Seq<char>) -> Seq<char> {
    s.skip(whitespace_run(s) as int)
}

/// A token lies within the text, and a non-empty text has a non-empty token.
pub proof fn lemma_token_len(s: Seq<char>)
    ensures
        token_len(s) <= s.len(),
        s.len() > 0 ==> token_len(s) >= 1,
{
    lemma_run_len(s, ident_class());
}

/// Skipping whitespace leaves a text that is not longer, and that does not
/// begin with whitespace.
pub proof fn lemma_trim_start(s: Seq<char>)
    ensures
        whitespace_run(s) <= s.len(),
        trim_start(s).len() == s.len() - whitespace_run(s),
        trim_start(s).len() > 0 ==> !whitespace_class()(trim_start(s)[0]),
        whitespace_run(trim_start(s)) == 0,
{
    lemma_run_len(s, whitespace_class());
}

/// All that the reader yields on the text `s`, in order.
pub open spec fn items(s: Seq<char>) -> Seq<Item>
    decreases s.len(),
    via items_decreases
{
    let rest = trim_start(s);
    if rest.len() == 0 {
        Seq::empty()
    } else {
        seq![token_item(rest)] + items(rest.skip(token_len(rest) as int))
    }
}

#[via_fn]
proof fn items_decreases(s: Seq<char>) {
    let rest = trim_start(s);
    lemma_trim_start(s);
    lemma_token_len(rest);
}

} // verus!
