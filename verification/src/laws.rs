//! What holds of every input: laws of the grammar, proved from its definition.

use vstd::prelude::*;
use crate::classify::{spec_is_digit, spec_is_ident_start, spec_is_whitespace};
use crate::grammar::{items, lemma_token_len, lemma_trim_start, token_item, token_len, trim_start};
use crate::number::{decimal_literal, decimal_value, NumberError};
use crate::parser::{ExprView, Item, ParseErrorView};
use crate::runs::{
    all_in, digit_class, digit_run, ident_class, ident_run, lemma_run_len,
    lemma_run_len_after_prefix, lemma_run_len_all, lemma_run_len_before_suffix, lemma_run_len_is,
    whitespace_class, whitespace_run,
};

verus! {

/// A text of whitespace alone, the empty text included, yields nothing.
pub proof fn lemma_whitespace_yields_nothing(s: Seq<char>)
    requires
        all_in(s, whitespace_class()),
    ensures
        items(s) == Seq::<Item>::empty(),
{
    lemma_run_len_all(s, whitespace_class());
}

/// A text that does not begin with whitespace has no leading whitespace to skip.
proof fn lemma_no_leading_whitespace(s: Seq<char>)
    requires
        s.len() > 0,
        !spec_is_whitespace(s[0]),
    ensures
        whitespace_run(s) == 0,
        trim_start(s) == s,
{
    assert(s.take(0) =~= Seq::<char>::empty());
    lemma_run_len_is(s, whitespace_class(), 0);
    assert(s.skip(0) =~= s);
}

/// A text that is one token yields what the token denotes, and nothing else.
proof fn lemma_single_token(s: Seq<char>)
    requires
        s.len() > 0,
        !spec_is_whitespace(s[0]),
        token_len(s) == s.len(),
    ensures
        items(s) == seq![token_item(s)],
{
    lemma_no_leading_whitespace(s);
    let rest = s.skip(s.len() as int);
    assert(rest =~= Seq::<char>::empty());
    lemma_whitespace_yields_nothing(rest);
    assert(seq![token_item(s)] + Seq::<Item>::empty() =~= seq![token_item(s)]);
}

/// A non-empty text of digits whose value fits in 64 bits is one token, and
/// yields exactly one number: that value.
pub proof fn lemma_digits_yield_number(s: Seq<char>)
    requires
        s.len() > 0,
        all_in(s, digit_class()),
        decimal_value(s) <= u64::MAX,
    ensures
        token_len(s) == s.len(),
        items(s) == seq![Ok::<ExprView, ParseErrorView>(ExprView::Number(decimal_value(s) as u64))],
{
    assert(spec_is_digit(s[0])) by {
        assert(digit_class()(s[0]));
    }
    assert forall|i: int| 0 <= i < s.len() implies ident_class()(#[trigger] s[i]) by {
        assert(digit_class()(s[i]));
    }
    lemma_run_len_all(s, ident_class());
    lemma_run_len_all(s, digit_class());
    assert(s.take(s.len() as int) =~= s);
    assert(decimal_literal(s) == Ok::<u64, NumberError>(decimal_value(s) as u64));
    lemma_single_token(s);
}

/// A text that begins with an identifier-start character and goes on with
/// identifier characters is one token, and yields exactly one identifier: the
/// text itself.
pub proof fn lemma_identifier_yields_ident(s: Seq<char>)
    requires
        s.len() > 0,
        spec_is_ident_start(s[0]),
        all_in(s, ident_class()),
    ensures
        token_len(s) == s.len(),
        items(s) == seq![Ok::<ExprView, ParseErrorView>(ExprView::Ident(s))],
{
    lemma_run_len_all(s, ident_class());
    assert(s.take(s.len() as int) =~= s);
    lemma_single_token(s);
}

/// Whitespace in front of a text does not change what the text yields.
pub proof fn lemma_leading_whitespace(space: Seq<char>, s: Seq<char>)
    requires
        all_in(space, whitespace_class()),
    ensures
        items(space + s) == items(s),
{
    lemma_run_len_after_prefix(space, s, whitespace_class());
    lemma_run_len(s, whitespace_class());
    assert(trim_start(space + s) =~= trim_start(s));
}

/// The token at the start of a text is not changed by whitespace that is
/// appended to the text.
proof fn lemma_token_before_whitespace(s: Seq<char>, space: Seq<char>)
    requires
        s.len() > 0,
        all_in(space, whitespace_class()),
    ensures
        token_len(s + space) == token_len(s),
        token_item(s + space) == token_item(s),
{
    let longer = s + space;
    assert(longer[0] == s[0]);
    lemma_run_len(s, ident_class());
    if ident_run(s) < s.len() {
        lemma_run_len_before_suffix(s, space, ident_class());
    } else {
        assert(s.take(s.len() as int) =~= s);
        lemma_run_len_after_prefix(s, space, ident_class());
        if space.len() > 0 {
            assert(whitespace_class()(space[0]));
        }
        assert(space.take(0) =~= Seq::<char>::empty());
        lemma_run_len_is(space, ident_class(), 0);
    }
    assert(ident_run(longer) == ident_run(s));
    assert(longer.take(ident_run(s) as int) =~= s.take(ident_run(s) as int));
}

/// Whitespace after a text does not change what the text yields.
pub proof fn lemma_trailing_whitespace(s: Seq<char>, space: Seq<char>)
    requires
        all_in(space, whitespace_class()),
    ensures
        items(s + space) == items(s),
    decreases s.len(),
{
    let rest = trim_start(s);
    lemma_trim_start(s);
    lemma_run_len(s, whitespace_class());
    if rest.len() == 0 {
        assert(s.take(s.len() as int) =~= s);
        assert forall|i: int| 0 <= i < (s + space).len() implies whitespace_class()(
            #[trigger] (s + space)[i],
        ) by {
            if i < s.len() {
                assert(whitespace_class()(s[i]));
            } else {
                assert(whitespace_class()(space[i - s.len()]));
            }
        }
        lemma_whitespace_yields_nothing(s);
        lemma_whitespace_yields_nothing(s + space);
    } else {
        lemma_run_len_before_suffix(s, space, whitespace_class());
        assert(trim_start(s + space) =~= rest + space);
        lemma_token_before_whitespace(rest, space);
        lemma_token_len(rest);
        let n = token_len(rest) as int;
        assert((rest + space).skip(n) =~= rest.skip(n) + space);
        lemma_trailing_whitespace(rest.skip(n), space);
    }
}

/// Whitespace around a text, in any amount, does not change what the text yields.
pub proof fn lemma_whitespace_around(before: Seq<char>, s: Seq<char>, after: Seq<char>)
    requires
        all_in(before, whitespace_class()),
        all_in(after, whitespace_class()),
    ensures
        items(before + s + after) == items(s),
{
    assert(before + s + after =~= before + (s + after));
    lemma_leading_whitespace(before, s + after);
    lemma_trailing_whitespace(s, after);
}

/// Every item takes at least one character: a text does not yield more items
/// than it has characters.
pub proof fn lemma_items_len(s: Seq<char>)
    ensures
        items(s).len() <= s.len(),
    decreases s.len(),
{
    let rest = trim_start(s);
    lemma_trim_start(s);
    lemma_token_len(rest);
    if rest.len() > 0 {
        lemma_items_len(rest.skip(token_len(rest) as int));
    }
}

/// Every identifier that a text yields is a non-empty text of identifier
/// characters that begins with an identifier-start character.
pub proof fn lemma_identifiers_are_well_formed(s: Seq<char>, i: int)
    requires
        0 <= i < items(s).len(),
        items(s)[i] is Ok,
        items(s)[i]->Ok_0 is Ident,
    ensures
        items(s)[i]->Ok_0->Ident_0.len() > 0,
        spec_is_ident_start(items(s)[i]->Ok_0->Ident_0[0]),
        all_in(items(s)[i]->Ok_0->Ident_0, ident_class()),
    decreases s.len(),
{
    let rest = trim_start(s);
    lemma_trim_start(s);
    lemma_token_len(rest);
    lemma_run_len(rest, ident_class());
    if i > 0 {
        lemma_identifiers_are_well_formed(rest.skip(token_len(rest) as int), i - 1);
    }
}

/// A text is an unsigned 64-bit decimal literal exactly if it is a non-empty
/// text of digits whose value fits in 64 bits, and it then denotes that value.
pub proof fn lemma_literals_are_digits(token: Seq<char>)
    ensures
        decimal_literal(token) is Ok <==> token.len() > 0 && all_in(token, digit_class())
            && decimal_value(token) <= u64::MAX,
        decimal_literal(token) is Ok ==> decimal_literal(token)->Ok_0 == decimal_value(token),
{
    lemma_run_len(token, digit_class());
    if digit_run(token) == token.len() {
        assert(token.take(token.len() as int) =~= token);
    } else {
        assert(!digit_class()(token[digit_run(token) as int]));
    }
    if all_in(token, digit_class()) {
        lemma_run_len_all(token, digit_class());
    }
}

} // verus!
