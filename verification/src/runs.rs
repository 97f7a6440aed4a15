//! Runs: the longest prefix of a text whose characters all belong to one class.

use vstd::prelude::*;
use crate::classify::{spec_is_digit, spec_is_ident_char, spec_is_whitespace};

verus! {

/// Length of the longest prefix of `s` whose characters all satisfy `class`.
pub open spec fn run_len(s: Seq<char>, class: spec_fn(char) -> bool) -> nat
    decreases s.len(),
{
    if s.len() > 0 && class(s[0]) {
        1 + run_len(s.drop_first(), class)
    } else {
        0
    }
}

/// The class of whitespace characters.
pub open spec fn whitespace_class() -> spec_fn(char) -> bool {
    |c: char| spec_is_whitespace(c)
}

/// The class of characters that may continue an identifier.
pub open spec fn ident_class() -> spec_fn(char) -> bool {
    |c: char| spec_is_ident_char(c)
}

/// The class of decimal digits.
pub open spec fn digit_class() -> spec_fn(char) -> bool {
    |c: char| spec_is_digit(c)
}

/// Every character of `s` satisfies `class`.
pub open spec fn all_in(s: Seq<char>, class: spec_fn(char) -> bool) -> bool {
    forall|i: int| 0 <= i < s.len() ==> class(#[trigger] s[i])
}

/// Number of whitespace characters at the start of `s`.
pub open spec fn whitespace_run(s: Seq<char>) -> nat {
    run_len(s, whitespace_class())
}

/// Number of identifier characters at the start of `s`.
pub open spec fn ident_run(s: Seq<char>) -> nat {
    run_len(s, ident_class())
}

/// Number of digits at the start of `s`.
pub open spec fn digit_run(s: Seq<char>) -> nat {
    run_len(s, digit_class())
}

/// A run lies within the text, all its characters are in the class, and the
/// character after it, if there is one, is not.
pub proof fn lemma_run_len(s: Seq<char>, class: spec_fn(char) -> bool)
    ensures
        run_len(s, class) <= s.len(),
        all_in(s.take(run_len(s, class) as int), class),
        run_len(s, class) < s.len() ==> !class(s[run_len(s, class) as int]),
    decreases s.len(),
{
    if s.len() > 0 && class(s[0]) {
        let rest = s.drop_first();
        lemma_run_len(rest, class);
        let n = run_len(s, class) as int;
        assert forall|i: int| 0 <= i < n implies class(#[trigger] s.take(n)[i]) by {
            if i > 0 {
                assert(s.take(n)[i] == rest.take(n - 1)[i - 1]);
            }
        }
        if n < s.len() {
            assert(s[n] == rest[n - 1]);
        }
    }
}

/// A prefix whose characters are all in the class, and which ends the text or
/// is followed by a character outside the class, is the run.
pub proof fn lemma_run_len_is(s: Seq<char>, class: spec_fn(char) -> bool, n: int)
    requires
        0 <= n <= s.len(),
        all_in(s.take(n), class),
        n < s.len() ==> !class(s[n]),
    ensures
        run_len(s, class) == n,
    decreases s.len(),
{
    if n == 0 {
    } else {
        let rest = s.drop_first();
        assert(s[0] == s.take(n)[0]);
        assert forall|i: int| 0 <= i < n - 1 implies class(#[trigger] rest.take(n - 1)[i]) by {
            assert(rest.take(n - 1)[i] == s.take(n)[i + 1]);
        }
        if n - 1 < rest.len() {
            assert(rest[n - 1] == s[n]);
        }
        lemma_run_len_is(rest, class, n - 1);
    }
}

/// A text that lies wholly in the class is its own run.
pub proof fn lemma_run_len_all(s: Seq<char>, class: spec_fn(char) -> bool)
    requires
        all_in(s, class),
    ensures
        run_len(s, class) == s.len(),
{
    assert(s.take(s.len() as int) =~= s);
    lemma_run_len_is(s, class, s.len() as int);
}

/// In front of any text, a prefix that lies wholly in the class lengthens the run by its length.
pub proof fn lemma_run_len_after_prefix(a: Seq<char>, b: Seq<char>, class: spec_fn(char) -> bool)
    requires
        all_in(a, class),
    ensures
        run_len(a + b, class) == a.len() + run_len(b, class),
{
    let s = a + b;
    let n = (a.len() + run_len(b, class)) as int;
    lemma_run_len(b, class);
    assert forall|i: int| 0 <= i < n implies class(#[trigger] s.take(n)[i]) by {
        if i < a.len() {
            assert(s.take(n)[i] == a[i]);
        } else {
            assert(s.take(n)[i] == b.take(run_len(b, class) as int)[i - a.len()]);
        }
    }
    if n < s.len() {
        assert(s[n] == b[n - a.len()]);
    }
    lemma_run_len_is(s, class, n);
}

/// A run that stops inside a text is not changed by what is appended to the text.
pub proof fn lemma_run_len_before_suffix(a: Seq<char>, b: Seq<char>, class: spec_fn(char) -> bool)
    requires
        run_len(a, class) < a.len(),
    ensures
        run_len(a + b, class) == run_len(a, class),
{
    let s = a + b;
    let n = run_len(a, class) as int;
    lemma_run_len(a, class);
    assert(s.take(n) =~= a.take(n));
    assert(s[n] == a[n]);
    lemma_run_len_is(s, class, n);
}

/// A stretch of a text whose characters are all in the class, and which ends
/// the text or is followed by a character outside the class, is the run of
/// the text from where the stretch starts.
pub proof fn lemma_run_len_between(
    s: Seq<char>,
    class: spec_fn(char) -> bool,
    from: int,
    to: int,
)
    requires
        0 <= from <= to <= s.len(),
        all_in(s.subrange(from, to), class),
        to < s.len() ==> !class(s[to]),
    ensures
        run_len(s.skip(from), class) == to - from,
{
    let tail = s.skip(from);
    assert(tail.take(to - from) =~= s.subrange(from, to));
    lemma_run_len_is(tail, class, to - from);
}

/// A stretch whose characters are all in the class stays so when it is
/// extended by one more character of the class.
pub proof fn lemma_all_in_extend(s: Seq<char>, class: spec_fn(char) -> bool, from: int, to: int)
    requires
        0 <= from <= to < s.len(),
        all_in(s.subrange(from, to), class),
        class(s[to]),
    ensures
        all_in(s.subrange(from, to + 1), class),
{
    assert forall|i: int| 0 <= i < to + 1 - from implies class(
        #[trigger] s.subrange(from, to + 1)[i],
    ) by {
        if i < to - from {
            assert(s.subrange(from, to + 1)[i] == s.subrange(from, to)[i]);
        }
    }
}

} // verus!
