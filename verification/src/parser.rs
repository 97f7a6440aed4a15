//! The expression reader: a cursor over a borrowed text that yields one
//! expression, or one error, per pull.

use vstd::prelude::*;
use vstd::string::StringSliceAdditionalSpecFns;
use vstd::utf8::{
    decode_utf8, encode_utf8, encode_utf8_decode_utf8, encode_utf8_valid_utf8, is_char_boundary,
    valid_utf8,
};
use crate::classify::{is_digit, is_ident_char, is_ident_start, is_whitespace};
use crate::encoding::{
    byte_offset, char_width, lemma_byte_offset_end_only, lemma_byte_offset_ends,
    lemma_byte_offset_increases, lemma_byte_offset_skip, lemma_byte_offset_step,
    lemma_encode_injective, lemma_encode_split, lemma_inside_is_no_boundary,
    lemma_offset_is_boundary, spec_char_width,
};
use crate::grammar::{
    items, lemma_token_len, lemma_trim_start, number_item, token_item, token_len, trim_start,
};
use crate::number::{parse_decimal, NumberError};
use crate::runs::{
    all_in, ident_class, ident_run, lemma_all_in_extend, lemma_run_len_between, whitespace_class,
    whitespace_run,
};

verus! {

/// Why no expression could be read.
#[derive(Debug, PartialEq, Eq)]
pub enum ParseError {
    /// The next character cannot begin any expression.
    UnexpectedChar(char),
    /// The input ended where an expression was expected.
    UnexpectedEnd,
    /// A token that begins with a digit is not an unsigned 64-bit integer.
    /// Holds the token as it stands in the input, and the reason.
    InvalidNumber(String, NumberError),
    /// The next character begins a construct that the grammar reserves and
    /// does not define yet: `(`, for compound expressions.
    Unsupported(char),
}

pub type ParseResult<T> = Result<T, ParseError>;

/// An expression.
#[derive(Debug, PartialEq, Eq)]
pub enum Expr {
    /// An identifier: a non-empty run of identifier characters.
    Ident(String),
    /// An unsigned integer literal.
    Number(u64),
}

/// The mathematical value of an [`Expr`].
pub enum ExprView {
    Ident(Seq<char>),
    Number(u64),
}

/// The mathematical value of a [`ParseError`].
pub enum ParseErrorView {
    UnexpectedChar(char),
    UnexpectedEnd,
    InvalidNumber(Seq<char>, NumberError),
    Unsupported(char),
}

/// What one pull of the reader yields, as a mathematical value.
pub type Item = Result<ExprView, ParseErrorView>;

impl View for Expr {
    type V = ExprView;

    open spec fn view(&self) -> ExprView {
        match self {
            Expr::Ident(text) => ExprView::Ident(text@),
            Expr::Number(value) => ExprView::Number(*value),
        }
    }
}

impl View for ParseError {
    type V = ParseErrorView;

    open spec fn view(&self) -> ParseErrorView {
        match self {
            ParseError::UnexpectedChar(c) => ParseErrorView::UnexpectedChar(*c),
            ParseError::UnexpectedEnd => ParseErrorView::UnexpectedEnd,
            ParseError::InvalidNumber(text, reason) => ParseErrorView::InvalidNumber(
                text@,
                *reason,
            ),
            ParseError::Unsupported(c) => ParseErrorView::Unsupported(*c),
        }
    }
}

/// The mathematical value of a result of the reader.
pub open spec fn item_view(result: ParseResult<Expr>) -> Item {
    match result {
        Ok(expr) => Ok(expr@),
        Err(error) => Err(error@),
    }
}

/// The mathematical values of a sequence of results.
pub open spec fn items_view(results: Seq<ParseResult<Expr>>) -> Seq<Item> {
    Seq::new(results.len(), |i: int| item_view(results[i]))
}

/// A reader of expressions over a borrowed text.
///
/// It holds the text and a cursor: the byte offset of the next character.
pub struct Parser<'src> {
    source: &'src str,
    position: usize,
}

impl<'src> Parser<'src> {
    /// The text that is read.
    pub closed spec fn text(&self) -> Seq<char> {
        self.source@
    }

    /// The cursor, counted in characters: how many characters were read and
    /// not pushed back.
    pub closed spec fn offset(&self) -> nat {
        decode_utf8(self.source.spec_bytes().subrange(0, self.position as int)).len()
    }

    /// The cursor, counted in bytes of the UTF-8 encoding of the text.
    pub closed spec fn byte_position(&self) -> nat {
        self.position as nat
    }

    /// The characters before the cursor.
    pub open spec fn consumed(&self) -> Seq<char> {
        self.text().take(self.offset() as int)
    }

    /// The characters from the cursor on.
    pub open spec fn remaining(&self) -> Seq<char> {
        self.text().skip(self.offset() as int)
    }

    /// The character at the cursor, if the cursor is not at the end of the text.
    pub open spec fn next_char(&self) -> Option<char> {
        if self.offset() < self.text().len() {
            Some(self.text()[self.offset() as int])
        } else {
            None
        }
    }

    /// The cursor stands at the start of a character of the text, or at its end.
    pub open spec fn in_text(&self) -> bool {
        &&& self.offset() <= self.text().len()
        &&& self.byte_position() == byte_offset(self.text(), self.offset() as int)
    }

    /// A character can be pushed back: more characters were read than were
    /// pushed back, so that the cursor is not at the start of the text.
    pub open spec fn spec_can_unread(&self) -> bool {
        self.offset() > 0
    }

    #[verifier::type_invariant]
    spec fn well_formed(&self) -> bool {
        &&& encode_utf8(self.source@).len() <= usize::MAX
        &&& self.offset() <= self.source@.len()
        &&& self.position == byte_offset(self.source@, self.offset() as int)
    }

    /// The bytes before the byte offset of the character with index `k`
    /// decode to the `k` characters before it.
    proof fn lemma_offset_at(text: Seq<char>, k: int)
        requires
            0 <= k <= text.len(),
        ensures
            decode_utf8(encode_utf8(text).subrange(0, byte_offset(text, k) as int)).len() == k,
    {
        lemma_encode_split(text, k);
        encode_utf8_decode_utf8(text.take(k));
    }

    /// A reader at the start of `source`.
    pub fn new(source: &'src str) -> (parser: Parser<'src>)
        ensures
            parser.text() == source@,
            parser.offset() == 0,
            parser.byte_position() == 0,
            parser.in_text(),
            parser.remaining() == source@,
            !parser.can_unread(),
    {
        // The encoded text is a slice, so its length fits in `usize`.
        let _encoded_len: usize = source.as_bytes().len();
        proof {
            lemma_byte_offset_ends(source@);
            Self::lemma_offset_at(source@, 0);
            assert(source@.skip(0) =~= source@);
        }
        Parser { source, position: 0 }
    }

    /// Returns `true` if the cursor is at the end of the text.
    pub fn at_end(&self) -> (end: bool)
        ensures
            self.in_text(),
            end == (self.offset() == self.text().len()),
    {
        proof {
            use_type_invariant(self);
            lemma_byte_offset_end_only(self.source@, self.offset() as int);
        }
        self.position == self.source.len()
    }

    /// Returns `true` if a character can be pushed back.
    #[verifier::when_used_as_spec(spec_can_unread)]
    pub fn can_unread(&self) -> (possible: bool)
        ensures
            self.in_text(),
            possible == self.spec_can_unread(),
    {
        proof {
            use_type_invariant(self);
            lemma_byte_offset_ends(self.source@);
            if self.offset() > 0 {
                lemma_byte_offset_increases(self.source@, 0, self.offset() as int);
            }
        }
        self.position != 0
    }

    /// Returns the character at the cursor, or `None` at the end of the text.
    /// The cursor stays where it is.
    pub fn peek_char(&self) -> (next: Option<char>)
        ensures
            self.in_text(),
            next == self.next_char(),
    {
        proof {
            use_type_invariant(self);
            lemma_offset_is_boundary(self.source@, self.offset() as int);
            lemma_encode_split(self.source@, self.offset() as int);
        }
        let (_, rest) = self.source.split_at(self.position);
        proof {
            lemma_encode_injective(rest@, self.remaining());
        }
        let mut chars = rest.chars();
        chars.next()
    }

    /// Returns the character at the cursor and moves the cursor past it, by
    /// the width of its encoding. At the end of the text it returns `None` and
    /// leaves the cursor where it is.
    pub fn read_char(&mut self) -> (next: Option<char>)
        ensures
            final(self).text() == old(self).text(),
            final(self).in_text(),
            next == old(self).next_char(),
            next is Some ==> final(self).offset() == old(self).offset() + 1,
            next is Some ==> final(self).byte_position() == old(self).byte_position()
                + spec_char_width(next->0),
            next is None ==> final(self).offset() == old(self).offset(),
            next is None ==> final(self).byte_position() == old(self).byte_position(),
    {
        let next = self.peek_char();
        if let Some(c) = next {
            proof {
                use_type_invariant(&*self);
                lemma_byte_offset_step(self.source@, self.offset() as int);
                Self::lemma_offset_at(self.source@, self.offset() as int + 1);
            }
            self.position = self.position + char_width(c);
        }
        next
    }

    /// Moves the cursor back to the start of the character before it.
    ///
    /// Each call takes back one character that was read and not yet pushed
    /// back. With no such character the call is a fault of the caller, and
    /// is not allowed: not before the first read, and not more often than
    /// characters were read.
    pub fn unread_char(&mut self)
        requires
            old(self).can_unread(),
        ensures
            final(self).text() == old(self).text(),
            final(self).in_text(),
            final(self).offset() == old(self).offset() - 1,
            final(self).byte_position() == old(self).byte_position() - spec_char_width(
                old(self).text()[old(self).offset() - 1],
            ),
            final(self).next_char() == Some(old(self).text()[old(self).offset() - 1]),
    {
        let ghost k = self.offset() as int;
        proof {
            use_type_invariant(&*self);
            encode_utf8_valid_utf8(self.source@);
            lemma_byte_offset_step(self.source@, k - 1);
            lemma_offset_is_boundary(self.source@, k - 1);
        }
        let mut start = self.position - 1;
        while !self.source.is_char_boundary(start)
            invariant
                0 < k <= self.source@.len(),
                valid_utf8(self.source.spec_bytes()),
                byte_offset(self.source@, k - 1) <= start < byte_offset(self.source@, k),
                is_char_boundary(self.source.spec_bytes(), byte_offset(self.source@, k - 1) as int),
            decreases start,
        {
            start = start - 1;
        }
        proof {
            if byte_offset(self.source@, k - 1) < start {
                lemma_inside_is_no_boundary(self.source@, k - 1, start as int);
            }
            assert(start == byte_offset(self.source@, k - 1));
            Self::lemma_offset_at(self.source@, k - 1);
        }
        self.position = start;
    }

    /// The characters from the one with index `from` up to the cursor, where
    /// `start` is the byte offset of that character.
    fn text_since(&self, start: usize, Ghost(from): Ghost<int>) -> (token: String)
        requires
            0 <= from <= self.offset(),
            start == byte_offset(self.text(), from),
        ensures
            token@ == self.text().subrange(from, self.offset() as int),
    {
        let ghost text = self.source@;
        let ghost to = self.offset() as int;
        proof {
            use_type_invariant(self);
            lemma_offset_is_boundary(text, from);
            lemma_encode_split(text, from);
        }
        let (_, tail) = self.source.split_at(start);
        proof {
            lemma_encode_injective(tail@, text.skip(from));
            lemma_byte_offset_skip(text, from, to);
            lemma_offset_is_boundary(tail@, to - from);
            lemma_encode_split(tail@, to - from);
        }
        let (token, _) = tail.split_at(self.position - start);
        proof {
            lemma_encode_injective(token@, tail@.take(to - from));
            assert(tail@.take(to - from) =~= text.subrange(from, to));
        }
        token.to_owned()
    }

    /// Moves the cursor past the whitespace at the cursor.
    pub fn skip_whitespace(&mut self)
        ensures
            final(self).text() == old(self).text(),
            final(self).in_text(),
            final(self).offset() == old(self).offset() + whitespace_run(old(self).remaining()),
            final(self).remaining() == trim_start(old(self).remaining()),
    {
        let ghost text = self.text();
        let ghost from = self.offset() as int;
        proof {
            use_type_invariant(&*self);
            assert(text.subrange(from, from) =~= Seq::<char>::empty());
        }
        loop
            invariant_except_break
                all_in(text.subrange(from, self.offset() as int), whitespace_class()),
            invariant
                self.text() == text,
                self.in_text(),
                0 <= from <= self.offset(),
            ensures
                self.offset() == from + whitespace_run(text.skip(from)),
            decreases text.len() - self.offset(),
        {
            let ghost at = self.offset() as int;
            match self.read_char() {
                Some(c) => {
                    if !is_whitespace(c) {
                        self.unread_char();
                        proof {
                            lemma_run_len_between(text, whitespace_class(), from, at);
                        }
                        break ;
                    }
                    proof {
                        lemma_all_in_extend(text, whitespace_class(), from, at);
                    }
                },
                None => {
                    proof {
                        lemma_run_len_between(text, whitespace_class(), from, at);
                    }
                    break ;
                },
            }
        }
        proof {
            assert(text.skip(from).skip(whitespace_run(text.skip(from)) as int) =~= text.skip(
                self.offset() as int,
            ));
        }
    }

    /// Moves the cursor past the run of identifier characters at the cursor,
    /// and returns the run.
    fn read_ident_run(&mut self) -> (token: String)
        ensures
            final(self).text() == old(self).text(),
            final(self).in_text(),
            final(self).offset() == old(self).offset() + ident_run(old(self).remaining()),
            token@ == old(self).remaining().take(ident_run(old(self).remaining()) as int),
    {
        let ghost text = self.text();
        let ghost from = self.offset() as int;
        let start = self.position;
        proof {
            use_type_invariant(&*self);
            assert(text.subrange(from, from) =~= Seq::<char>::empty());
        }
        loop
            invariant_except_break
                all_in(text.subrange(from, self.offset() as int), ident_class()),
            invariant
                self.text() == text,
                self.in_text(),
                0 <= from <= self.offset(),
            ensures
                self.offset() == from + ident_run(text.skip(from)),
            decreases text.len() - self.offset(),
        {
            let ghost at = self.offset() as int;
            match self.read_char() {
                Some(c) => {
                    if !is_ident_char(c) {
                        self.unread_char();
                        proof {
                            lemma_run_len_between(text, ident_class(), from, at);
                        }
                        break ;
                    }
                    proof {
                        lemma_all_in_extend(text, ident_class(), from, at);
                    }
                },
                None => {
                    proof {
                        lemma_run_len_between(text, ident_class(), from, at);
                    }
                    break ;
                },
            }
        }
        let token = self.text_since(start, Ghost(from));
        proof {
            assert(text.skip(from).take(ident_run(text.skip(from)) as int) =~= text.subrange(
                from,
                self.offset() as int,
            ));
        }
        token
    }

    /// Reads an identifier: the run of identifier characters at the cursor.
    ///
    /// Where the cursor stands at a character that may begin an identifier,
    /// the run is not empty.
    pub fn parse_ident(&mut self) -> (expr: Expr)
        ensures
            final(self).text() == old(self).text(),
            final(self).in_text(),
            final(self).offset() == old(self).offset() + ident_run(old(self).remaining()),
            expr@ == ExprView::Ident(
                old(self).remaining().take(ident_run(old(self).remaining()) as int),
            ),
    {
        let ident = self.read_ident_run();
        Expr::Ident(ident)
    }

    /// Reads a number: the run of identifier characters at the cursor, taken
    /// as an unsigned 64-bit decimal literal.
    ///
    /// The whole run is the token, letters included, so that `123abc` is one
    /// malformed number. The error holds the token as it stands in the text.
    pub fn parse_number(&mut self) -> (result: ParseResult<Expr>)
        ensures
            final(self).text() == old(self).text(),
            final(self).in_text(),
            final(self).offset() == old(self).offset() + ident_run(old(self).remaining()),
            item_view(result) == number_item(
                old(self).remaining().take(ident_run(old(self).remaining()) as int),
            ),
    {
        let number = self.read_ident_run();
        match parse_decimal(number.as_str()) {
            Ok(value) => Ok(Expr::Number(value)),
            Err(reason) => Err(ParseError::InvalidNumber(number, reason)),
        }
    }

    /// Reads the token at the cursor.
    ///
    /// A character that cannot begin an expression is passed over when it is
    /// reported, so that every call that is not made at the end of the text
    /// moves the cursor forward.
    pub fn parse_expr(&mut self) -> (result: ParseResult<Expr>)
        ensures
            final(self).text() == old(self).text(),
            final(self).in_text(),
            final(self).offset() == old(self).offset() + token_len(old(self).remaining()),
            item_view(result) == token_item(old(self).remaining()),
    {
        let c = match self.peek_char() {
            Some(c) => c,
            None => {
                return Err(ParseError::UnexpectedEnd);
            },
        };
        assert(self.remaining()[0] == c);
        if c == '(' {
            self.read_char();
            Err(ParseError::Unsupported(c))
        } else if is_ident_start(c) {
            Ok(self.parse_ident())
        } else if is_digit(c) {
            self.parse_number()
        } else {
            self.read_char();
            Err(ParseError::UnexpectedChar(c))
        }
    }

    /// Skips whitespace and reads the next token; `None` once only whitespace
    /// is left, and from then on.
    pub fn next(&mut self) -> (item: Option<ParseResult<Expr>>)
        ensures
            final(self).text() == old(self).text(),
            final(self).in_text(),
            final(self).offset() == old(self).offset() + whitespace_run(old(self).remaining())
                + token_len(trim_start(old(self).remaining())),
            final(self).remaining() == trim_start(old(self).remaining()).skip(
                token_len(trim_start(old(self).remaining())) as int,
            ),
            trim_start(old(self).remaining()).len() == 0 ==> item is None && final(self).offset()
                == final(self).text().len(),
            trim_start(old(self).remaining()).len() > 0 ==> item is Some && item_view(item->0)
                == token_item(trim_start(old(self).remaining())),
    {
        let ghost rest = trim_start(self.remaining());
        proof {
            lemma_trim_start(self.remaining());
            lemma_token_len(rest);
        }
        self.skip_whitespace();
        if self.at_end() {
            proof {
                assert(rest.skip(0) =~= rest);
            }
            None
        } else {
            let result = self.parse_expr();
            proof {
                assert(rest.skip(token_len(rest) as int) =~= self.text().skip(
                    self.offset() as int,
                ));
            }
            Some(result)
        }
    }

    /// Reads the text from the cursor to its end, and returns all that it yields.
    pub fn collect(self) -> (results: Vec<ParseResult<Expr>>)
        ensures
            items_view(results@) == items(self.remaining()),
    {
        let ghost all = items(self.remaining());
        let mut reader = self;
        let mut results: Vec<ParseResult<Expr>> = Vec::new();
        proof {
            use_type_invariant(&reader);
            assert(items_view(results@) + items(reader.remaining()) =~= all);
        }
        loop
            invariant_except_break
                items_view(results@) + items(reader.remaining()) == all,
            invariant
                reader.in_text(),
            ensures
                items_view(results@) == all,
            decreases reader.remaining().len(),
        {
            let ghost before = reader.remaining();
            let ghost seen = items_view(results@);
            proof {
                lemma_trim_start(before);
                lemma_token_len(trim_start(before));
            }
            match reader.next() {
                Some(result) => {
                    results.push(result);
                    proof {
                        assert(items_view(results@) =~= seen + seq![item_view(result)]);
                        let rest = items(reader.remaining());
                        assert(seen + (seq![item_view(result)] + rest) =~= (seen
                            + seq![item_view(result)]) + rest);
                    }
                },
                None => {
                    proof {
                        assert(seen + Seq::<Item>::empty() =~= seen);
                    }
                    break ;
                },
            }
        }
        results
    }
}

} // verus!
