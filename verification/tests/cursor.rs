use rl_parser::{Expr, NumberError, ParseError, Parser};

#[test]
fn peek_does_not_move_the_cursor() {
    let parser = Parser::new("ab");
    assert_eq!(parser.peek_char(), Some('a'));
    assert_eq!(parser.peek_char(), Some('a'));
}

#[test]
fn peek_at_the_end_is_none() {
    let parser = Parser::new("");
    assert_eq!(parser.peek_char(), None);
}

#[test]
fn read_moves_past_one_character() {
    let mut parser = Parser::new("ab");
    assert_eq!(parser.read_char(), Some('a'));
    assert_eq!(parser.peek_char(), Some('b'));
    assert_eq!(parser.read_char(), Some('b'));
    assert_eq!(parser.peek_char(), None);
}

#[test]
fn read_at_the_end_is_none_and_stays() {
    let mut parser = Parser::new("a");
    assert_eq!(parser.read_char(), Some('a'));
    assert!(parser.at_end());
    assert_eq!(parser.read_char(), None);
    assert_eq!(parser.read_char(), None);
    assert!(parser.at_end());
    parser.unread_char();
    assert_eq!(parser.read_char(), Some('a'));
}

#[test]
fn read_moves_by_the_width_of_the_character() {
    let mut parser = Parser::new("\u{e9}\u{20ac}\u{1f600}z");
    assert_eq!(parser.read_char(), Some('\u{e9}'));
    assert_eq!(parser.read_char(), Some('\u{20ac}'));
    assert_eq!(parser.read_char(), Some('\u{1f600}'));
    assert_eq!(parser.read_char(), Some('z'));
    assert_eq!(parser.read_char(), None);
}

#[test]
fn unread_goes_back_to_the_start_of_the_character() {
    let mut parser = Parser::new("a\u{e9}\u{20ac}\u{1f600}");
    assert_eq!(parser.read_char(), Some('a'));
    parser.unread_char();
    assert_eq!(parser.peek_char(), Some('a'));
    assert_eq!(parser.read_char(), Some('a'));
    assert_eq!(parser.read_char(), Some('\u{e9}'));
    parser.unread_char();
    assert_eq!(parser.read_char(), Some('\u{e9}'));
    assert_eq!(parser.read_char(), Some('\u{20ac}'));
    parser.unread_char();
    assert_eq!(parser.read_char(), Some('\u{20ac}'));
    assert_eq!(parser.read_char(), Some('\u{1f600}'));
    parser.unread_char();
    assert_eq!(parser.read_char(), Some('\u{1f600}'));
    assert!(parser.at_end());
}

#[test]
fn nothing_can_be_pushed_back_before_a_read() {
    let parser = Parser::new("ab");
    assert!(!parser.can_unread());
    let empty = Parser::new("");
    assert!(!empty.can_unread());
}

#[test]
fn a_read_allows_one_push_back() {
    let mut parser = Parser::new("ab");
    assert_eq!(parser.read_char(), Some('a'));
    assert!(parser.can_unread());
    parser.unread_char();
    assert!(!parser.can_unread());
}

#[test]
fn a_failed_read_allows_no_push_back() {
    let mut parser = Parser::new("");
    assert_eq!(parser.read_char(), None);
    assert!(!parser.can_unread());
}

#[test]
fn as_many_push_backs_as_reads() {
    let mut parser = Parser::new("a\u{e9}c");
    assert_eq!(parser.read_char(), Some('a'));
    assert_eq!(parser.read_char(), Some('\u{e9}'));
    assert!(parser.can_unread());
    parser.unread_char();
    assert!(parser.can_unread());
    parser.unread_char();
    assert!(!parser.can_unread());
    assert_eq!(parser.peek_char(), Some('a'));
}

#[test]
fn at_end_tells_the_end() {
    assert!(Parser::new("").at_end());
    let mut parser = Parser::new("\u{e9}");
    assert!(!parser.at_end());
    parser.read_char();
    assert!(parser.at_end());
    parser.unread_char();
    assert!(!parser.at_end());
}

#[test]
fn skip_whitespace_stops_at_the_first_other_character() {
    let mut parser = Parser::new(" \t\n x y");
    parser.skip_whitespace();
    assert_eq!(parser.peek_char(), Some('x'));
    parser.skip_whitespace();
    assert_eq!(parser.peek_char(), Some('x'));
}

#[test]
fn skip_whitespace_reaches_the_end() {
    let mut parser = Parser::new("  \n");
    parser.skip_whitespace();
    assert!(parser.at_end());
    parser.skip_whitespace();
    assert!(parser.at_end());
}

#[test]
fn parse_ident_takes_the_run() {
    let mut parser = Parser::new("abc9 def");
    assert_eq!(parser.parse_ident(), Expr::Ident("abc9".to_string()));
    assert_eq!(parser.peek_char(), Some(' '));
}

#[test]
fn parse_ident_stops_at_a_character_of_several_bytes() {
    let mut parser = Parser::new("ab\u{e9}cd");
    assert_eq!(parser.parse_ident(), Expr::Ident("ab".to_string()));
    assert_eq!(parser.peek_char(), Some('\u{e9}'));
}

#[test]
fn parse_ident_reads_from_the_cursor_on() {
    let mut parser = Parser::new("\u{20ac}abc");
    assert_eq!(parser.read_char(), Some('\u{20ac}'));
    assert_eq!(parser.parse_ident(), Expr::Ident("abc".to_string()));
    assert!(parser.at_end());
}

#[test]
fn parse_ident_where_none_starts_takes_nothing() {
    let mut parser = Parser::new(" x");
    assert_eq!(parser.parse_ident(), Expr::Ident(String::new()));
    assert_eq!(parser.peek_char(), Some(' '));
}

#[test]
fn parse_number_takes_the_run() {
    let mut parser = Parser::new("123 4");
    assert_eq!(parser.parse_number(), Ok(Expr::Number(123)));
    assert_eq!(parser.peek_char(), Some(' '));
}

#[test]
fn parse_number_keeps_the_token_in_the_error() {
    let mut parser = Parser::new("12_x)");
    assert_eq!(
        parser.parse_number(),
        Err(ParseError::InvalidNumber("12_x".to_string(), NumberError::InvalidDigit))
    );
    assert_eq!(parser.peek_char(), Some(')'));
}

#[test]
fn parse_number_where_no_token_starts_is_empty() {
    let mut parser = Parser::new("");
    assert_eq!(
        parser.parse_number(),
        Err(ParseError::InvalidNumber(String::new(), NumberError::Empty))
    );
    let mut other = Parser::new(" 1");
    assert_eq!(
        other.parse_number(),
        Err(ParseError::InvalidNumber(String::new(), NumberError::Empty))
    );
    assert_eq!(other.peek_char(), Some(' '));
}

#[test]
fn parse_number_takes_no_sign() {
    let mut parser = Parser::new("+12");
    assert_eq!(
        parser.parse_number(),
        Err(ParseError::InvalidNumber("+12".to_string(), NumberError::InvalidDigit))
    );
}

#[test]
fn parse_expr_at_the_end() {
    let mut parser = Parser::new("");
    assert_eq!(parser.parse_expr(), Err(ParseError::UnexpectedEnd));
    assert!(parser.at_end());
}

#[test]
fn parse_expr_does_not_skip_whitespace() {
    let mut parser = Parser::new(" a");
    assert_eq!(parser.parse_expr(), Err(ParseError::UnexpectedChar(' ')));
    assert_eq!(parser.parse_expr(), Ok(Expr::Ident("a".to_string())));
    assert_eq!(parser.parse_expr(), Err(ParseError::UnexpectedEnd));
}

#[test]
fn parse_expr_tells_identifiers_from_numbers() {
    let mut parser = Parser::new("a1");
    assert_eq!(parser.parse_expr(), Ok(Expr::Ident("a1".to_string())));
    let mut other = Parser::new("1a");
    assert_eq!(
        other.parse_expr(),
        Err(ParseError::InvalidNumber("1a".to_string(), NumberError::InvalidDigit))
    );
}

#[test]
fn parse_expr_passes_over_what_it_rejects() {
    let mut parser = Parser::new("(\u{e9}7");
    assert_eq!(parser.parse_expr(), Err(ParseError::Unsupported('(')));
    assert_eq!(parser.parse_expr(), Err(ParseError::UnexpectedChar('\u{e9}')));
    assert_eq!(parser.parse_expr(), Ok(Expr::Number(7)));
    assert!(parser.at_end());
}
