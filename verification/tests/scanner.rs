//! Lexer tests: one token per call, positions and lines as specified.

use lox_vm::scanner::Scanner;
use lox_vm::token_type::TokenType;

fn chars(s: &str) -> Vec<char> {
    s.chars().collect()
}

fn kinds_of(source: &str) -> Vec<TokenType> {
    let mut scanner = Scanner::new(source);
    let mut out: Vec<TokenType> = Vec::new();
    loop {
        let t = scanner.scan_token();
        let done = t.kind == TokenType::Eof;
        out.push(t.kind);
        if done {
            return out;
        }
    }
}

#[test]
fn single_and_double_character_operators() {
    assert_eq!(
        kinds_of("( ) { } , . - + ; * / ! != = == < <= > >="),
        vec![
            TokenType::LeftParen,
            TokenType::RightParen,
            TokenType::LeftBrace,
            TokenType::RightBrace,
            TokenType::Comma,
            TokenType::Dot,
            TokenType::Minus,
            TokenType::Plus,
            TokenType::Semicolon,
            TokenType::Star,
            TokenType::Slash,
            TokenType::Bang,
            TokenType::BangEqual,
            TokenType::Equal,
            TokenType::EqualEqual,
            TokenType::Less,
            TokenType::LessEqual,
            TokenType::Greater,
            TokenType::GreaterEqual,
            TokenType::Eof,
        ]
    );
}

#[test]
fn number_lexemes() {
    let mut s = Scanner::new("12.5 7");
    let t = s.scan_token();
    assert_eq!(t.kind, TokenType::Number);
    assert_eq!(t.lexeme, chars("12.5"));
    let t = s.scan_token();
    assert_eq!(t.kind, TokenType::Number);
    assert_eq!(t.lexeme, chars("7"));
}

#[test]
fn no_leading_dot_numbers() {
    // ".5" is a Dot token followed by the number 5.
    assert_eq!(
        kinds_of(".5"),
        vec![TokenType::Dot, TokenType::Number, TokenType::Eof]
    );
}

#[test]
fn trailing_dot_is_not_part_of_a_number() {
    let mut s = Scanner::new("1.");
    let t = s.scan_token();
    assert_eq!(t.kind, TokenType::Number);
    assert_eq!(t.lexeme, chars("1"));
    assert_eq!(s.scan_token().kind, TokenType::Dot);
}

#[test]
fn keywords_are_classified_exactly() {
    let source = "and class else false for fun if nil or print return super this true var while";
    assert_eq!(
        kinds_of(source),
        vec![
            TokenType::And,
            TokenType::Class,
            TokenType::Else,
            TokenType::False,
            TokenType::For,
            TokenType::Fun,
            TokenType::If,
            TokenType::Nil,
            TokenType::Or,
            TokenType::Print,
            TokenType::Return,
            TokenType::Super,
            TokenType::This,
            TokenType::True,
            TokenType::Var,
            TokenType::While,
            TokenType::Eof,
        ]
    );
}

#[test]
fn identifiers_by_maximal_munch() {
    let mut s = Scanner::new("andy _x a1b2");
    let t = s.scan_token();
    assert_eq!(t.kind, TokenType::Identifier);
    assert_eq!(t.lexeme, chars("andy"));
    let t = s.scan_token();
    assert_eq!(t.kind, TokenType::Identifier);
    assert_eq!(t.lexeme, chars("_x"));
    let t = s.scan_token();
    assert_eq!(t.kind, TokenType::Identifier);
    assert_eq!(t.lexeme, chars("a1b2"));
}

#[test]
fn string_lexeme_drops_the_quotes() {
    let mut s = Scanner::new("\"hi there\"");
    let t = s.scan_token();
    assert_eq!(t.kind, TokenType::String);
    assert_eq!(t.lexeme, chars("hi there"));
}

#[test]
fn newline_inside_string_counts_lines() {
    let mut s = Scanner::new("\"a\nb\" 1");
    let t = s.scan_token();
    assert_eq!(t.kind, TokenType::String);
    assert_eq!(t.line, 2);
    let t = s.scan_token();
    assert_eq!(t.kind, TokenType::Number);
    assert_eq!(t.line, 2);
}

#[test]
fn unterminated_string_yields_error_token() {
    let mut s = Scanner::new("\"abc");
    let t = s.scan_token();
    assert_eq!(t.kind, TokenType::Error);
    assert_eq!(t.lexeme, chars("Unterminated string."));
}

#[test]
fn unexpected_character_yields_error_token() {
    let mut s = Scanner::new("@");
    let t = s.scan_token();
    assert_eq!(t.kind, TokenType::Error);
    assert_eq!(t.lexeme, chars("Unexpected character."));
}

#[test]
fn comments_run_to_end_of_line() {
    let mut s = Scanner::new("// all comment\n42");
    let t = s.scan_token();
    assert_eq!(t.kind, TokenType::Number);
    assert_eq!(t.line, 2);
}

#[test]
fn newlines_increment_the_line_counter() {
    let mut s = Scanner::new("1\n2\n\n3");
    assert_eq!(s.scan_token().line, 1);
    assert_eq!(s.scan_token().line, 2);
    assert_eq!(s.scan_token().line, 4);
}

#[test]
fn eof_repeats_forever() {
    let mut s = Scanner::new("1");
    assert_eq!(s.scan_token().kind, TokenType::Number);
    assert_eq!(s.scan_token().kind, TokenType::Eof);
    assert_eq!(s.scan_token().kind, TokenType::Eof);
    assert_eq!(s.scan_token().kind, TokenType::Eof);
}
