//! The lexer: turns source text into a finite, non-restartable sequence of
//! tokens, one per `scan_token` call.
//!
//! The lexical grammar is written down once, as the specification-level
//! tokenizer `spec_scan`; the executable scanner is proved to return exactly
//! the token that `spec_scan` assigns to its current position.

use vstd::prelude::*;
use vstd::slice::slice_to_vec;

use crate::token_type::TokenType;

verus! {

/// An ASCII decimal digit.
pub open spec fn is_digit_char(c: char) -> bool {
    '0' as u32 <= c as u32 && c as u32 <= '9' as u32
}

/// An ASCII letter or underscore, the characters that may open an identifier.
pub open spec fn is_alpha_char(c: char) -> bool {
    ||| 'a' as u32 <= c as u32 && c as u32 <= 'z' as u32
    ||| 'A' as u32 <= c as u32 && c as u32 <= 'Z' as u32
    ||| c == '_'
}

/// Where whitespace skipping ends: the position and line reached from
/// `(pos, line)` after consuming blanks, tabs, carriage returns, newlines and
/// `//` comments. `in_comment` tells whether the scan stands inside a `//`
/// comment, which runs to the end of the line.
pub open spec fn skip_ws(src: Seq<char>, pos: int, line: int, in_comment: bool) -> (int, int)
    decreases src.len() - pos,
{
    if pos < 0 || pos >= src.len() {
        (pos, line)
    } else if in_comment {
        if src[pos] == '\n' {
            skip_ws(src, pos + 1, line + 1, false)
        } else {
            skip_ws(src, pos + 1, line, true)
        }
    } else {
        if src[pos] == ' ' || src[pos] == '\r' || src[pos] == '\t' {
            skip_ws(src, pos + 1, line, false)
        } else if src[pos] == '\n' {
            skip_ws(src, pos + 1, line + 1, false)
        } else if src[pos] == '/' && pos + 1 < src.len() && src[pos + 1] == '/' {
            skip_ws(src, pos + 2, line, true)
        } else {
            (pos, line)
        }
    }
}

/// The end of a maximal run of digits starting at `pos`.
pub open spec fn digits_end(src: Seq<char>, pos: int) -> int
    decreases src.len() - pos,
{
    if 0 <= pos < src.len() && is_digit_char(src[pos]) {
        digits_end(src, pos + 1)
    } else {
        pos
    }
}

/// The end of a numeric literal starting at `pos`: digits, then optionally a
/// single `.` followed by at least one digit (no exponents, no leading `.`).
pub open spec fn number_end(src: Seq<char>, pos: int) -> int {
    let d = digits_end(src, pos);
    if d < src.len() && src[d] == '.' && d + 1 < src.len() && is_digit_char(src[d + 1]) {
        digits_end(src, d + 1)
    } else {
        d
    }
}

/// Scanning a string literal from just after the opening quote: the position
/// just past the closing quote, the line after counting newlines inside the
/// literal, and whether a closing quote was found at all.
pub open spec fn string_scan(src: Seq<char>, pos: int, line: int) -> (int, int, bool)
    decreases src.len() - pos,
{
    if pos < 0 || pos >= src.len() {
        (pos, line, false)
    } else if src[pos] == '"' {
        (pos + 1, line, true)
    } else if src[pos] == '\n' {
        string_scan(src, pos + 1, line + 1)
    } else {
        string_scan(src, pos + 1, line)
    }
}

/// The end of a maximal run of identifier characters (letters, digits,
/// underscores) starting at `pos`.
pub open spec fn ident_end(src: Seq<char>, pos: int) -> int
    decreases src.len() - pos,
{
    if 0 <= pos < src.len() && (is_alpha_char(src[pos]) || is_digit_char(src[pos])) {
        ident_end(src, pos + 1)
    } else {
        pos
    }
}

/// Classification of an identifier lexeme against the fixed keyword table:
/// an exact match gives the keyword's kind, anything else is `Identifier`.
pub open spec fn keyword_or_ident(lex: Seq<char>) -> TokenType {
    if lex == "and"@ {
        TokenType::And
    } else if lex == "class"@ {
        TokenType::Class
    } else if lex == "else"@ {
        TokenType::Else
    } else if lex == "false"@ {
        TokenType::False
    } else if lex == "for"@ {
        TokenType::For
    } else if lex == "fun"@ {
        TokenType::Fun
    } else if lex == "if"@ {
        TokenType::If
    } else if lex == "nil"@ {
        TokenType::Nil
    } else if lex == "or"@ {
        TokenType::Or
    } else if lex == "print"@ {
        TokenType::Print
    } else if lex == "return"@ {
        TokenType::Return
    } else if lex == "super"@ {
        TokenType::Super
    } else if lex == "this"@ {
        TokenType::This
    } else if lex == "true"@ {
        TokenType::True
    } else if lex == "var"@ {
        TokenType::Var
    } else if lex == "while"@ {
        TokenType::While
    } else {
        TokenType::Identifier
    }
}

/// The kind of a token made of exactly one character, for the characters
/// that form one on their own.
pub open spec fn single_char_kind(c: char) -> Option<TokenType> {
    if c == '(' {
        Some(TokenType::LeftParen)
    } else if c == ')' {
        Some(TokenType::RightParen)
    } else if c == '{' {
        Some(TokenType::LeftBrace)
    } else if c == '}' {
        Some(TokenType::RightBrace)
    } else if c == ',' {
        Some(TokenType::Comma)
    } else if c == '.' {
        Some(TokenType::Dot)
    } else if c == '-' {
        Some(TokenType::Minus)
    } else if c == '+' {
        Some(TokenType::Plus)
    } else if c == ';' {
        Some(TokenType::Semicolon)
    } else if c == '*' {
        Some(TokenType::Star)
    } else if c == '/' {
        Some(TokenType::Slash)
    } else {
        None
    }
}

/// For `! = < >`: the one-character kind and the two-character kind taken
/// when a `=` follows.
pub open spec fn maybe_equal_kinds(c: char) -> Option<(TokenType, TokenType)> {
    if c == '!' {
        Some((TokenType::Bang, TokenType::BangEqual))
    } else if c == '=' {
        Some((TokenType::Equal, TokenType::EqualEqual))
    } else if c == '<' {
        Some((TokenType::Less, TokenType::LessEqual))
    } else if c == '>' {
        Some((TokenType::Greater, TokenType::GreaterEqual))
    } else {
        None
    }
}

/// What one `scan_token` call yields: the token's parts and the scanner
/// position and line after it.
pub ghost struct SpecToken {
    /// The token's kind.
    pub kind: TokenType,
    /// The token's text: a slice of the source, except that an `Error`
    /// token's lexeme is its diagnostic message.
    pub lexeme: Seq<char>,
    /// The line the token is reported on.
    pub line: int,
    /// The scanner position after the token.
    pub end_pos: int,
    /// The scanner line after the token.
    pub end_line: int,
}

/// The specification-level tokenizer: the token found at `(pos, line)`,
/// after whitespace and comments. The executable `Scanner::scan_token`
/// returns exactly this.
pub open spec fn spec_scan(src: Seq<char>, pos: int, line: int) -> SpecToken {
    let (p, l) = skip_ws(src, pos, line, false);
    if p >= src.len() {
        SpecToken {
            kind: TokenType::Eof,
            lexeme: Seq::empty(),
            line: l,
            end_pos: p,
            end_line: l,
        }
    } else if is_digit_char(src[p]) {
        let e = number_end(src, p);
        SpecToken {
            kind: TokenType::Number,
            lexeme: src.subrange(p, e),
            line: l,
            end_pos: e,
            end_line: l,
        }
    } else if single_char_kind(src[p]) is Some {
        SpecToken {
            kind: single_char_kind(src[p])->0,
            lexeme: src.subrange(p, p + 1),
            line: l,
            end_pos: p + 1,
            end_line: l,
        }
    } else if maybe_equal_kinds(src[p]) is Some {
        let kinds = maybe_equal_kinds(src[p])->0;
        if p + 1 < src.len() && src[p + 1] == '=' {
            SpecToken {
                kind: kinds.1,
                lexeme: src.subrange(p, p + 2),
                line: l,
                end_pos: p + 2,
                end_line: l,
            }
        } else {
            SpecToken {
                kind: kinds.0,
                lexeme: src.subrange(p, p + 1),
                line: l,
                end_pos: p + 1,
                end_line: l,
            }
        }
    } else if src[p] == '"' {
        let (e, l2, terminated) = string_scan(src, p + 1, l);
        if terminated {
            SpecToken {
                kind: TokenType::String,
                lexeme: src.subrange(p + 1, e - 1),
                line: l2,
                end_pos: e,
                end_line: l2,
            }
        } else {
            SpecToken {
                kind: TokenType::Error,
                lexeme: "Unterminated string."@,
                line: l2,
                end_pos: e,
                end_line: l2,
            }
        }
    } else if is_alpha_char(src[p]) {
        let e = ident_end(src, p + 1);
        SpecToken {
            kind: keyword_or_ident(src.subrange(p, e)),
            lexeme: src.subrange(p, e),
            line: l,
            end_pos: e,
            end_line: l,
        }
    } else {
        SpecToken {
            kind: TokenType::Error,
            lexeme: "Unexpected character."@,
            line: l,
            end_pos: p + 1,
            end_line: l,
        }
    }
}

/// Whitespace skipping stays inside the source and never moves backwards.
pub proof fn lemma_skip_ws_bounds(src: Seq<char>, pos: int, line: int, in_comment: bool)
    requires
        0 <= pos <= src.len(),
    ensures
        pos <= skip_ws(src, pos, line, in_comment).0 <= src.len(),
    decreases src.len() - pos,
{
    if pos < src.len() {
        if in_comment {
            if src[pos] == '\n' {
                lemma_skip_ws_bounds(src, pos + 1, line + 1, false);
            } else {
                lemma_skip_ws_bounds(src, pos + 1, line, true);
            }
        } else {
            if src[pos] == ' ' || src[pos] == '\r' || src[pos] == '\t' {
                lemma_skip_ws_bounds(src, pos + 1, line, false);
            } else if src[pos] == '\n' {
                lemma_skip_ws_bounds(src, pos + 1, line + 1, false);
            } else if src[pos] == '/' && pos + 1 < src.len() && src[pos + 1] == '/' {
                lemma_skip_ws_bounds(src, pos + 2, line, true);
            }
        }
    }
}

/// A digit run stays inside the source and never moves backwards.
pub proof fn lemma_digits_end_bounds(src: Seq<char>, pos: int)
    requires
        0 <= pos <= src.len(),
    ensures
        pos <= digits_end(src, pos) <= src.len(),
    decreases src.len() - pos,
{
    if pos < src.len() && is_digit_char(src[pos]) {
        lemma_digits_end_bounds(src, pos + 1);
    }
}

/// A numeric literal stays inside the source and consumes its leading digit.
pub proof fn lemma_number_end_bounds(src: Seq<char>, pos: int)
    requires
        0 <= pos < src.len(),
        is_digit_char(src[pos]),
    ensures
        pos < number_end(src, pos) <= src.len(),
{
    lemma_digits_end_bounds(src, pos);
    assert(digits_end(src, pos) == digits_end(src, pos + 1));
    lemma_digits_end_bounds(src, pos + 1);
    let d = digits_end(src, pos);
    if d < src.len() && src[d] == '.' && d + 1 < src.len() && is_digit_char(src[d + 1]) {
        lemma_digits_end_bounds(src, d + 1);
    }
}

/// A string-literal scan stays inside the source and consumes at least the
/// character it starts on.
pub proof fn lemma_string_scan_bounds(src: Seq<char>, pos: int, line: int)
    requires
        0 <= pos <= src.len(),
    ensures
        pos <= string_scan(src, pos, line).0 <= src.len(),
    decreases src.len() - pos,
{
    if pos < src.len() && src[pos] != '"' {
        if src[pos] == '\n' {
            lemma_string_scan_bounds(src, pos + 1, line + 1);
        } else {
            lemma_string_scan_bounds(src, pos + 1, line);
        }
    }
}

/// An identifier run stays inside the source and never moves backwards.
pub proof fn lemma_ident_end_bounds(src: Seq<char>, pos: int)
    requires
        0 <= pos <= src.len(),
    ensures
        pos <= ident_end(src, pos) <= src.len(),
    decreases src.len() - pos,
{
    if pos < src.len() && (is_alpha_char(src[pos]) || is_digit_char(src[pos])) {
        lemma_ident_end_bounds(src, pos + 1);
    }
}

/// The specification tokenizer makes progress: it never moves backwards or
/// past the end, a real token consumes at least one character, and `Eof`
/// means the whole input is behind.
pub proof fn lemma_spec_scan_progress(src: Seq<char>, pos: int, line: int)
    requires
        0 <= pos <= src.len(),
    ensures
        ({
            let t = spec_scan(src, pos, line);
            &&& pos <= t.end_pos <= src.len()
            &&& (t.kind != TokenType::Eof ==> t.end_pos > pos)
            &&& (t.kind == TokenType::Eof ==> t.end_pos == src.len())
        }),
{
    lemma_skip_ws_bounds(src, pos, line, false);
    let (p, l) = skip_ws(src, pos, line, false);
    if p < src.len() {
        if is_digit_char(src[p]) {
            lemma_number_end_bounds(src, p);
        } else if src[p] == '"' {
            lemma_string_scan_bounds(src, p + 1, l);
        } else if single_char_kind(src[p]) is None && maybe_equal_kinds(src[p]) is None
            && is_alpha_char(src[p]) {
            lemma_ident_end_bounds(src, p + 1);
        }
    }
}

/// One token: its kind, its text, and the 1-based line it was found on.
/// For an `Error` token the lexeme IS the diagnostic message, not source
/// text. Immutable once produced.
#[derive(Debug, Clone, PartialEq)]
pub struct Token {
    /// The token's kind.
    pub kind: TokenType,
    /// The token's text (or, for `Error`, its message).
    pub lexeme: Vec<char>,
    /// The 1-based source line.
    pub line: usize,
}

impl Token {
    /// A field-for-field copy with a known contract (the derived clone says
    /// nothing about the copied lexeme).
    pub fn duplicate(&self) -> (r: Token)
        ensures
            r.kind == self.kind,
            r.lexeme@ == self.lexeme@,
            r.line == self.line,
    {
        Token { kind: self.kind, lexeme: slice_to_vec(self.lexeme.as_slice()), line: self.line }
    }
}

/// Builds the character sequence of a string slice.
pub fn str_chars(s: &str) -> (r: Vec<char>)
    ensures
        r@ == s@,
{
    let n = s.unicode_len();
    let mut chars: Vec<char> = Vec::new();
    let mut i: usize = 0;
    while i < n
        invariant
            i <= n,
            n == s@.len(),
            chars@ == s@.subrange(0, i as int),
        decreases n - i,
    {
        chars.push(s.get_char(i));
        proof {
            assert(chars@ =~= s@.subrange(0, i + 1));
        }
        i = i + 1;
    }
    proof {
        assert(chars@ =~= s@);
    }
    chars
}

/// Whether a character sequence equals the view of a string slice.
fn chars_eq_str(v: &Vec<char>, s: &str) -> (r: bool)
    ensures
        r == (v@ == s@),
{
    let n = s.unicode_len();
    if v.len() != n {
        return false;
    }
    let mut i: usize = 0;
    while i < n
        invariant
            i <= n,
            n == s@.len(),
            v@.len() == n,
            forall|j: int| 0 <= j < i ==> v@[j] == s@[j],
        decreases n - i,
    {
        if v[i] != s.get_char(i) {
            return false;
        }
        i = i + 1;
    }
    proof {
        assert(v@ =~= s@);
    }
    true
}

/// The lexer state: the source as characters, the start of the token being
/// scanned, the current position, and the current 1-based line.
pub struct Scanner {
    /// The source text, consumed positionally.
    pub source: Vec<char>,
    /// Where the token being scanned starts.
    pub start: usize,
    /// The next character to look at.
    pub current: usize,
    /// The current line, counted from 1.
    pub line: usize,
}

impl Scanner {
    /// Well-formedness: the positions stay inside the source, and the line
    /// counter (which grows by at most one per consumed character) can never
    /// wrap.
    pub open spec fn wf(self) -> bool {
        &&& self.current <= self.source@.len()
        &&& self.start <= self.source@.len()
        &&& self.source@.len() < usize::MAX
        &&& 1 <= self.line
        &&& self.line + self.source@.len() - self.current <= usize::MAX
    }

    /// A scanner at the start of `source`, on line 1.
    pub fn new(source: &str) -> (r: Scanner)
        requires
            source@.len() < usize::MAX,
        ensures
            r.source@ == source@,
            r.start == 0,
            r.current == 0,
            r.line == 1,
            r.wf(),
    {
        let chars = str_chars(source);
        Scanner { source: chars, start: 0, current: 0, line: 1 }
    }

    /// Whether the whole input has been consumed.
    fn is_at_end(&self) -> (r: bool)
        ensures
            r == (self.current >= self.source@.len()),
    {
        self.current >= self.source.len()
    }

    /// The character at the current position.
    fn peek(&self) -> (c: char)
        requires
            self.current < self.source@.len(),
        ensures
            c == self.source@[self.current as int],
    {
        self.source[self.current]
    }

    /// The character one past the current position, or `'\0'` at the end.
    fn peek_next(&self) -> (c: char)
        requires
            self.wf(),
        ensures
            self.current + 1 < self.source@.len() ==> c == self.source@[self.current as int + 1],
            self.current + 1 >= self.source@.len() ==> c == '\0',
    {
        if self.current + 1 >= self.source.len() {
            '\0'
        } else {
            self.source[self.current + 1]
        }
    }

    /// Consumes and returns the current character.
    fn advance(&mut self) -> (c: char)
        requires
            old(self).wf(),
            old(self).current < old(self).source@.len(),
        ensures
            final(self).wf(),
            c == old(self).source@[old(self).current as int],
            final(self).current == old(self).current + 1,
            final(self).source@ == old(self).source@,
            final(self).start == old(self).start,
            final(self).line == old(self).line,
    {
        let c = self.source[self.current];
        self.current = self.current + 1;
        c
    }

    /// Consumes the current character only if it equals `expected`.
    fn match_char(&mut self, expected: char) -> (r: bool)
        requires
            old(self).wf(),
        ensures
            final(self).wf(),
            final(self).source@ == old(self).source@,
            final(self).start == old(self).start,
            final(self).line == old(self).line,
            r == (old(self).current < old(self).source@.len() && old(self).source@[old(
                self,
            ).current as int] == expected),
            r ==> final(self).current == old(self).current + 1,
            !r ==> final(self).current == old(self).current,
    {
        if self.is_at_end() {
            return false;
        }
        let c = self.source[self.current];
        if c == expected {
            self.current = self.current + 1;
            true
        } else {
            false
        }
    }

    /// An ASCII decimal digit.
    fn is_digit(c: char) -> (r: bool)
        ensures
            r == is_digit_char(c),
    {
        '0' as u32 <= c as u32 && c as u32 <= '9' as u32
    }

    /// An ASCII letter or underscore.
    fn is_alpha(c: char) -> (r: bool)
        ensures
            r == is_alpha_char(c),
    {
        ('a' as u32 <= c as u32 && c as u32 <= 'z' as u32) || ('A' as u32 <= c as u32 && c as u32
            <= 'Z' as u32) || c == '_'
    }

    /// A copy of `source[from..to]`.
    fn copy_range(&self, from: usize, to: usize) -> (r: Vec<char>)
        requires
            from <= to <= self.source@.len(),
        ensures
            r@ == self.source@.subrange(from as int, to as int),
    {
        let mut out: Vec<char> = Vec::new();
        let mut i: usize = from;
        while i < to
            invariant
                from <= i <= to <= self.source@.len(),
                out@ == self.source@.subrange(from as int, i as int),
            decreases to - i,
        {
            out.push(self.source[i]);
            proof {
                assert(out@ =~= self.source@.subrange(from as int, i + 1));
            }
            i = i + 1;
        }
        out
    }

    /// A token spanning `start..current`, on the current line.
    fn make_token(&self, kind: TokenType) -> (t: Token)
        requires
            self.start <= self.current <= self.source@.len(),
        ensures
            t.kind == kind,
            t.lexeme@ == self.source@.subrange(self.start as int, self.current as int),
            t.line == self.line,
    {
        Token {
            kind,
            lexeme: self.copy_range(self.start, self.current),
            line: self.line,
        }
    }

    /// A token carrying the given lexeme, on the current line.
    fn make_token_with_lexeme(&self, kind: TokenType, lexeme: Vec<char>) -> (t: Token)
        ensures
            t.kind == kind,
            t.lexeme@ == lexeme@,
            t.line == self.line,
    {
        Token { kind, lexeme, line: self.line }
    }

    /// An `Error` token whose lexeme is the diagnostic message.
    fn error_token(&self, message: &str) -> (t: Token)
        ensures
            t.kind == TokenType::Error,
            t.lexeme@ == message@,
            t.line == self.line,
    {
        Token { kind: TokenType::Error, lexeme: str_chars(message), line: self.line }
    }

    /// Skips blanks, tabs, carriage returns, newlines (counting lines) and
    /// `//` comments, landing exactly where the specification says.
    fn skip_whitespace(&mut self)
        requires
            old(self).wf(),
        ensures
            final(self).wf(),
            final(self).source@ == old(self).source@,
            final(self).start == old(self).start,
            (final(self).current as int, final(self).line as int) == skip_ws(
                old(self).source@,
                old(self).current as int,
                old(self).line as int,
                false,
            ),
            old(self).current <= final(self).current,
        decreases old(self).source@.len() - old(self).current,
    {
        loop
            invariant
                self.wf(),
                self.source@ == old(self).source@,
                self.start == old(self).start,
                old(self).current <= self.current,
                skip_ws(self.source@, self.current as int, self.line as int, false) == skip_ws(
                    old(self).source@,
                    old(self).current as int,
                    old(self).line as int,
                    false,
                ),
            decreases self.source@.len() - self.current,
        {
            if self.is_at_end() {
                return;
            }
            let ghost iter_cur = self.current as int;
            let c = self.peek();
            if c == ' ' || c == '\r' || c == '\t' {
                self.current = self.current + 1;
            } else if c == '\n' {
                self.line = self.line + 1;
                self.current = self.current + 1;
            } else if c == '/' {
                if self.peek_next() == '/' {
                    self.current = self.current + 2;
                    while !self.is_at_end() && self.peek() != '\n'
                        invariant
                            self.wf(),
                            self.source@ == old(self).source@,
                            self.start == old(self).start,
                            old(self).current <= self.current,
                            iter_cur < self.current as int,
                            skip_ws(self.source@, self.current as int, self.line as int, true)
                                == skip_ws(
                                old(self).source@,
                                old(self).current as int,
                                old(self).line as int,
                                false,
                            ),
                        decreases self.source@.len() - self.current,
                    {
                        self.current = self.current + 1;
                    }
                    proof {
                        assert(skip_ws(self.source@, self.current as int, self.line as int, false)
                            == skip_ws(self.source@, self.current as int, self.line as int, true));
                    }
                } else {
                    return;
                }
            } else {
                return;
            }
        }
    }

    /// Scans a numeric literal: digits, then optionally `.` and more digits.
    /// Called with the leading digit still unconsumed.
    fn number(&mut self) -> (t: Token)
        requires
            old(self).wf(),
            old(self).start == old(self).current,
            old(self).current < old(self).source@.len(),
            is_digit_char(old(self).source@[old(self).current as int]),
        ensures
            final(self).wf(),
            final(self).source@ == old(self).source@,
            final(self).start == old(self).start,
            final(self).line == old(self).line,
            final(self).current as int == number_end(old(self).source@, old(self).current as int),
            old(self).current < final(self).current,
            t.kind == TokenType::Number,
            t.lexeme@ == old(self).source@.subrange(
                old(self).current as int,
                number_end(old(self).source@, old(self).current as int),
            ),
            t.line == old(self).line,
    {
        let ghost p = self.current as int;
        while !self.is_at_end() && Self::is_digit(self.peek())
            invariant
                self.wf(),
                self.source@ == old(self).source@,
                self.start == old(self).start,
                self.line == old(self).line,
                old(self).current <= self.current,
                digits_end(self.source@, p) == digits_end(self.source@, self.current as int),
            decreases self.source@.len() - self.current,
        {
            self.current = self.current + 1;
        }
        proof {
            assert(digits_end(self.source@, self.current as int) == self.current as int);
        }
        if !self.is_at_end() && self.peek() == '.' && Self::is_digit(self.peek_next()) {
            self.current = self.current + 1;
            let ghost d1 = self.current as int;
            while !self.is_at_end() && Self::is_digit(self.peek())
                invariant
                    self.wf(),
                    self.source@ == old(self).source@,
                    self.start == old(self).start,
                    self.line == old(self).line,
                    d1 <= self.current,
                    digits_end(self.source@, d1) == digits_end(self.source@, self.current as int),
                decreases self.source@.len() - self.current,
            {
                self.current = self.current + 1;
            }
            proof {
                assert(digits_end(self.source@, self.current as int) == self.current as int);
            }
        }
        let lexeme = self.copy_range(self.start, self.current);
        self.make_token_with_lexeme(TokenType::Number, lexeme)
    }

    /// Scans a string literal, called with the opening quote just consumed;
    /// newlines inside the literal advance the line counter, and reaching the
    /// end of input first yields the unterminated-string error token.
    fn string(&mut self) -> (t: Token)
        requires
            old(self).wf(),
            old(self).start + 1 == old(self).current,
        ensures
            final(self).wf(),
            final(self).source@ == old(self).source@,
            final(self).start == old(self).start,
            ({
                let (e, l2, terminated) = string_scan(
                    old(self).source@,
                    old(self).current as int,
                    old(self).line as int,
                );
                &&& final(self).current as int == e
                &&& final(self).line as int == l2
                &&& t.line as int == l2
                &&& (if terminated {
                    t.kind == TokenType::String && t.lexeme@ == old(self).source@.subrange(
                        old(self).current as int,
                        e - 1,
                    )
                } else {
                    t.kind == TokenType::Error && t.lexeme@ == "Unterminated string."@
                })
            }),
            old(self).current <= final(self).current,
    {
        while !self.is_at_end() && self.peek() != '"'
            invariant
                self.wf(),
                self.source@ == old(self).source@,
                self.start == old(self).start,
                old(self).current <= self.current,
                string_scan(self.source@, self.current as int, self.line as int) == string_scan(
                    old(self).source@,
                    old(self).current as int,
                    old(self).line as int,
                ),
            decreases self.source@.len() - self.current,
        {
            if self.peek() == '\n' {
                self.line = self.line + 1;
            }
            self.current = self.current + 1;
        }
        if self.is_at_end() {
            return self.error_token("Unterminated string.");
        }
        self.current = self.current + 1;
        let lexeme = self.copy_range(self.start + 1, self.current - 1);
        self.make_token_with_lexeme(TokenType::String, lexeme)
    }

    /// Scans an identifier by maximal munch, called with its first character
    /// just consumed, and classifies it against the keyword table.
    fn identifier(&mut self) -> (t: Token)
        requires
            old(self).wf(),
            old(self).start + 1 == old(self).current,
        ensures
            final(self).wf(),
            final(self).source@ == old(self).source@,
            final(self).start == old(self).start,
            final(self).line == old(self).line,
            final(self).current as int == ident_end(old(self).source@, old(self).current as int),
            old(self).current <= final(self).current,
            t.kind == keyword_or_ident(
                old(self).source@.subrange(
                    old(self).start as int,
                    ident_end(old(self).source@, old(self).current as int),
                ),
            ),
            t.lexeme@ == old(self).source@.subrange(
                old(self).start as int,
                ident_end(old(self).source@, old(self).current as int),
            ),
            t.line == old(self).line,
    {
        while !self.is_at_end() && (Self::is_alpha(self.peek()) || Self::is_digit(self.peek()))
            invariant
                self.wf(),
                self.source@ == old(self).source@,
                self.start == old(self).start,
                self.line == old(self).line,
                old(self).current <= self.current,
                ident_end(self.source@, old(self).current as int) == ident_end(
                    self.source@,
                    self.current as int,
                ),
            decreases self.source@.len() - self.current,
        {
            self.current = self.current + 1;
        }
        proof {
            assert(ident_end(self.source@, self.current as int) == self.current as int);
        }
        let lexeme = self.copy_range(self.start, self.current);
        let kind = if chars_eq_str(&lexeme, "and") {
            TokenType::And
        } else if chars_eq_str(&lexeme, "class") {
            TokenType::Class
        } else if chars_eq_str(&lexeme, "else") {
            TokenType::Else
        } else if chars_eq_str(&lexeme, "false") {
            TokenType::False
        } else if chars_eq_str(&lexeme, "for") {
            TokenType::For
        } else if chars_eq_str(&lexeme, "fun") {
            TokenType::Fun
        } else if chars_eq_str(&lexeme, "if") {
            TokenType::If
        } else if chars_eq_str(&lexeme, "nil") {
            TokenType::Nil
        } else if chars_eq_str(&lexeme, "or") {
            TokenType::Or
        } else if chars_eq_str(&lexeme, "print") {
            TokenType::Print
        } else if chars_eq_str(&lexeme, "return") {
            TokenType::Return
        } else if chars_eq_str(&lexeme, "super") {
            TokenType::Super
        } else if chars_eq_str(&lexeme, "this") {
            TokenType::This
        } else if chars_eq_str(&lexeme, "true") {
            TokenType::True
        } else if chars_eq_str(&lexeme, "var") {
            TokenType::Var
        } else if chars_eq_str(&lexeme, "while") {
            TokenType::While
        } else {
            TokenType::Identifier
        };
        self.make_token_with_lexeme(kind, lexeme)
    }

    /// Returns the next token, consuming input positionally: exactly the
    /// token the specification tokenizer assigns to the current position. At
    /// the end of input it returns `Eof` over and over.
    pub fn scan_token(&mut self) -> (t: Token)
        requires
            old(self).wf(),
        ensures
            final(self).wf(),
            final(self).source@ == old(self).source@,
            ({
                let s = spec_scan(old(self).source@, old(self).current as int, old(self).line as int);
                &&& t.kind == s.kind
                &&& t.lexeme@ == s.lexeme
                &&& t.line as int == s.line
                &&& final(self).current as int == s.end_pos
                &&& final(self).line as int == s.end_line
            }),
            old(self).current <= final(self).current,
            t.kind != TokenType::Eof ==> old(self).current < final(self).current,
            t.kind == TokenType::Eof ==> final(self).current == final(self).source@.len(),
    {
        self.skip_whitespace();
        self.start = self.current;
        if self.is_at_end() {
            let t = self.make_token(TokenType::Eof);
            proof {
                assert(t.lexeme@ =~= Seq::<char>::empty());
            }
            return t;
        }
        if Self::is_digit(self.peek()) {
            return self.number();
        }
        let c = self.advance();
        if c == '(' {
            self.make_token(TokenType::LeftParen)
        } else if c == ')' {
            self.make_token(TokenType::RightParen)
        } else if c == '{' {
            self.make_token(TokenType::LeftBrace)
        } else if c == '}' {
            self.make_token(TokenType::RightBrace)
        } else if c == ',' {
            self.make_token(TokenType::Comma)
        } else if c == '.' {
            self.make_token(TokenType::Dot)
        } else if c == '-' {
            self.make_token(TokenType::Minus)
        } else if c == '+' {
            self.make_token(TokenType::Plus)
        } else if c == ';' {
            self.make_token(TokenType::Semicolon)
        } else if c == '*' {
            self.make_token(TokenType::Star)
        } else if c == '/' {
            self.make_token(TokenType::Slash)
        } else if c == '!' {
            if self.match_char('=') {
                self.make_token(TokenType::BangEqual)
            } else {
                self.make_token(TokenType::Bang)
            }
        } else if c == '=' {
            if self.match_char('=') {
                self.make_token(TokenType::EqualEqual)
            } else {
                self.make_token(TokenType::Equal)
            }
        } else if c == '<' {
            if self.match_char('=') {
                self.make_token(TokenType::LessEqual)
            } else {
                self.make_token(TokenType::Less)
            }
        } else if c == '>' {
            if self.match_char('=') {
                self.make_token(TokenType::GreaterEqual)
            } else {
                self.make_token(TokenType::Greater)
            }
        } else if c == '"' {
            self.string()
        } else if Self::is_alpha(c) {
            self.identifier()
        } else {
            self.error_token("Unexpected character.")
        }
    }
}

} // verus!
