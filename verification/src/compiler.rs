//! The single-pass Pratt compiler: consumes tokens from the lexer, drives
//! precedence climbing through a fixed rule table, and emits bytecode
//! directly into a chunk — no intermediate syntax tree.

use vstd::prelude::*;
use vstd::slice::slice_to_vec;

use crate::chunk::{Chunk, OpCode, op_in_bounds};
use crate::scanner::{Scanner, Token, digits_end, is_digit_char, str_chars};
use crate::token_type::TokenType;
use crate::value::{Rational, Value, fits_i64, rat_wf, value_wf};

verus! {

/// Binding precedence, from loosest to tightest. A higher rank binds
/// tighter.
#[derive(Clone, Copy, Debug, PartialEq, Eq, Structural, PartialOrd, Ord)]
pub enum Precedence {
    Lowest,
    Assignment,
    Or,
    And,
    Equality,
    Comparison,
    Term,
    Factor,
    Unary,
    Call,
    Primary,
}

/// The numeric rank of a precedence level.
pub open spec fn spec_rank(p: Precedence) -> int {
    match p {
        Precedence::Lowest => 0,
        Precedence::Assignment => 1,
        Precedence::Or => 2,
        Precedence::And => 3,
        Precedence::Equality => 4,
        Precedence::Comparison => 5,
        Precedence::Term => 6,
        Precedence::Factor => 7,
        Precedence::Unary => 8,
        Precedence::Call => 9,
        Precedence::Primary => 10,
    }
}

/// The precedence one level tighter, used to parse a binary operator's right
/// operand so that `+ - * /` associate to the left.
pub open spec fn spec_next_higher(p: Precedence) -> Precedence {
    match p {
        Precedence::Lowest => Precedence::Assignment,
        Precedence::Assignment => Precedence::Or,
        Precedence::Or => Precedence::And,
        Precedence::And => Precedence::Equality,
        Precedence::Equality => Precedence::Comparison,
        Precedence::Comparison => Precedence::Term,
        Precedence::Term => Precedence::Factor,
        Precedence::Factor => Precedence::Unary,
        Precedence::Unary => Precedence::Call,
        Precedence::Call => Precedence::Primary,
        Precedence::Primary => Precedence::Lowest,
    }
}

impl Precedence {
    /// The numeric rank, for comparing binding strengths.
    pub fn rank(self) -> (r: u8)
        ensures
            r as int == spec_rank(self),
    {
        match self {
            Precedence::Lowest => 0,
            Precedence::Assignment => 1,
            Precedence::Or => 2,
            Precedence::And => 3,
            Precedence::Equality => 4,
            Precedence::Comparison => 5,
            Precedence::Term => 6,
            Precedence::Factor => 7,
            Precedence::Unary => 8,
            Precedence::Call => 9,
            Precedence::Primary => 10,
        }
    }

    /// The precedence one level tighter.
    pub fn next_higher(self) -> (r: Precedence)
        ensures
            r == spec_next_higher(self),
    {
        match self {
            Precedence::Lowest => Precedence::Assignment,
            Precedence::Assignment => Precedence::Or,
            Precedence::Or => Precedence::And,
            Precedence::And => Precedence::Equality,
            Precedence::Equality => Precedence::Comparison,
            Precedence::Comparison => Precedence::Term,
            Precedence::Term => Precedence::Factor,
            Precedence::Factor => Precedence::Unary,
            Precedence::Unary => Precedence::Call,
            Precedence::Call => Precedence::Primary,
            Precedence::Primary => Precedence::Lowest,
        }
    }
}

/// The closed set of syntax rules a token can dispatch to, in prefix or
/// infix position. A single dispatcher interprets these tags; there is no
/// indirection through function pointers.
#[derive(Clone, Copy, Debug, PartialEq, Eq, Structural)]
pub enum ParseAct {
    /// A numeric literal.
    Number,
    /// A parenthesised sub-expression.
    Grouping,
    /// A prefix operator.
    Unary,
    /// An infix binary operator.
    Binary,
}

/// One row of the parse rule table: what the token does in prefix position,
/// what it does in infix position, and how tightly it binds as an infix
/// operator.
#[derive(Clone, Copy, Debug, PartialEq, Eq, Structural)]
pub struct ParseRule {
    /// The action when the token opens an expression, if any.
    pub prefix: Option<ParseAct>,
    /// The action when the token joins two expressions, if any.
    pub infix: Option<ParseAct>,
    /// The token's binding precedence as an infix operator.
    pub precedence: Precedence,
}

/// The fixed parse rule table as a total function: one record per token
/// kind, matched exhaustively so the enumeration and the table can never
/// fall out of step.
pub open spec fn spec_get_rule(kind: TokenType) -> ParseRule {
    match kind {
        TokenType::LeftParen => ParseRule {
            prefix: Some(ParseAct::Grouping),
            infix: None,
            precedence: Precedence::Call,
        },
        TokenType::Dot => ParseRule { prefix: None, infix: None, precedence: Precedence::Call },
        TokenType::Minus => ParseRule {
            prefix: Some(ParseAct::Unary),
            infix: Some(ParseAct::Binary),
            precedence: Precedence::Term,
        },
        TokenType::Plus => ParseRule {
            prefix: None,
            infix: Some(ParseAct::Binary),
            precedence: Precedence::Term,
        },
        TokenType::Slash => ParseRule {
            prefix: None,
            infix: Some(ParseAct::Binary),
            precedence: Precedence::Factor,
        },
        TokenType::Star => ParseRule {
            prefix: None,
            infix: Some(ParseAct::Binary),
            precedence: Precedence::Factor,
        },
        TokenType::Bang => ParseRule {
            prefix: Some(ParseAct::Unary),
            infix: None,
            precedence: Precedence::Lowest,
        },
        TokenType::BangEqual => ParseRule {
            prefix: None,
            infix: Some(ParseAct::Binary),
            precedence: Precedence::Equality,
        },
        TokenType::Equal => ParseRule {
            prefix: None,
            infix: None,
            precedence: Precedence::Assignment,
        },
        TokenType::EqualEqual => ParseRule {
            prefix: None,
            infix: Some(ParseAct::Binary),
            precedence: Precedence::Equality,
        },
        TokenType::Greater => ParseRule {
            prefix: None,
            infix: Some(ParseAct::Binary),
            precedence: Precedence::Comparison,
        },
        TokenType::GreaterEqual => ParseRule {
            prefix: None,
            infix: Some(ParseAct::Binary),
            precedence: Precedence::Comparison,
        },
        TokenType::Less => ParseRule {
            prefix: None,
            infix: Some(ParseAct::Binary),
            precedence: Precedence::Comparison,
        },
        TokenType::LessEqual => ParseRule {
            prefix: None,
            infix: Some(ParseAct::Binary),
            precedence: Precedence::Comparison,
        },
        TokenType::Number => ParseRule {
            prefix: Some(ParseAct::Number),
            infix: None,
            precedence: Precedence::Lowest,
        },
        TokenType::And => ParseRule { prefix: None, infix: None, precedence: Precedence::And },
        TokenType::Or => ParseRule { prefix: None, infix: None, precedence: Precedence::Or },
        _ => ParseRule { prefix: None, infix: None, precedence: Precedence::Lowest },
    }
}

/// Looks up the parse rule for a token kind.
pub fn get_rule(kind: TokenType) -> (r: ParseRule)
    ensures
        r == spec_get_rule(kind),
{
    match kind {
        TokenType::LeftParen => ParseRule {
            prefix: Some(ParseAct::Grouping),
            infix: None,
            precedence: Precedence::Call,
        },
        TokenType::Dot => ParseRule { prefix: None, infix: None, precedence: Precedence::Call },
        TokenType::Minus => ParseRule {
            prefix: Some(ParseAct::Unary),
            infix: Some(ParseAct::Binary),
            precedence: Precedence::Term,
        },
        TokenType::Plus => ParseRule {
            prefix: None,
            infix: Some(ParseAct::Binary),
            precedence: Precedence::Term,
        },
        TokenType::Slash => ParseRule {
            prefix: None,
            infix: Some(ParseAct::Binary),
            precedence: Precedence::Factor,
        },
        TokenType::Star => ParseRule {
            prefix: None,
            infix: Some(ParseAct::Binary),
            precedence: Precedence::Factor,
        },
        TokenType::Bang => ParseRule {
            prefix: Some(ParseAct::Unary),
            infix: None,
            precedence: Precedence::Lowest,
        },
        TokenType::BangEqual => ParseRule {
            prefix: None,
            infix: Some(ParseAct::Binary),
            precedence: Precedence::Equality,
        },
        TokenType::Equal => ParseRule {
            prefix: None,
            infix: None,
            precedence: Precedence::Assignment,
        },
        TokenType::EqualEqual => ParseRule {
            prefix: None,
            infix: Some(ParseAct::Binary),
            precedence: Precedence::Equality,
        },
        TokenType::Greater => ParseRule {
            prefix: None,
            infix: Some(ParseAct::Binary),
            precedence: Precedence::Comparison,
        },
        TokenType::GreaterEqual => ParseRule {
            prefix: None,
            infix: Some(ParseAct::Binary),
            precedence: Precedence::Comparison,
        },
        TokenType::Less => ParseRule {
            prefix: None,
            infix: Some(ParseAct::Binary),
            precedence: Precedence::Comparison,
        },
        TokenType::LessEqual => ParseRule {
            prefix: None,
            infix: Some(ParseAct::Binary),
            precedence: Precedence::Comparison,
        },
        TokenType::Number => ParseRule {
            prefix: Some(ParseAct::Number),
            infix: None,
            precedence: Precedence::Lowest,
        },
        TokenType::And => ParseRule { prefix: None, infix: None, precedence: Precedence::And },
        TokenType::Or => ParseRule { prefix: None, infix: None, precedence: Precedence::Or },
        _ => ParseRule { prefix: None, infix: None, precedence: Precedence::Lowest },
    }
}

/// Where a compile-time diagnostic points inside the offending line.
#[derive(Debug, Clone, PartialEq)]
pub enum DiagContext {
    /// At the end of the input.
    AtEnd,
    /// At this lexeme.
    At(Vec<char>),
    /// At a lexical error token, whose message already names the place.
    AtError,
}

/// One compile-time diagnostic, rendered by callers as
/// `[line N] Error< at end | at '<lexeme>'>: <message>`.
#[derive(Debug, Clone, PartialEq)]
pub struct Diagnostic {
    /// The 1-based source line the diagnostic points at.
    pub line: usize,
    /// Where inside the line it points.
    pub context: DiagContext,
    /// The message text.
    pub message: Vec<char>,
}

/// The numeric value of an ASCII digit character.
pub open spec fn digit_val(c: char) -> int {
    c as u32 - '0' as u32
}

/// The integer a digit string denotes, read left to right.
pub open spec fn digits_value(s: Seq<char>) -> int
    decreases s.len(),
{
    if s.len() == 0 {
        0
    } else {
        digits_value(s.drop_last()) * 10 + digit_val(s.last())
    }
}

/// Whether every character of `s` is an ASCII digit.
pub open spec fn all_digits(s: Seq<char>) -> bool {
    forall|i: int| 0 <= i < s.len() ==> is_digit_char(#[trigger] s[i])
}

/// Ten to the `n`.
pub open spec fn pow10(n: nat) -> int
    decreases n,
{
    if n == 0 {
        1
    } else {
        10 * pow10((n - 1) as nat)
    }
}

/// The shape of a numeric literal: at least one digit, then optionally a
/// single `.` followed by at least one digit running to the end.
pub open spec fn number_lexeme_wf(s: Seq<char>) -> bool {
    let d = digits_end(s, 0);
    &&& d > 0
    &&& (d == s.len() || (s[d] == '.' && d + 1 < s.len() && digits_end(s, d + 1) == s.len()))
}

/// The numerator a numeric literal denotes: all its digits read as one
/// integer, the dot (if any) struck out.
pub open spec fn lexeme_num(s: Seq<char>) -> int {
    let d = digits_end(s, 0);
    if d == s.len() {
        digits_value(s)
    } else {
        digits_value(s.subrange(0, d) + s.subrange(d + 1, s.len() as int))
    }
}

/// The denominator: ten to the number of fractional digits.
pub open spec fn lexeme_den(s: Seq<char>) -> int {
    let d = digits_end(s, 0);
    if d == s.len() {
        1
    } else {
        pow10((s.len() - d - 1) as nat)
    }
}

/// Everything between `pos` and where the digit run ends is a digit.
proof fn lemma_digits_end_digits(s: Seq<char>, pos: int)
    requires
        0 <= pos <= s.len(),
    ensures
        pos <= digits_end(s, pos) <= s.len(),
        forall|k: int| pos <= k < digits_end(s, pos) ==> is_digit_char(#[trigger] s[k]),
    decreases s.len() - pos,
{
    if pos < s.len() && is_digit_char(s[pos]) {
        lemma_digits_end_digits(s, pos + 1);
    }
}

/// A digit string's value is never negative.
proof fn lemma_digits_value_nonneg(s: Seq<char>)
    requires
        all_digits(s),
    ensures
        digits_value(s) >= 0,
    decreases s.len(),
{
    if s.len() > 0 {
        assert(all_digits(s.drop_last()));
        lemma_digits_value_nonneg(s.drop_last());
    }
}

/// Appending digits can only grow a digit string's value.
proof fn lemma_digits_value_append(t: Seq<char>, u: Seq<char>)
    requires
        all_digits(t),
        all_digits(u),
    ensures
        digits_value(t + u) >= digits_value(t),
        digits_value(t) >= 0,
    decreases u.len(),
{
    lemma_digits_value_nonneg(t);
    if u.len() == 0 {
        assert(t + u =~= t);
    } else {
        assert(all_digits(u.drop_last()));
        lemma_digits_value_append(t, u.drop_last());
        assert((t + u).drop_last() =~= t + u.drop_last());
        assert(all_digits(t + u.drop_last())) by {
            assert(forall|i: int| 0 <= i < t.len() ==> (t + u.drop_last())[i] == t[i]);
            assert(forall|i: int|
                t.len() <= i < t.len() + u.drop_last().len() ==> (t + u.drop_last())[i]
                    == u.drop_last()[i - t.len()]);
        }
        lemma_digits_value_nonneg(t + u.drop_last());
        assert(digits_value(t + u) == digits_value(t + u.drop_last()) * 10 + digit_val(u.last()));
    }
}

/// Powers of ten are positive and grow with the exponent.
proof fn lemma_pow10_le(m: nat, k: nat)
    requires
        m <= k,
    ensures
        0 < pow10(m) <= pow10(k),
    decreases k,
{
    if k == 0 {
    } else if m == k {
        lemma_pow10_le((m - 1) as nat, (k - 1) as nat);
    } else {
        lemma_pow10_le(m, (k - 1) as nat);
    }
}

/// An ASCII decimal digit.
fn is_digit(c: char) -> (r: bool)
    ensures
        r == is_digit_char(c),
{
    '0' as u32 <= c as u32 && c as u32 <= '9' as u32
}

/// Parses a numeric literal's characters into an exact rational:
/// `num` is the literal's digits read as one integer, `den` is ten to the
/// number of fractional digits. Returns `None` exactly when the characters
/// do not have the literal's shape or the value leaves the machine range.
fn parse_number_chars(s: &Vec<char>) -> (r: Option<Rational>)
    ensures
        r is Some <==> (number_lexeme_wf(s@) && fits_i64(lexeme_num(s@)) && fits_i64(
            lexeme_den(s@),
        )),
        r matches Some(v) ==> v.num as int == lexeme_num(s@) && v.den as int == lexeme_den(s@)
            && rat_wf(v),
{
    let n = s.len();
    let mut i: usize = 0;
    let mut num: i128 = 0;
    while i < n && is_digit(s[i])
        invariant
            0 <= i <= n,
            n == s@.len(),
            all_digits(s@.subrange(0, i as int)),
            digits_end(s@, 0) == digits_end(s@, i as int),
            num == digits_value(s@.subrange(0, i as int)),
            0 <= num <= i64::MAX,
        decreases n - i,
    {
        let dv: i128 = (s[i] as u32 - '0' as u32) as i128;
        let next: i128 = num * 10 + dv;
        proof {
            assert(s@.subrange(0, i + 1).drop_last() =~= s@.subrange(0, i as int));
            assert(digits_value(s@.subrange(0, i + 1)) == num * 10 + digit_val(s@[i as int]));
            assert(all_digits(s@.subrange(0, i + 1)));
        }
        if next > i64::MAX as i128 {
            proof {
                if number_lexeme_wf(s@) {
                    let d = digits_end(s@, 0);
                    lemma_digits_end_digits(s@, 0);
                    assert(digits_end(s@, i as int) == digits_end(s@, i + 1));
                    lemma_digits_end_digits(s@, i + 1);
                    let t = s@.subrange(0, i + 1);
                    if d == s@.len() {
                        let u = s@.subrange(i + 1, n as int);
                        assert(all_digits(u));
                        lemma_digits_value_append(t, u);
                        assert(t + u =~= s@);
                    } else {
                        lemma_digits_end_digits(s@, d + 1);
                        let u = s@.subrange(i + 1, d) + s@.subrange(d + 1, n as int);
                        assert(all_digits(u));
                        lemma_digits_value_append(t, u);
                        assert(t + u =~= s@.subrange(0, d) + s@.subrange(d + 1, n as int));
                    }
                }
            }
            return None;
        }
        num = next;
        i = i + 1;
    }
    proof {
        assert(digits_end(s@, i as int) == i as int);
    }
    if i == 0 {
        return None;
    }
    if i == n {
        proof {
            assert(s@.subrange(0, n as int) =~= s@);
            lemma_digits_value_nonneg(s@);
        }
        return Some(Rational { num: num as i64, den: 1 });
    }
    if s[i] != '.' {
        return None;
    }
    if i + 1 >= n {
        return None;
    }
    let d = i;
    let mut j: usize = d + 1;
    let mut den: i128 = 1;
    proof {
        assert(s@.subrange(0, d as int) + s@.subrange(d + 1, (d + 1) as int) =~= s@.subrange(
            0,
            d as int,
        ));
    }
    while j < n && is_digit(s[j])
        invariant
            d + 1 <= j <= n,
            d < n,
            n == s@.len(),
            d as int == digits_end(s@, 0),
            s@[d as int] == '.',
            all_digits(s@.subrange(0, d as int)),
            all_digits(s@.subrange(d + 1, j as int)),
            digits_end(s@, d + 1) == digits_end(s@, j as int),
            num == digits_value(s@.subrange(0, d as int) + s@.subrange(d + 1, j as int)),
            0 <= num <= i64::MAX,
            den == pow10((j - d - 1) as nat),
            0 < den <= i64::MAX,
        decreases n - j,
    {
        let dv: i128 = (s[j] as u32 - '0' as u32) as i128;
        let next: i128 = num * 10 + dv;
        let dnext: i128 = den * 10;
        let ghost t = s@.subrange(0, d as int) + s@.subrange(d + 1, j + 1);
        proof {
            assert(t.drop_last() =~= s@.subrange(0, d as int) + s@.subrange(d + 1, j as int));
            assert(t.last() == s@[j as int]);
            assert(digits_value(t) == num * 10 + digit_val(s@[j as int]));
            assert(all_digits(s@.subrange(d + 1, j + 1)));
            assert(all_digits(t)) by {
                assert(forall|k: int|
                    0 <= k < t.len() ==> #[trigger] t[k] == (if k < d {
                        s@.subrange(0, d as int)[k]
                    } else {
                        s@.subrange(d + 1, j + 1)[k - d]
                    }));
            }
        }
        if next > i64::MAX as i128 || dnext > i64::MAX as i128 {
            proof {
                if number_lexeme_wf(s@) {
                    assert(digits_end(s@, j as int) == digits_end(s@, j + 1));
                    lemma_digits_end_digits(s@, j + 1);
                    assert(digits_end(s@, d + 1) == s@.len());
                    let u = s@.subrange(j + 1, n as int);
                    assert(all_digits(u));
                    lemma_digits_value_append(t, u);
                    assert(t + u =~= s@.subrange(0, d as int) + s@.subrange(d + 1, n as int));
                    lemma_pow10_le((j - d) as nat, (n - d - 1) as nat);
                }
            }
            return None;
        }
        num = next;
        den = dnext;
        j = j + 1;
    }
    proof {
        assert(digits_end(s@, j as int) == j as int);
    }
    if j < n {
        return None;
    }
    proof {
        let t = s@.subrange(0, d as int) + s@.subrange(d + 1, n as int);
        assert(all_digits(t)) by {
            assert(forall|k: int|
                0 <= k < t.len() ==> #[trigger] t[k] == (if k < d {
                    s@.subrange(0, d as int)[k]
                } else {
                    s@.subrange(d + 1, n as int)[k - d]
                }));
        }
        lemma_digits_value_nonneg(t);
    }
    Some(Rational { num: num as i64, den: den as i64 })
}

/// `post` is `pre` with zero or more elements appended.
pub open spec fn seq_extends<T>(post: Seq<T>, pre: Seq<T>) -> bool {
    pre.len() <= post.len() && forall|i: int| 0 <= i < pre.len() ==> post[i] == #[trigger] pre[i]
}

/// Appending is transitive.
pub proof fn lemma_extends_trans<T>(a: Seq<T>, b: Seq<T>, c: Seq<T>)
    requires
        seq_extends(b, a),
        seq_extends(c, b),
    ensures
        seq_extends(c, a),
{
    assert forall|i: int| 0 <= i < a.len() implies c[i] == #[trigger] a[i] by {
        assert(b[i] == a[i]);
        assert(c[i] == b[i]);
    }
}

/// The instruction a binary arithmetic operator token stands for
/// (meaningful for the four arithmetic kinds only).
pub open spec fn arith_op_for(kind: TokenType) -> OpCode {
    match kind {
        TokenType::Plus => OpCode::Add,
        TokenType::Minus => OpCode::Subtract,
        TokenType::Star => OpCode::Multiply,
        TokenType::Slash => OpCode::Divide,
        _ => OpCode::Return,
    }
}

/// Whether a token kind is one of the four binary arithmetic operators.
pub open spec fn is_arith_kind(kind: TokenType) -> bool {
    kind is Plus || kind is Minus || kind is Star || kind is Slash
}

/// The instructions `post`'s chunk appended to `pre`'s.
pub open spec fn emitted(pre: Parser, post: Parser) -> Seq<OpCode> {
    post.compiling_chunk.code@.subrange(
        pre.compiling_chunk.code@.len() as int,
        post.compiling_chunk.code@.len() as int,
    )
}

/// The constants `post`'s pool appended to `pre`'s.
pub open spec fn emitted_consts(pre: Parser, post: Parser) -> Seq<Value> {
    post.compiling_chunk.constants@.subrange(
        pre.compiling_chunk.constants@.len() as int,
        post.compiling_chunk.constants@.len() as int,
    )
}

/// The line numbers `post`'s chunk appended to `pre`'s.
pub open spec fn emitted_lines(pre: Parser, post: Parser) -> Seq<usize> {
    post.compiling_chunk.line_numbers@.subrange(
        pre.compiling_chunk.line_numbers@.len() as int,
        post.compiling_chunk.line_numbers@.len() as int,
    )
}

/// What a clean expression parse emits: code that, entered at any stack
/// depth, finds every operand it pops and leaves exactly one more value.
pub open spec fn emits_expr(pre: Parser, post: Parser) -> bool {
    &&& crate::chunk::seg_net(emitted(pre, post)) == 1
    &&& forall|d: int| d >= 0 ==> crate::chunk::seg_safe(emitted(pre, post), d)
}

/// What a clean infix step emits: the right operand and the operator,
/// consuming the left operand already on the stack and leaving the result.
pub open spec fn emits_infix(pre: Parser, post: Parser) -> bool {
    &&& crate::chunk::seg_net(emitted(pre, post)) == 0
    &&& forall|d: int| d >= 1 ==> crate::chunk::seg_safe(emitted(pre, post), d)
}

/// Every instruction a parser state's emitted segment names stays inside
/// that state's pool (from the chunk's well-formedness).
proof fn lemma_emitted_in_bounds(base: Parser, p: Parser)
    requires
        p.compiling_chunk.wf(),
        seq_extends(p.compiling_chunk.code@, base.compiling_chunk.code@),
    ensures
        crate::chunk::code_in_bounds(
            emitted(base, p),
            p.compiling_chunk.constants@.len() as int,
        ),
{
    assert(forall|i: int|
        0 <= i < emitted(base, p).len() ==> #[trigger] emitted(base, p)[i]
            == p.compiling_chunk.code@[i + base.compiling_chunk.code@.len()]);
}

/// Emitted segments — instructions, constants and lines — concatenate
/// across an intermediate state.
proof fn lemma_emitted_compose(pre: Parser, mid: Parser, post: Parser)
    requires
        seq_extends(mid.compiling_chunk.code@, pre.compiling_chunk.code@),
        seq_extends(post.compiling_chunk.code@, mid.compiling_chunk.code@),
        seq_extends(mid.compiling_chunk.constants@, pre.compiling_chunk.constants@),
        seq_extends(post.compiling_chunk.constants@, mid.compiling_chunk.constants@),
        seq_extends(mid.compiling_chunk.line_numbers@, pre.compiling_chunk.line_numbers@),
        seq_extends(post.compiling_chunk.line_numbers@, mid.compiling_chunk.line_numbers@),
    ensures
        emitted(pre, post) == emitted(pre, mid) + emitted(mid, post),
        emitted_consts(pre, post) == emitted_consts(pre, mid) + emitted_consts(mid, post),
        emitted_lines(pre, post) == emitted_lines(pre, mid) + emitted_lines(mid, post),
{
    assert(emitted(pre, post) =~= emitted(pre, mid) + emitted(mid, post));
    assert(emitted_consts(pre, post) =~= emitted_consts(pre, mid) + emitted_consts(mid, post));
    assert(emitted_lines(pre, post) =~= emitted_lines(pre, mid) + emitted_lines(mid, post));
}

/// A token as the specification-level parser sees it.
pub ghost struct PTok {
    /// The token's kind.
    pub kind: TokenType,
    /// The token's text (or, for `Error`, its message).
    pub lexeme: Seq<char>,
    /// The 1-based source line.
    pub line: int,
}

/// The specification-level parser state: the two-token window and the
/// lexer's position and line.
pub ghost struct PState {
    /// The token last consumed.
    pub prev: PTok,
    /// The lookahead token.
    pub cur: PTok,
    /// The lexer position, past the lookahead.
    pub pos: int,
    /// The lexer line.
    pub line: int,
}

/// The ghost image of an executable token.
pub open spec fn tok_of(t: Token) -> PTok {
    PTok { kind: t.kind, lexeme: t.lexeme@, line: t.line as int }
}

/// The ghost image of the executable parser's token window and lexer.
pub open spec fn st_of(p: Parser) -> PState {
    PState {
        prev: tok_of(p.previous),
        cur: tok_of(p.current),
        pos: p.scanner.current as int,
        line: p.scanner.line as int,
    }
}

/// A specification parser state that points into the source.
pub open spec fn pst_wf(src: Seq<char>, st: PState) -> bool {
    0 <= st.pos <= src.len()
}

/// The unread input, plus one while the lookahead holds a real token — the
/// same measure the executable parser terminates on.
pub open spec fn pst_measure(src: Seq<char>, st: PState) -> int {
    src.len() - st.pos + (if st.cur.kind is Eof {
        0int
    } else {
        1int
    })
}

/// The state before anything was consumed: placeholder end-of-input tokens
/// in the window, the lexer at position 0 on line 1.
pub open spec fn init_pstate() -> PState {
    PState {
        prev: PTok { kind: TokenType::Eof, lexeme: Seq::empty(), line: 0 },
        cur: PTok { kind: TokenType::Eof, lexeme: Seq::empty(), line: 0 },
        pos: 0,
        line: 1,
    }
}

/// Shifting the window: the lookahead becomes `prev`, the next scanned
/// token becomes the lookahead.
pub open spec fn sp_advance(src: Seq<char>, st: PState) -> PState {
    let t = crate::scanner::spec_scan(src, st.pos, st.line);
    PState {
        prev: st.cur,
        cur: PTok { kind: t.kind, lexeme: t.lexeme, line: t.line },
        pos: t.end_pos,
        line: t.end_line,
    }
}

/// Whether the next scan from `st` yields a lexical error token (which the
/// executable parser reports, making the compilation fail).
pub open spec fn scan_errs(src: Seq<char>, st: PState) -> bool {
    crate::scanner::spec_scan(src, st.pos, st.line).kind == TokenType::Error
}

/// A diagnostic as the specification parser determines it: the line, where
/// it points (end of input, a lexical error token, or a lexeme), and the
/// message.
pub ghost struct PDiag {
    /// The 1-based source line.
    pub line: int,
    /// Points at the end of input.
    pub at_end: bool,
    /// Points at a lexical error token, whose message says everything.
    pub at_error: bool,
    /// The lexeme pointed at, when neither flag is set.
    pub lexeme: Seq<char>,
    /// The message text.
    pub message: Seq<char>,
}

/// The diagnostic recorded at a token, as `error_at` records it.
pub open spec fn pdiag_at(t: PTok, message: Seq<char>) -> PDiag {
    PDiag {
        line: t.line,
        at_end: t.kind is Eof,
        at_error: t.kind == TokenType::Error,
        lexeme: t.lexeme,
        message,
    }
}

/// The diagnostic recorded when the next scan from `st` yields a lexical
/// error token: the token itself carries the message.
pub open spec fn scan_err_diag(src: Seq<char>, st: PState) -> PDiag {
    let t = crate::scanner::spec_scan(src, st.pos, st.line);
    PDiag { line: t.line, at_end: false, at_error: true, lexeme: t.lexeme, message: t.lexeme }
}

/// Whether an executable diagnostic is the one the specification parser
/// determined.
pub open spec fn diag_matches(d: Diagnostic, p: PDiag) -> bool {
    &&& d.line as int == p.line
    &&& d.message@ == p.message
    &&& (match d.context {
        DiagContext::AtEnd => p.at_end,
        DiagContext::AtError => !p.at_end && p.at_error,
        DiagContext::At(lex) => !p.at_end && !p.at_error && lex@ == p.lexeme,
    })
}

/// What one specification-level parse comes to: whether it succeeds, the
/// parsed expression's value under the machine-exact number model, the
/// state left behind, the bytecode it emits — instructions, appended
/// constants, and one source line per instruction — and, on failure, the
/// first diagnostic recorded.
pub ghost struct SpRes {
    /// No syntax error, no lexical error, every literal in range.
    pub ok: bool,
    /// The expression's value (meaningful when `ok`).
    pub val: crate::chunk::EvalRes,
    /// The state after the parse.
    pub st: PState,
    /// The instructions this parse emits (meaningful when `ok`).
    pub code: Seq<OpCode>,
    /// The constants it appends to the pool (meaningful when `ok`).
    pub consts: Seq<Value>,
    /// The source line of each emitted instruction (meaningful when `ok`).
    pub lines: Seq<usize>,
    /// The first diagnostic recorded (meaningful when not `ok`).
    pub err: PDiag,
}

/// The failed parse, with the diagnostic its failure records.
pub open spec fn sp_fail(st: PState, err: PDiag) -> SpRes {
    SpRes {
        ok: false,
        val: crate::chunk::EvalRes::Val(Rational { num: 0, den: 1 }),
        st,
        code: Seq::empty(),
        consts: Seq::empty(),
        lines: Seq::empty(),
        err,
    }
}

/// The number rule: the token last consumed, read as a numeric literal and
/// emitted as one `Constant` pointing at the next pool slot (`pn` is the
/// pool length so far).
pub open spec fn sp_number(st: PState, pn: int) -> SpRes {
    let lex = st.prev.lexeme;
    if number_lexeme_wf(lex) && fits_i64(lexeme_num(lex)) && fits_i64(lexeme_den(lex)) {
        SpRes {
            ok: true,
            val: crate::chunk::EvalRes::Val(
                Rational { num: lexeme_num(lex) as i64, den: lexeme_den(lex) as i64 },
            ),
            st,
            code: seq![OpCode::Constant(pn as usize)],
            consts: seq![
                Value::Number(
                    Rational { num: lexeme_num(lex) as i64, den: lexeme_den(lex) as i64 },
                ),
            ],
            lines: seq![st.prev.line as usize],
            err: pdiag_at(st.prev, Seq::empty()),
        }
    } else {
        sp_fail(st, pdiag_at(st.prev, "Failed to parse number: "@ + st.prev.lexeme))
    }
}

/// The grouping rule: with `(` just consumed, a full expression and the
/// matching `)`. Parentheses emit nothing of their own.
pub open spec fn sp_grouping(src: Seq<char>, st: PState, pn: int, fuel: nat) -> SpRes
    decreases fuel, 2int,
{
    let r = sp_parse_prec(src, st, 1, pn, fuel);
    if !r.ok {
        r
    } else if r.st.cur.kind == TokenType::RightParen && !scan_errs(src, r.st) {
        SpRes { st: sp_advance(src, r.st), ..r }
    } else if r.st.cur.kind == TokenType::RightParen {
        sp_fail(sp_advance(src, r.st), scan_err_diag(src, r.st))
    } else {
        sp_fail(r.st, pdiag_at(r.st.cur, "Expect ')' after expression."@))
    }
}

/// The unary rule: with the operator just consumed, its operand at `Unary`
/// precedence, then `Negate` — only `-` has an action; the reserved `!`
/// slot is an internal error.
pub open spec fn sp_unary(src: Seq<char>, st: PState, pn: int, fuel: nat) -> SpRes
    decreases fuel, 2int,
{
    let r = sp_parse_prec(src, st, 8, pn, fuel);
    if !r.ok {
        r
    } else if st.prev.kind is Minus {
        SpRes {
            ok: true,
            val: crate::chunk::eval_neg(r.val),
            st: r.st,
            code: r.code + seq![OpCode::Negate],
            consts: r.consts,
            lines: r.lines + seq![r.st.prev.line as usize],
            err: r.err,
        }
    } else {
        sp_fail(r.st, pdiag_at(r.st.prev, "Unexpected unary operator: "@ + st.prev.lexeme))
    }
}

/// The specification-level Pratt parse at a binding level: consume one
/// token, run its prefix rule, then fold infix operators while the
/// lookahead binds at least as tightly as `min`. The result's value is the
/// expression's denotation under the machine-exact number model.
pub open spec fn sp_parse_prec(src: Seq<char>, st: PState, min: int, pn: int, fuel: nat) -> SpRes
    decreases fuel, 1int,
{
    if fuel == 0 {
        sp_fail(st, pdiag_at(st.cur, Seq::empty()))
    } else {
        let st1 = sp_advance(src, st);
        if scan_errs(src, st) {
            sp_fail(st1, scan_err_diag(src, st))
        } else {
            let p = match spec_get_rule(st1.prev.kind).prefix {
                None => sp_fail(st1, pdiag_at(st1.prev, "Expect expression."@)),
                Some(act) => match act {
                    ParseAct::Number => sp_number(st1, pn),
                    ParseAct::Grouping => sp_grouping(src, st1, pn, (fuel - 1) as nat),
                    ParseAct::Unary => sp_unary(src, st1, pn, (fuel - 1) as nat),
                    ParseAct::Binary => sp_fail(st1, pdiag_at(st1.prev, Seq::empty())),
                },
            };
            if !p.ok {
                p
            } else {
                let t = sp_infix(src, p.st, min, p.val, pn + p.consts.len(), (fuel - 1) as nat);
                if !t.ok {
                    t
                } else {
                    SpRes {
                        ok: true,
                        val: t.val,
                        st: t.st,
                        code: p.code + t.code,
                        consts: p.consts + t.consts,
                        lines: p.lines + t.lines,
                        err: t.err,
                    }
                }
            }
        }
    }
}

/// The infix loop: while the lookahead's rule binds at least as tightly as
/// `min`, consume it; a binary operator parses its right operand one level
/// tighter and folds it into the value; a rule-less consumed token ends the
/// level, like the executable loop's safeguard.
pub open spec fn sp_infix(
    src: Seq<char>,
    st: PState,
    min: int,
    lv: crate::chunk::EvalRes,
    pn: int,
    fuel: nat,
) -> SpRes
    decreases fuel, 0int,
{
    if fuel == 0 || min < 1 {
        sp_fail(st, pdiag_at(st.cur, Seq::empty()))
    } else {
        let rule = spec_get_rule(st.cur.kind);
        if min > spec_rank(rule.precedence) {
            SpRes {
                ok: true,
                val: lv,
                st,
                code: Seq::empty(),
                consts: Seq::empty(),
                lines: Seq::empty(),
                err: pdiag_at(st.cur, Seq::empty()),
            }
        } else {
            let st1 = sp_advance(src, st);
            if scan_errs(src, st) {
                sp_fail(st1, scan_err_diag(src, st))
            } else {
                match rule.infix {
                    None => SpRes {
                        ok: true,
                        val: lv,
                        st: st1,
                        code: Seq::empty(),
                        consts: Seq::empty(),
                        lines: Seq::empty(),
                        err: pdiag_at(st.cur, Seq::empty()),
                    },
                    Some(act) => match act {
                        ParseAct::Binary => {
                            let r = sp_parse_prec(
                                src,
                                st1,
                                spec_rank(spec_next_higher(rule.precedence)),
                                pn,
                                (fuel - 1) as nat,
                            );
                            if !r.ok {
                                r
                            } else if !is_arith_kind(st1.prev.kind) {
                                sp_fail(
                                    r.st,
                                    pdiag_at(
                                        r.st.prev,
                                        "Unexpected binary operator: "@ + st1.prev.lexeme,
                                    ),
                                )
                            } else {
                                let opc = arith_op_for(st1.prev.kind);
                                let t = sp_infix(
                                    src,
                                    r.st,
                                    min,
                                    crate::chunk::eval_bin(opc, lv, r.val),
                                    pn + r.consts.len(),
                                    (fuel - 1) as nat,
                                );
                                if !t.ok {
                                    t
                                } else {
                                    SpRes {
                                        ok: true,
                                        val: t.val,
                                        st: t.st,
                                        code: r.code + seq![opc] + t.code,
                                        consts: r.consts + t.consts,
                                        lines: r.lines + seq![r.st.prev.line as usize] + t.lines,
                                        err: t.err,
                                    }
                                }
                            }
                        },
                        _ => sp_fail(st1, pdiag_at(st1.prev, Seq::empty())),
                    },
                }
            }
        }
    }
}

/// The whole-source parse: the driver's initial shift, one expression at
/// the loosest real level, then the end of input, consumed.
pub open spec fn sp_compile(src: Seq<char>, fuel: nat) -> SpRes {
    let st1 = sp_advance(src, init_pstate());
    if scan_errs(src, init_pstate()) {
        sp_fail(st1, scan_err_diag(src, init_pstate()))
    } else {
        let r = sp_parse_prec(src, st1, 1, 0, fuel);
        if !r.ok {
            r
        } else if r.st.cur.kind == TokenType::Eof && !scan_errs(src, r.st) {
            let st2 = sp_advance(src, r.st);
            SpRes {
                ok: true,
                val: r.val,
                st: st2,
                code: r.code + seq![OpCode::Return],
                consts: r.consts,
                lines: r.lines + seq![st2.prev.line as usize],
                err: r.err,
            }
        } else if r.st.cur.kind != TokenType::Eof {
            sp_fail(r.st, pdiag_at(r.st.cur, "Expect end of expression."@))
        } else {
            sp_fail(sp_advance(src, r.st), scan_err_diag(src, r.st))
        }
    }
}

/// The canonical fuel: more than any parse from any position can use.
pub open spec fn cfuel(src: Seq<char>) -> nat {
    (src.len() + 2) as nat
}

/// The parse at a binding level, with the canonical fuel.
pub open spec fn sp_parse_prec_at(src: Seq<char>, st: PState, min: int, pn: int) -> SpRes {
    sp_parse_prec(src, st, min, pn, cfuel(src))
}

/// The infix loop, with the canonical fuel.
pub open spec fn sp_infix_at(
    src: Seq<char>,
    st: PState,
    min: int,
    lv: crate::chunk::EvalRes,
    pn: int,
) -> SpRes {
    sp_infix(src, st, min, lv, pn, cfuel(src))
}

/// The grouping rule, with the canonical fuel.
pub open spec fn sp_grouping_at(src: Seq<char>, st: PState, pn: int) -> SpRes {
    sp_grouping(src, st, pn, cfuel(src))
}

/// The unary rule, with the canonical fuel.
pub open spec fn sp_unary_at(src: Seq<char>, st: PState, pn: int) -> SpRes {
    sp_unary(src, st, pn, cfuel(src))
}

/// The whole-source parse, with the canonical fuel.
pub open spec fn sp_compile_at(src: Seq<char>) -> SpRes {
    sp_compile(src, cfuel(src))
}

/// Shifting the window stays inside the source and burns the lookahead:
/// the new measure is at most the unread input before the shift.
pub proof fn lemma_sp_advance_measure(src: Seq<char>, st: PState)
    requires
        pst_wf(src, st),
    ensures
        pst_wf(src, sp_advance(src, st)),
        pst_measure(src, sp_advance(src, st)) <= src.len() - st.pos,
        pst_measure(src, sp_advance(src, st)) >= 0,
{
    crate::scanner::lemma_spec_scan_progress(src, st.pos, st.line);
}

/// Any two sufficient fuels give one and the same parse, whose final state
/// points into the source and never grows the measure; a successful parse
/// at a binding level consumes at least one token.
pub proof fn lemma_sp_pp_agree(src: Seq<char>, st: PState, min: int, pn: int, f1: nat, f2: nat)
    requires
        pst_wf(src, st),
        f1 > pst_measure(src, st),
        f2 > pst_measure(src, st),
    ensures
        sp_parse_prec(src, st, min, pn, f1) == sp_parse_prec(src, st, min, pn, f2),
        sp_parse_prec(src, st, min, pn, f1).ok ==> pst_wf(
            src,
            sp_parse_prec(src, st, min, pn, f1).st,
        ) && pst_measure(src, sp_parse_prec(src, st, min, pn, f1).st) < pst_measure(src, st),
    decreases f1 + f2, 1int,
{
    let st1 = sp_advance(src, st);
    lemma_sp_advance_measure(src, st);
    if !scan_errs(src, st) {
        let prefix = spec_get_rule(st1.prev.kind).prefix;
        if prefix is Some {
            assert(spec_get_rule(TokenType::Eof).prefix is None);
            assert(st.cur.kind !is Eof);
            assert(pst_measure(src, st1) < pst_measure(src, st));
            let act = prefix->0;
            if act is Grouping {
                lemma_sp_grouping_agree(src, st1, pn, (f1 - 1) as nat, (f2 - 1) as nat);
            }
            if act is Unary {
                lemma_sp_unary_agree(src, st1, pn, (f1 - 1) as nat, (f2 - 1) as nat);
            }
            let p = match act {
                ParseAct::Number => sp_number(st1, pn),
                ParseAct::Grouping => sp_grouping(src, st1, pn, (f1 - 1) as nat),
                ParseAct::Unary => sp_unary(src, st1, pn, (f1 - 1) as nat),
                ParseAct::Binary => sp_fail(st1, pdiag_at(st1.prev, Seq::empty())),
            };
            if p.ok {
                assert(pst_wf(src, p.st) && pst_measure(src, p.st) <= pst_measure(src, st1));
                lemma_sp_infix_agree(
                    src,
                    p.st,
                    min,
                    p.val,
                    pn + p.consts.len() as int,
                    (f1 - 1) as nat,
                    (f2 - 1) as nat,
                );
            }
        }
    }
}

/// Fuel-independence, state bounds: the grouping rule.
pub proof fn lemma_sp_grouping_agree(src: Seq<char>, st: PState, pn: int, f1: nat, f2: nat)
    requires
        pst_wf(src, st),
        f1 > pst_measure(src, st),
        f2 > pst_measure(src, st),
    ensures
        sp_grouping(src, st, pn, f1) == sp_grouping(src, st, pn, f2),
        sp_grouping(src, st, pn, f1).ok ==> pst_wf(src, sp_grouping(src, st, pn, f1).st)
            && pst_measure(src, sp_grouping(src, st, pn, f1).st) <= pst_measure(src, st),
    decreases f1 + f2, 2int,
{
    lemma_sp_pp_agree(src, st, 1, pn, f1, f2);
    let r = sp_parse_prec(src, st, 1, pn, f1);
    if r.ok {
        lemma_sp_advance_measure(src, r.st);
    }
}

/// Fuel-independence, state bounds: the unary rule.
pub proof fn lemma_sp_unary_agree(src: Seq<char>, st: PState, pn: int, f1: nat, f2: nat)
    requires
        pst_wf(src, st),
        f1 > pst_measure(src, st),
        f2 > pst_measure(src, st),
    ensures
        sp_unary(src, st, pn, f1) == sp_unary(src, st, pn, f2),
        sp_unary(src, st, pn, f1).ok ==> pst_wf(src, sp_unary(src, st, pn, f1).st) && pst_measure(
            src,
            sp_unary(src, st, pn, f1).st,
        ) <= pst_measure(src, st),
    decreases f1 + f2, 2int,
{
    lemma_sp_pp_agree(src, st, 8, pn, f1, f2);
}

/// Fuel-independence, state bounds: the infix loop.
pub proof fn lemma_sp_infix_agree(
    src: Seq<char>,
    st: PState,
    min: int,
    lv: crate::chunk::EvalRes,
    pn: int,
    f1: nat,
    f2: nat,
)
    requires
        pst_wf(src, st),
        f1 > pst_measure(src, st),
        f2 > pst_measure(src, st),
    ensures
        sp_infix(src, st, min, lv, pn, f1) == sp_infix(src, st, min, lv, pn, f2),
        sp_infix(src, st, min, lv, pn, f1).ok ==> pst_wf(
            src,
            sp_infix(src, st, min, lv, pn, f1).st,
        ) && pst_measure(src, sp_infix(src, st, min, lv, pn, f1).st) <= pst_measure(src, st),
    decreases f1 + f2, 0int,
{
    if min >= 1 {
        let rule = spec_get_rule(st.cur.kind);
        if min <= spec_rank(rule.precedence) {
            assert(spec_get_rule(TokenType::Eof).precedence == Precedence::Lowest);
            assert(st.cur.kind !is Eof);
            let st1 = sp_advance(src, st);
            lemma_sp_advance_measure(src, st);
            assert(pst_measure(src, st1) < pst_measure(src, st));
            if !scan_errs(src, st) {
                match rule.infix {
                    None => {},
                    Some(act) => {
                        if act is Binary {
                            lemma_sp_pp_agree(
                                src,
                                st1,
                                spec_rank(spec_next_higher(rule.precedence)),
                                pn,
                                (f1 - 1) as nat,
                                (f2 - 1) as nat,
                            );
                            let r = sp_parse_prec(
                                src,
                                st1,
                                spec_rank(spec_next_higher(rule.precedence)),
                                pn,
                                (f1 - 1) as nat,
                            );
                            if r.ok && is_arith_kind(st1.prev.kind) {
                                lemma_sp_infix_agree(
                                    src,
                                    r.st,
                                    min,
                                    crate::chunk::eval_bin(
                                        arith_op_for(st1.prev.kind),
                                        lv,
                                        r.val,
                                    ),
                                    pn + r.consts.len() as int,
                                    (f1 - 1) as nat,
                                    (f2 - 1) as nat,
                                );
                            }
                        }
                    },
                }
            }
        }
    }
}

/// Two tokens with the same kind, text and line.
pub open spec fn same_token(a: Token, b: Token) -> bool {
    a.kind == b.kind && a.lexeme@ == b.lexeme@ && a.line == b.line
}

/// Two scanners in the same state.
pub open spec fn same_scanner(a: Scanner, b: Scanner) -> bool {
    a.source@ == b.source@ && a.start == b.start && a.current == b.current && a.line == b.line
}

/// The compiler state: the two-token window, the chunk being filled, the
/// lexer, the sticky error flag, and the diagnostics recorded so far.
/// Created per compilation; the chunk is handed to the caller only if the
/// error flag is clear.
pub struct Parser {
    /// The lookahead token, not yet consumed.
    pub current: Token,
    /// The token last consumed.
    pub previous: Token,
    /// The chunk being emitted into, owned until compilation finishes.
    pub compiling_chunk: Chunk,
    /// The lexer this compilation owns.
    pub scanner: Scanner,
    /// Set by the first recorded error and never cleared within one
    /// compilation.
    pub had_error: bool,
    /// Every diagnostic recorded so far, in order.
    pub diagnostics: Vec<Diagnostic>,
}

impl Parser {
    /// Well-formedness: the lexer and the chunk under construction are.
    pub open spec fn wf(self) -> bool {
        &&& self.scanner.wf()
        &&& self.compiling_chunk.wf()
    }

    /// The termination measure of the token stream: unread characters, plus
    /// one while the lookahead still holds a real token.
    pub open spec fn measure(self) -> int {
        self.scanner.source@.len() - self.scanner.current + (if self.current.kind is Eof {
            0int
        } else {
            1int
        })
    }

    /// The frame every parsing step preserves: well-formedness, the source,
    /// the measure never growing, the chunk and the diagnostics growing by
    /// appending only, the error flag sticky and raised only together with a
    /// new diagnostic.
    pub open spec fn parse_step(pre: Parser, post: Parser) -> bool {
        &&& post.wf()
        &&& post.scanner.source@ == pre.scanner.source@
        &&& post.measure() <= pre.measure()
        &&& seq_extends(post.compiling_chunk.code@, pre.compiling_chunk.code@)
        &&& seq_extends(post.compiling_chunk.constants@, pre.compiling_chunk.constants@)
        &&& seq_extends(post.compiling_chunk.line_numbers@, pre.compiling_chunk.line_numbers@)
        &&& seq_extends(post.diagnostics@, pre.diagnostics@)
        &&& (pre.had_error ==> post.had_error)
        &&& (post.had_error ==> pre.had_error || post.diagnostics@.len() > pre.diagnostics@.len())
        &&& (post.diagnostics@.len() > pre.diagnostics@.len() ==> post.had_error)
    }

    /// Parsing steps compose.
    pub proof fn lemma_parse_step_trans(a: Parser, b: Parser, c: Parser)
        requires
            Self::parse_step(a, b),
            Self::parse_step(b, c),
        ensures
            Self::parse_step(a, c),
    {
        lemma_extends_trans(
            a.compiling_chunk.code@,
            b.compiling_chunk.code@,
            c.compiling_chunk.code@,
        );
        lemma_extends_trans(
            a.compiling_chunk.constants@,
            b.compiling_chunk.constants@,
            c.compiling_chunk.constants@,
        );
        lemma_extends_trans(
            a.compiling_chunk.line_numbers@,
            b.compiling_chunk.line_numbers@,
            c.compiling_chunk.line_numbers@,
        );
        lemma_extends_trans(a.diagnostics@, b.diagnostics@, c.diagnostics@);
    }

    /// A fresh compiler over `source`: empty chunk, clear error flag, dummy
    /// end-of-input tokens in the two-token window.
    pub fn new(source: String) -> (r: Parser)
        requires
            source@.len() < usize::MAX,
        ensures
            r.wf(),
            r.scanner.source@ == source@,
            r.scanner.current == 0,
            r.scanner.line == 1,
            r.scanner.start == 0,
            r.current.kind is Eof && r.current.lexeme@ == Seq::<char>::empty() && r.current.line
                == 0,
            r.previous.kind is Eof && r.previous.lexeme@ == Seq::<char>::empty() && r.previous.line
                == 0,
            r.measure() == source@.len(),
            st_of(r) == init_pstate(),
            r.compiling_chunk.code@ == Seq::<OpCode>::empty(),
            r.compiling_chunk.constants@ == Seq::<Value>::empty(),
            r.compiling_chunk.line_numbers@ == Seq::<usize>::empty(),
            !r.had_error,
            r.diagnostics@.len() == 0,
    {
        Parser {
            current: Token { kind: TokenType::Eof, lexeme: Vec::new(), line: 0 },
            previous: Token { kind: TokenType::Eof, lexeme: Vec::new(), line: 0 },
            compiling_chunk: Chunk::new(),
            scanner: Scanner::new(source.as_str()),
            had_error: false,
            diagnostics: Vec::new(),
        }
    }

    /// Records a diagnostic at `token` — `at end` for end of input, nothing
    /// extra for a lexical error token (its message says everything), else
    /// `at '<lexeme>'` — and raises the sticky error flag.
    fn error_at(&mut self, token: Token, message: Vec<char>)
        requires
            old(self).wf(),
        ensures
            Self::parse_step(*old(self), *final(self)),
            final(self).had_error,
            final(self).diagnostics@.len() == old(self).diagnostics@.len() + 1,
            same_scanner(final(self).scanner, old(self).scanner),
            same_token(final(self).current, old(self).current),
            same_token(final(self).previous, old(self).previous),
            crate::chunk::same_chunk(final(self).compiling_chunk, old(self).compiling_chunk),
            final(self).measure() == old(self).measure(),
            final(self).diagnostics@ == old(self).diagnostics@.push(
                final(self).diagnostics@.last(),
            ),
            diag_matches(final(self).diagnostics@.last(), pdiag_at(tok_of(token), message@)),
            ({
                let d = final(self).diagnostics@.last();
                &&& d.line == token.line
                &&& d.message@ == message@
            }),
    {
        let context = if token.kind == TokenType::Eof {
            DiagContext::AtEnd
        } else if token.kind == TokenType::Error {
            DiagContext::AtError
        } else {
            DiagContext::At(token.lexeme)
        };
        self.diagnostics.push(Diagnostic { line: token.line, context, message });
        self.had_error = true;
    }

    /// Records a diagnostic at the token last consumed.
    fn error(&mut self, message: Vec<char>)
        requires
            old(self).wf(),
        ensures
            Self::parse_step(*old(self), *final(self)),
            final(self).had_error,
            final(self).diagnostics@.len() == old(self).diagnostics@.len() + 1,
            same_scanner(final(self).scanner, old(self).scanner),
            same_token(final(self).current, old(self).current),
            same_token(final(self).previous, old(self).previous),
            crate::chunk::same_chunk(final(self).compiling_chunk, old(self).compiling_chunk),
            final(self).measure() == old(self).measure(),
            diag_matches(
                final(self).diagnostics@.last(),
                pdiag_at(tok_of(old(self).previous), message@),
            ),
            ({
                let d = final(self).diagnostics@.last();
                d.line == old(self).previous.line && d.message@ == message@
            }),
    {
        let token = self.previous.duplicate();
        proof {
            assert(tok_of(token) == tok_of(old(self).previous));
        }
        self.error_at(token, message);
    }

    /// Records a diagnostic at the lookahead token.
    fn error_at_current(&mut self, message: Vec<char>)
        requires
            old(self).wf(),
        ensures
            Self::parse_step(*old(self), *final(self)),
            final(self).had_error,
            final(self).diagnostics@.len() == old(self).diagnostics@.len() + 1,
            same_scanner(final(self).scanner, old(self).scanner),
            same_token(final(self).current, old(self).current),
            same_token(final(self).previous, old(self).previous),
            crate::chunk::same_chunk(final(self).compiling_chunk, old(self).compiling_chunk),
            final(self).measure() == old(self).measure(),
            diag_matches(
                final(self).diagnostics@.last(),
                pdiag_at(tok_of(old(self).current), message@),
            ),
            ({
                let d = final(self).diagnostics@.last();
                d.line == old(self).current.line && d.message@ == message@
            }),
    {
        let token = self.current.duplicate();
        proof {
            assert(tok_of(token) == tok_of(old(self).current));
        }
        self.error_at(token, message);
    }

    /// Shifts the token window: the lookahead becomes `previous`, the next
    /// non-error token from the lexer becomes the lookahead. Lexical error
    /// tokens are reported (their lexeme is the message) and skipped.
    fn advance(&mut self)
        requires
            old(self).wf(),
        ensures
            Self::parse_step(*old(self), *final(self)),
            same_token(final(self).previous, old(self).current),
            crate::chunk::same_chunk(final(self).compiling_chunk, old(self).compiling_chunk),
            final(self).current.kind != TokenType::Error,
            old(self).current.kind !is Eof ==> final(self).measure() < old(self).measure(),
            final(self).current.kind is Eof ==> final(self).scanner.current == final(self).scanner.source@.len(),
            ({
                let t = crate::scanner::spec_scan(
                    old(self).scanner.source@,
                    old(self).scanner.current as int,
                    old(self).scanner.line as int,
                );
                &&& (t.kind != TokenType::Error ==> {
                    &&& final(self).diagnostics@ == old(self).diagnostics@
                    &&& final(self).had_error == old(self).had_error
                    &&& final(self).current.kind == t.kind
                    &&& final(self).current.lexeme@ == t.lexeme
                    &&& final(self).current.line as int == t.line
                    &&& final(self).scanner.current as int == t.end_pos
                    &&& final(self).scanner.line as int == t.end_line
                })
                &&& (t.kind == TokenType::Error ==> {
                    &&& final(self).diagnostics@.len() > old(self).diagnostics@.len()
                    &&& final(self).had_error
                    &&& diag_matches(
                        final(self).diagnostics@[old(self).diagnostics@.len() as int],
                        scan_err_diag(old(self).scanner.source@, st_of(*old(self))),
                    )
                })
            }),
    {
        let ghost pre = *self;
        core::mem::swap(&mut self.previous, &mut self.current);
        let mut t = self.scanner.scan_token();
        while t.kind == TokenType::Error
            invariant
                self.wf(),
                self.scanner.source@ == pre.scanner.source@,
                same_token(self.previous, pre.current),
                crate::chunk::same_chunk(self.compiling_chunk, pre.compiling_chunk),
                seq_extends(self.diagnostics@, pre.diagnostics@),
                (pre.had_error ==> self.had_error),
                (self.had_error ==> pre.had_error || self.diagnostics@.len()
                    > pre.diagnostics@.len()),
                self.scanner.source@.len() - self.scanner.current + (if t.kind is Eof {
                    0int
                } else {
                    1int
                }) <= pre.measure(),
                pre.current.kind !is Eof ==> self.scanner.source@.len() - self.scanner.current + (
                if t.kind is Eof {
                    0int
                } else {
                    1int
                }) < pre.measure(),
                t.kind is Eof ==> self.scanner.current == self.scanner.source@.len(),
                ({
                    let t0 = crate::scanner::spec_scan(
                        pre.scanner.source@,
                        pre.scanner.current as int,
                        pre.scanner.line as int,
                    );
                    &&& (t0.kind != TokenType::Error ==> {
                        &&& self.diagnostics@ == pre.diagnostics@
                        &&& self.had_error == pre.had_error
                        &&& t.kind == t0.kind
                        &&& t.lexeme@ == t0.lexeme
                        &&& t.line as int == t0.line
                        &&& self.scanner.current as int == t0.end_pos
                        &&& self.scanner.line as int == t0.end_line
                    })
                    &&& (t0.kind == TokenType::Error ==> (self.diagnostics@.len()
                        > pre.diagnostics@.len() && self.had_error && diag_matches(
                        self.diagnostics@[pre.diagnostics@.len() as int],
                        scan_err_diag(pre.scanner.source@, st_of(pre)),
                    )) || (t.kind == TokenType::Error && self.diagnostics@ == pre.diagnostics@
                        && t.kind == t0.kind && t.lexeme@ == t0.lexeme && t.line as int
                        == t0.line))
                }),
            decreases
                    self.scanner.source@.len() - self.scanner.current,
                    (if t.kind is Error {
                        1int
                    } else {
                        0int
                    }),
        {
            let message = slice_to_vec(t.lexeme.as_slice());
            self.error_at(t, message);
            t = self.scanner.scan_token();
        }
        self.current = t;
    }

    /// Whether the lookahead has the given kind.
    fn check(&self, kind: TokenType) -> (r: bool)
        ensures
            r == (self.current.kind == kind),
    {
        self.current.kind == kind
    }

    /// Consumes the lookahead if it has the given kind; otherwise reports
    /// `message` at the lookahead and raises the error flag, consuming
    /// nothing.
    fn consume(&mut self, kind: TokenType, message: &str)
        requires
            old(self).wf(),
        ensures
            Self::parse_step(*old(self), *final(self)),
            crate::chunk::same_chunk(final(self).compiling_chunk, old(self).compiling_chunk),
            old(self).current.kind == kind ==> ({
                let t = crate::scanner::spec_scan(
                    old(self).scanner.source@,
                    old(self).scanner.current as int,
                    old(self).scanner.line as int,
                );
                &&& same_token(final(self).previous, old(self).current)
                &&& (t.kind != TokenType::Error ==> {
                    &&& final(self).diagnostics@ == old(self).diagnostics@
                    &&& final(self).had_error == old(self).had_error
                    &&& final(self).current.kind == t.kind
                    &&& final(self).current.lexeme@ == t.lexeme
                    &&& final(self).current.line as int == t.line
                    &&& final(self).scanner.current as int == t.end_pos
                    &&& final(self).scanner.line as int == t.end_line
                })
                &&& (t.kind == TokenType::Error ==> {
                    &&& final(self).had_error
                    &&& final(self).diagnostics@.len() > old(self).diagnostics@.len()
                    &&& diag_matches(
                        final(self).diagnostics@[old(self).diagnostics@.len() as int],
                        scan_err_diag(old(self).scanner.source@, st_of(*old(self))),
                    )
                })
                &&& final(self).current.kind != TokenType::Error
            }),
            old(self).current.kind != kind ==> {
                &&& final(self).had_error
                &&& final(self).diagnostics@.len() == old(self).diagnostics@.len() + 1
                &&& final(self).diagnostics@.last().message@ == message@
                &&& diag_matches(
                    final(self).diagnostics@.last(),
                    pdiag_at(tok_of(old(self).current), message@),
                )
                &&& same_scanner(final(self).scanner, old(self).scanner)
                &&& same_token(final(self).current, old(self).current)
                &&& same_token(final(self).previous, old(self).previous)
            },
    {
        if self.check(kind) {
            self.advance();
        } else {
            self.error_at_current(str_chars(message));
        }
    }

    /// Consumes the lookahead only if it has the given kind, reporting
    /// whether it did.
    fn match_token(&mut self, kind: TokenType) -> (r: bool)
        requires
            old(self).wf(),
        ensures
            Self::parse_step(*old(self), *final(self)),
            crate::chunk::same_chunk(final(self).compiling_chunk, old(self).compiling_chunk),
            r == (old(self).current.kind == kind),
            !r ==> same_scanner(final(self).scanner, old(self).scanner) && same_token(
                final(self).current,
                old(self).current,
            ) && same_token(final(self).previous, old(self).previous) && final(self).had_error
                == old(self).had_error && final(self).diagnostics@ == old(self).diagnostics@,
            r ==> same_token(final(self).previous, old(self).current),
    {
        if self.check(kind) {
            self.advance();
            true
        } else {
            false
        }
    }

    /// Appends one instruction to the chunk, tagged with the line of the
    /// token last consumed.
    fn emit_byte(&mut self, op_code: OpCode)
        requires
            old(self).wf(),
            op_in_bounds(op_code, old(self).compiling_chunk.constants@.len() as int),
        ensures
            Self::parse_step(*old(self), *final(self)),
            final(self).compiling_chunk.code@ == old(self).compiling_chunk.code@.push(op_code),
            final(self).compiling_chunk.constants@ == old(self).compiling_chunk.constants@,
            final(self).compiling_chunk.line_numbers@ == old(self).compiling_chunk.line_numbers@.push(old(self).previous.line),
            same_scanner(final(self).scanner, old(self).scanner),
            same_token(final(self).current, old(self).current),
            same_token(final(self).previous, old(self).previous),
            final(self).had_error == old(self).had_error,
            final(self).diagnostics@ == old(self).diagnostics@,
            final(self).measure() == old(self).measure(),
    {
        let line = self.previous.line;
        self.compiling_chunk.write_chunk(op_code, line);
    }

    /// Appends the final `Return` that hands the expression's value back.
    fn emit_return(&mut self)
        requires
            old(self).wf(),
        ensures
            Self::parse_step(*old(self), *final(self)),
            final(self).compiling_chunk.code@ == old(self).compiling_chunk.code@.push(
                OpCode::Return,
            ),
            final(self).compiling_chunk.constants@ == old(self).compiling_chunk.constants@,
            final(self).compiling_chunk.line_numbers@ == old(self).compiling_chunk.line_numbers@.push(old(self).previous.line),
            same_token(final(self).previous, old(self).previous),
            same_token(final(self).current, old(self).current),
            same_scanner(final(self).scanner, old(self).scanner),
            final(self).diagnostics@ == old(self).diagnostics@,
            final(self).had_error == old(self).had_error,
    {
        self.emit_byte(OpCode::Return);
    }

    /// Appends two instructions in order.
    pub fn emit_bytes(&mut self, byte1: OpCode, byte2: OpCode)
        requires
            old(self).wf(),
            op_in_bounds(byte1, old(self).compiling_chunk.constants@.len() as int),
            op_in_bounds(byte2, old(self).compiling_chunk.constants@.len() as int),
        ensures
            Self::parse_step(*old(self), *final(self)),
            final(self).compiling_chunk.code@ == old(self).compiling_chunk.code@.push(byte1).push(
                byte2,
            ),
            final(self).compiling_chunk.constants@ == old(self).compiling_chunk.constants@,
            final(self).had_error == old(self).had_error,
    {
        let ghost s0 = *self;
        self.emit_byte(byte1);
        proof {
            Self::lemma_parse_step_trans(s0, s0, *self);
        }
        let ghost s1 = *self;
        self.emit_byte(byte2);
        proof {
            Self::lemma_parse_step_trans(s0, s1, *self);
        }
    }

    /// Adds a value to the constant pool and returns its index.
    fn make_constant(&mut self, value: Value) -> (index: usize)
        requires
            old(self).wf(),
            value_wf(value),
        ensures
            Self::parse_step(*old(self), *final(self)),
            final(self).compiling_chunk.constants@ == old(self).compiling_chunk.constants@.push(
                value,
            ),
            final(self).compiling_chunk.code@ == old(self).compiling_chunk.code@,
            final(self).compiling_chunk.line_numbers@ == old(self).compiling_chunk.line_numbers@,
            index == old(self).compiling_chunk.constants@.len(),
            same_token(final(self).previous, old(self).previous),
            same_token(final(self).current, old(self).current),
            same_scanner(final(self).scanner, old(self).scanner),
            final(self).had_error == old(self).had_error,
            final(self).diagnostics@ == old(self).diagnostics@,
            final(self).measure() == old(self).measure(),
    {
        let index = self.compiling_chunk.add_constant(value);
        index
    }

    /// Adds a value to the pool and emits the `Constant` instruction that
    /// pushes it; the emitted index always points into the pool.
    fn emit_constant(&mut self, value: Value)
        requires
            old(self).wf(),
            value_wf(value),
        ensures
            Self::parse_step(*old(self), *final(self)),
            final(self).compiling_chunk.code@ == old(self).compiling_chunk.code@.push(
                OpCode::Constant(old(self).compiling_chunk.constants@.len() as usize),
            ),
            final(self).compiling_chunk.constants@ == old(self).compiling_chunk.constants@.push(
                value,
            ),
            final(self).compiling_chunk.line_numbers@ == old(self).compiling_chunk.line_numbers@.push(old(self).previous.line),
            same_token(final(self).previous, old(self).previous),
            same_token(final(self).current, old(self).current),
            same_scanner(final(self).scanner, old(self).scanner),
            final(self).had_error == old(self).had_error,
            final(self).diagnostics@ == old(self).diagnostics@,
            final(self).measure() == old(self).measure(),
    {
        let ghost s0 = *self;
        let constant_index = self.make_constant(value);
        let ghost s1 = *self;
        self.emit_byte(OpCode::Constant(constant_index));
        proof {
            Self::lemma_parse_step_trans(s0, s1, *self);
        }
    }

    /// The number rule: reads the token last consumed as a numeric literal
    /// and emits the constant holding its exact rational value. A lexeme
    /// that does not parse (malformed, or out of the machine range) is
    /// reported and `0` is emitted in its place so parsing can continue.
    fn number(&mut self)
        requires
            old(self).wf(),
        ensures
            Self::parse_step(*old(self), *final(self)),
            same_token(final(self).previous, old(self).previous),
            same_token(final(self).current, old(self).current),
            same_scanner(final(self).scanner, old(self).scanner),
            final(self).measure() == old(self).measure(),
            ({
                let lex = old(self).previous.lexeme@;
                let pool = old(self).compiling_chunk.constants@;
                if number_lexeme_wf(lex) && fits_i64(lexeme_num(lex)) && fits_i64(
                    lexeme_den(lex),
                ) {
                    &&& final(self).compiling_chunk.constants@ == pool.push(
                        Value::Number(
                            Rational {
                                num: lexeme_num(lex) as i64,
                                den: lexeme_den(lex) as i64,
                            },
                        ),
                    )
                    &&& final(self).had_error == old(self).had_error
                } else {
                    &&& final(self).compiling_chunk.constants@ == pool.push(
                        Value::Number(Rational { num: 0, den: 1 }),
                    )
                    &&& final(self).had_error
                }
            }),
            final(self).compiling_chunk.code@ == old(self).compiling_chunk.code@.push(
                OpCode::Constant(old(self).compiling_chunk.constants@.len() as usize),
            ),
            emits_expr(*old(self), *final(self)),
            !old(self).had_error ==> ({
                let n = sp_number(
                    st_of(*old(self)),
                    old(self).compiling_chunk.constants@.len() as int,
                );
                &&& (!final(self).had_error <==> n.ok)
                &&& (!n.ok ==> final(self).diagnostics@.len() > old(self).diagnostics@.len()
                    && diag_matches(
                        final(self).diagnostics@[old(self).diagnostics@.len() as int],
                        n.err,
                    ))
                &&& (n.ok ==> {
                    &&& st_of(*final(self)) == n.st
                    &&& emitted(*old(self), *final(self)) == n.code
                    &&& emitted_consts(*old(self), *final(self)) == n.consts
                    &&& emitted_lines(*old(self), *final(self)) == n.lines
                    &&& crate::chunk::evaluates(
                        emitted(*old(self), *final(self)),
                        final(self).compiling_chunk.constants@,
                        n.val,
                    )
                })
            }),
    {
        let parsed = parse_number_chars(&self.previous.lexeme);
        match parsed {
            Some(v) => {
                self.emit_constant(Value::Number(v));
            },
            None => {
                let ghost s0 = *self;
                let mut message = str_chars("Failed to parse number: ");
                proof {
                    assert(self.previous.lexeme@.subrange(0, 0) =~= Seq::<char>::empty());
                    assert(message@ + Seq::<char>::empty() =~= message@);
                }
                let mut k: usize = 0;
                while k < self.previous.lexeme.len()
                    invariant
                        k <= self.previous.lexeme@.len(),
                        message@ == "Failed to parse number: "@ + self.previous.lexeme@.subrange(
                            0,
                            k as int,
                        ),
                    decreases self.previous.lexeme@.len() - k,
                {
                    message.push(self.previous.lexeme[k]);
                    k = k + 1;
                    proof {
                        assert(self.previous.lexeme@.subrange(0, k as int)
                            =~= self.previous.lexeme@.subrange(0, k - 1).push(
                            self.previous.lexeme@[k - 1],
                        ));
                        assert("Failed to parse number: "@ + self.previous.lexeme@.subrange(
                            0,
                            k as int,
                        ) =~= ("Failed to parse number: "@ + self.previous.lexeme@.subrange(
                            0,
                            k - 1,
                        )).push(self.previous.lexeme@[k - 1]));
                    }
                }
                proof {
                    assert(self.previous.lexeme@.subrange(0, self.previous.lexeme@.len() as int)
                        =~= self.previous.lexeme@);
                }
                self.error(message);
                let ghost s1 = *self;
                self.emit_constant(Value::Number(Rational { num: 0, den: 1 }));
                proof {
                    Self::lemma_parse_step_trans(s0, s1, *self);
                    if !old(self).had_error {
                        let n = sp_number(
                            st_of(*old(self)),
                            old(self).compiling_chunk.constants@.len() as int,
                        );
                        assert(!n.ok);
                        assert(s0.diagnostics@ == old(self).diagnostics@);
                        assert(self.diagnostics@.len() == old(self).diagnostics@.len() + 1);
                        assert(diag_matches(
                            self.diagnostics@[old(self).diagnostics@.len() as int],
                            n.err,
                        ));
                    }
                }
            },
        }
        proof {
            let e = emitted(*old(self), *self);
            let op = OpCode::Constant(old(self).compiling_chunk.constants@.len() as usize);
            assert(e =~= seq![op]);
            crate::chunk::lemma_seg_single(op);
            if !old(self).had_error && !self.had_error {
                let n = sp_number(
                    st_of(*old(self)),
                    old(self).compiling_chunk.constants@.len() as int,
                );
                let pool = self.compiling_chunk.constants@;
                assert(emitted_consts(*old(self), *self) =~= n.consts);
                assert(emitted_lines(*old(self), *self) =~= n.lines);
                assert(emitted(*old(self), *self) =~= n.code);
                let idx = old(self).compiling_chunk.constants@.len() as usize;
                crate::chunk::lemma_seg_exec_single(op, pool);
                assert(old(self).compiling_chunk.constants.len() == old(self).compiling_chunk.constants@.len());
                assert(parsed is Some);
                assert(pool == old(self).compiling_chunk.constants@.push(
                    Value::Number(parsed->0),
                ));
                assert(pool[idx as int] == Value::Number(parsed->0));
                assert forall|stack: Seq<Value>|
                    crate::chunk::seg_exec(e, pool, stack) == crate::chunk::eval_out(
                        stack,
                        n.val,
                    ) by {
                    assert(crate::chunk::seg_exec(seq![op], pool, stack)
                        == crate::chunk::seg_step(op, pool, stack));
                    assert(idx < pool.len());
                    assert(parsed is Some);
                    assert(pool[idx as int] == Value::Number(parsed->0));
                    assert(pool[idx as int] == Value::Number(
                        Rational {
                            num: lexeme_num(old(self).previous.lexeme@) as i64,
                            den: lexeme_den(old(self).previous.lexeme@) as i64,
                        },
                    ));
                    assert(crate::chunk::seg_step(op, pool, stack) == crate::chunk::SegOut::More(
                        stack.push(pool[idx as int]),
                    ));
                }
            }
        }
    }

    /// Parses one full expression: precedence climbing from the loosest
    /// real level.
    fn expression(&mut self)
        requires
            old(self).wf(),
        ensures
            Self::parse_step(*old(self), *final(self)),
            !final(self).had_error ==> emits_expr(*old(self), *final(self)),
            old(self).current.kind != TokenType::Error ==> final(self).current.kind
                != TokenType::Error,
            !old(self).had_error && old(self).current.kind != TokenType::Error ==> ({
                let r = sp_parse_prec_at(
                    old(self).scanner.source@,
                    st_of(*old(self)),
                    1,
                    old(self).compiling_chunk.constants@.len() as int,
                );
                &&& (!final(self).had_error <==> r.ok)
                &&& (!r.ok ==> final(self).diagnostics@.len() > old(self).diagnostics@.len()
                    && diag_matches(
                        final(self).diagnostics@[old(self).diagnostics@.len() as int],
                        r.err,
                    ))
                &&& (r.ok ==> {
                    &&& st_of(*final(self)) == r.st
                    &&& emitted(*old(self), *final(self)) == r.code
                    &&& emitted_consts(*old(self), *final(self)) == r.consts
                    &&& emitted_lines(*old(self), *final(self)) == r.lines
                    &&& crate::chunk::evaluates(
                        emitted(*old(self), *final(self)),
                        final(self).compiling_chunk.constants@,
                        r.val,
                    )
                })
            }),
        decreases old(self).measure(), 1int,
    {
        self.parse_precedence(Precedence::Assignment);
    }

    /// The core of the Pratt parser. Consumes one token and runs its prefix
    /// rule (reporting "Expect expression." if it has none), then keeps
    /// consuming infix operators as long as the lookahead binds at least as
    /// tightly as `precedence`. On a clean run it recognises exactly what
    /// the specification-level parse at the same level recognises, lands in
    /// the same state, and emits code computing the same value.
    #[verifier::rlimit(100)]
    fn parse_precedence(&mut self, precedence: Precedence)
        requires
            old(self).wf(),
            spec_rank(precedence) >= 1,
        ensures
            Self::parse_step(*old(self), *final(self)),
            !final(self).had_error ==> emits_expr(*old(self), *final(self)),
            old(self).current.kind != TokenType::Error ==> final(self).current.kind
                != TokenType::Error,
            !old(self).had_error && old(self).current.kind != TokenType::Error ==> ({
                let r = sp_parse_prec_at(
                    old(self).scanner.source@,
                    st_of(*old(self)),
                    spec_rank(precedence),
                    old(self).compiling_chunk.constants@.len() as int,
                );
                &&& (!final(self).had_error <==> r.ok)
                &&& (!r.ok ==> final(self).diagnostics@.len() > old(self).diagnostics@.len()
                    && diag_matches(
                        final(self).diagnostics@[old(self).diagnostics@.len() as int],
                        r.err,
                    ))
                &&& (r.ok ==> {
                    &&& st_of(*final(self)) == r.st
                    &&& emitted(*old(self), *final(self)) == r.code
                    &&& emitted_consts(*old(self), *final(self)) == r.consts
                    &&& emitted_lines(*old(self), *final(self)) == r.lines
                    &&& crate::chunk::evaluates(
                        emitted(*old(self), *final(self)),
                        final(self).compiling_chunk.constants@,
                        r.val,
                    )
                })
            }),
        decreases old(self).measure(), 0int,
    {
        let ghost pre = *self;
        let ghost src = pre.scanner.source@;
        let ghost st0 = st_of(pre);
        let ghost minr = spec_rank(precedence);
        let ghost pn0 = pre.compiling_chunk.constants@.len() as int;
        let ghost entry_clean = !pre.had_error && pre.current.kind != TokenType::Error;
        proof {
            if entry_clean {
                lemma_sp_advance_measure(src, st0);
            }
        }
        self.advance();
        let ghost st1sp = sp_advance(src, st0);
        proof {
            if entry_clean && !self.had_error {
                assert(!scan_errs(src, st0));
                assert(st_of(*self) == st1sp);
            }
        }
        let ghost sA = *self;
        let prefix_rule = get_rule(self.previous.kind);
        match prefix_rule.prefix {
            Some(act) => {
                proof {
                    assert(spec_get_rule(TokenType::Eof).prefix is None);
                    assert(pre.current.kind !is Eof);
                    assert(self.measure() < pre.measure());
                }
                let ghost s1 = *self;
                match act {
                    ParseAct::Number => self.number(),
                    ParseAct::Grouping => self.grouping(),
                    ParseAct::Unary => self.unary(),
                    ParseAct::Binary => self.binary(),
                }
                proof {
                    Self::lemma_parse_step_trans(pre, s1, *self);
                    assert(pre.compiling_chunk.code@ == s1.compiling_chunk.code@);
                    assert(pre.compiling_chunk.constants@ == s1.compiling_chunk.constants@);
                    assert(pre.compiling_chunk.line_numbers@ == s1.compiling_chunk.line_numbers@);
                    assert(emitted(pre, *self) == emitted(s1, *self));
                    assert(emitted_consts(pre, *self) == emitted_consts(s1, *self));
                    assert(emitted_lines(pre, *self) == emitted_lines(s1, *self));
                }
            },
            None => {
                let ghost s1 = *self;
                self.error(str_chars("Expect expression."));
                proof {
                    Self::lemma_parse_step_trans(pre, s1, *self);
                    if entry_clean {
                        let r = sp_parse_prec_at(src, st0, minr, pn0);
                        if scan_errs(src, st0) {
                            assert(!r.ok && r.err == scan_err_diag(src, st0));
                            assert(pre.diagnostics@.len() < s1.diagnostics@.len());
                            assert(diag_matches(
                                s1.diagnostics@[pre.diagnostics@.len() as int],
                                r.err,
                            ));
                            assert(self.diagnostics@[pre.diagnostics@.len() as int]
                                == s1.diagnostics@[pre.diagnostics@.len() as int]);
                        } else {
                            assert(s1.diagnostics@ == pre.diagnostics@);
                            assert(st_of(s1) == st1sp);
                            assert(!r.ok && r.err == pdiag_at(
                                st1sp.prev,
                                "Expect expression."@,
                            ));
                            assert(self.diagnostics@.len() == pre.diagnostics@.len() + 1);
                            assert(diag_matches(
                                self.diagnostics@[pre.diagnostics@.len() as int],
                                r.err,
                            ));
                        }
                    }
                }
                return ;
            },
        }
        let ghost spp: SpRes = ({
            let act = spec_get_rule(st1sp.prev.kind).prefix->0;
            match act {
                ParseAct::Number => sp_number(st1sp, pn0),
                ParseAct::Grouping => sp_grouping(src, st1sp, pn0, (cfuel(src) - 1) as nat),
                ParseAct::Unary => sp_unary(src, st1sp, pn0, (cfuel(src) - 1) as nat),
                ParseAct::Binary => sp_fail(st1sp, pdiag_at(st1sp.prev, Seq::empty())),
            }
        });
        proof {
            if entry_clean && !scan_errs(src, st0) {
                let act = spec_get_rule(st1sp.prev.kind).prefix->0;
                if act is Grouping {
                    lemma_sp_grouping_agree(src, st1sp, pn0, (cfuel(src) - 1) as nat, cfuel(src));
                }
                if act is Unary {
                    lemma_sp_unary_agree(src, st1sp, pn0, (cfuel(src) - 1) as nat, cfuel(src));
                }
                assert(!self.had_error <==> spp.ok);
                if !spp.ok {
                    assert(sA.diagnostics@ == pre.diagnostics@);
                    assert(self.diagnostics@.len() > pre.diagnostics@.len());
                    assert(diag_matches(
                        self.diagnostics@[pre.diagnostics@.len() as int],
                        spp.err,
                    ));
                }
                if spp.ok && !self.had_error {
                    assert(st_of(*self) == spp.st);
                    assert(emitted(pre, *self) == spp.code);
                    assert(emitted_consts(pre, *self) == spp.consts);
                    assert(emitted_lines(pre, *self) == spp.lines);
                    assert(crate::chunk::evaluates(
                        emitted(pre, *self),
                        self.compiling_chunk.constants@,
                        spp.val,
                    ));
                }
            }
        }
        let ghost entered_clean = !self.had_error;
        let ghost pL = *self;
        let ghost st1g = st_of(*self);
        let ghost pn1 = self.compiling_chunk.constants@.len() as int;
        let ghost v1g = spp.val;
        let ghost mut vg: crate::chunk::EvalRes = spp.val;
        proof {
            if entry_clean && entered_clean {
                assert(emitted(pL, *self) =~= Seq::<OpCode>::empty());
                assert(emitted_consts(pL, *self) =~= Seq::<Value>::empty());
                assert(emitted_lines(pL, *self) =~= Seq::<usize>::empty());
                let t = sp_infix_at(src, st1g, minr, v1g, pn1);
                assert(Seq::<OpCode>::empty() + t.code =~= t.code);
                assert(Seq::<Value>::empty() + t.consts =~= t.consts);
                assert(Seq::<usize>::empty() + t.lines =~= t.lines);
            }
        }
        loop
            invariant_except_break
                entry_clean && entered_clean && !self.had_error ==> ({
                    let t = sp_infix_at(src, st1g, minr, v1g, pn1);
                    let cur = sp_infix_at(
                        src,
                        st_of(*self),
                        minr,
                        vg,
                        self.compiling_chunk.constants@.len() as int,
                    );
                    &&& t.ok == cur.ok
                    &&& (t.ok ==> {
                        &&& t.st == cur.st
                        &&& t.val == cur.val
                        &&& t.code == emitted(pL, *self) + cur.code
                        &&& t.consts == emitted_consts(pL, *self) + cur.consts
                        &&& t.lines == emitted_lines(pL, *self) + cur.lines
                    })
                    &&& (!t.ok ==> t.err == cur.err)
                    &&& crate::chunk::evaluates(
                        emitted(pre, *self),
                        self.compiling_chunk.constants@,
                        vg,
                    )
                }),
            invariant
                self.wf(),
                Self::parse_step(pre, *self),
                Self::parse_step(pL, *self),
                self.measure() < pre.measure(),
                pre == *old(self),
                spec_rank(precedence) >= 1,
                minr == spec_rank(precedence),
                src == pre.scanner.source@,
                self.current.kind != TokenType::Error,
                entered_clean || self.had_error,
                pn1 == pL.compiling_chunk.constants@.len() as int,
                !self.had_error ==> emits_expr(pre, *self),
                entry_clean && entered_clean && self.had_error ==> (!sp_infix_at(
                    src,
                    st1g,
                    minr,
                    v1g,
                    pn1,
                ).ok && self.diagnostics@.len() > pre.diagnostics@.len() && diag_matches(
                    self.diagnostics@[pre.diagnostics@.len() as int],
                    sp_infix_at(src, st1g, minr, v1g, pn1).err,
                )),
            ensures
                Self::parse_step(pre, *self),
                Self::parse_step(pL, *self),
                !self.had_error ==> emits_expr(pre, *self),
                self.measure() < pre.measure(),
                self.current.kind != TokenType::Error,
                entry_clean && entered_clean ==> ({
                    let t = sp_infix_at(src, st1g, minr, v1g, pn1);
                    &&& (!self.had_error <==> t.ok)
                    &&& (!self.had_error ==> {
                        &&& t.val == vg
                        &&& t.st == st_of(*self)
                        &&& t.code == emitted(pL, *self)
                        &&& t.consts == emitted_consts(pL, *self)
                        &&& t.lines == emitted_lines(pL, *self)
                        &&& crate::chunk::evaluates(
                            emitted(pre, *self),
                            self.compiling_chunk.constants@,
                            vg,
                        )
                    })
                }),
            decreases self.measure(),
        {
            let ghost itst = st_of(*self);
            let ghost pnc = self.compiling_chunk.constants@.len() as int;
            proof {
                if entry_clean && entered_clean && !self.had_error {
                    lemma_sp_advance_measure(src, itst);
                }
            }
            let rule = get_rule(self.current.kind);
            if precedence.rank() > rule.precedence.rank() {
                proof {
                    if entry_clean && entered_clean && !self.had_error {
                        let cur = sp_infix_at(src, itst, minr, vg, pnc);
                        assert(cur.ok && cur.val == vg && cur.st == itst && cur.code
                            == Seq::<OpCode>::empty() && cur.consts == Seq::<Value>::empty()
                            && cur.lines == Seq::<usize>::empty());
                        let t = sp_infix_at(src, st1g, minr, v1g, pn1);
                        if t.ok {
                            assert(t.code =~= emitted(pL, *self));
                            assert(t.consts =~= emitted_consts(pL, *self));
                            assert(t.lines =~= emitted_lines(pL, *self));
                        }
                    }
                }
                break ;
            }
            proof {
                assert(spec_get_rule(TokenType::Eof).precedence == Precedence::Lowest);
                assert(self.current.kind !is Eof);
            }
            let ghost it0 = *self;
            self.advance();
            let ghost it1 = *self;
            proof {
                if entry_clean && entered_clean && !it0.had_error && !self.had_error {
                    assert(!scan_errs(src, itst));
                    assert(st_of(*self) == sp_advance(src, itst));
                }
                if entry_clean && entered_clean && !it0.had_error && self.had_error {
                    assert(scan_errs(src, itst));
                    let cur = sp_infix_at(src, itst, minr, vg, pnc);
                    assert(!cur.ok && cur.err == scan_err_diag(src, itst));
                    assert(!sp_infix_at(src, st1g, minr, v1g, pn1).ok);
                    assert(it0.diagnostics@.len() == pre.diagnostics@.len());
                    assert(diag_matches(
                        self.diagnostics@[pre.diagnostics@.len() as int],
                        sp_infix_at(src, st1g, minr, v1g, pn1).err,
                    ));
                }
                if entry_clean && entered_clean && it0.had_error {
                    assert(pre.diagnostics@.len() < it0.diagnostics@.len());
                    assert(self.diagnostics@[pre.diagnostics@.len() as int]
                        == it0.diagnostics@[pre.diagnostics@.len() as int]);
                }
            }
            match rule.infix {
                Some(act) => {
                    proof {
                        assert(act is Binary);
                    }
                    match act {
                        ParseAct::Number => self.number(),
                        ParseAct::Grouping => self.grouping(),
                        ParseAct::Unary => self.unary(),
                        ParseAct::Binary => self.binary(),
                    }
                    proof {
                        Self::lemma_parse_step_trans(it0, it1, *self);
                        Self::lemma_parse_step_trans(pre, it0, *self);
                        Self::lemma_parse_step_trans(pL, it0, *self);
                        if !self.had_error {
                            assert(it0.compiling_chunk.code@ == it1.compiling_chunk.code@);
                            assert(emitted(pre, it1) == emitted(pre, it0));
                            lemma_emitted_compose(pre, it1, *self);
                            assert forall|d: int| d >= 0 implies crate::chunk::seg_safe(
                                emitted(pre, *self),
                                d,
                            ) by {
                                assert(crate::chunk::seg_safe(emitted(pre, it1), d));
                                assert(crate::chunk::seg_safe(emitted(it1, *self), d + 1));
                                crate::chunk::lemma_seg_concat(
                                    emitted(pre, it1),
                                    emitted(it1, *self),
                                    d,
                                );
                            }
                            crate::chunk::lemma_seg_concat(
                                emitted(pre, it1),
                                emitted(it1, *self),
                                0,
                            );
                        }
                        if entry_clean && entered_clean && !it0.had_error && !it1.had_error {
                            let st1i = sp_advance(src, itst);
                            let rankn = spec_rank(spec_next_higher(
                                spec_get_rule(itst.cur.kind).precedence,
                            ));
                            let rp = sp_parse_prec_at(src, st1i, rankn, pnc);
                            lemma_sp_advance_measure(src, itst);
                            lemma_sp_pp_agree(
                                src,
                                st1i,
                                rankn,
                                pnc,
                                (cfuel(src) - 1) as nat,
                                cfuel(src),
                            );
                            let opk = itst.cur.kind;
                            if !self.had_error {
                                assert(rp.ok && is_arith_kind(opk));
                                let opc = arith_op_for(opk);
                                let nv = crate::chunk::eval_bin(opc, vg, rp.val);
                                let pnn = pnc + rp.consts.len() as int;
                                lemma_sp_infix_agree(
                                    src,
                                    rp.st,
                                    minr,
                                    nv,
                                    pnn,
                                    (cfuel(src) - 1) as nat,
                                    cfuel(src),
                                );
                                assert(emitted_consts(it1, *self) == rp.consts);
                                assert(self.compiling_chunk.constants@.len() as int == pnn);
                                let cur = sp_infix_at(src, itst, minr, vg, pnc);
                                let nxt = sp_infix_at(src, rp.st, minr, nv, pnn);
                                assert(cur.ok == nxt.ok);
                                assert(st_of(*self) == rp.st);
                                lemma_emitted_compose(pL, it1, *self);
                                assert(emitted(pL, it1) == emitted(pL, it0));
                                assert(emitted_consts(pL, it1) == emitted_consts(pL, it0));
                                assert(emitted_lines(pL, it1) == emitted_lines(pL, it0));
                                if nxt.ok {
                                    assert(cur.code == rp.code + seq![opc] + nxt.code);
                                    assert(cur.consts == rp.consts + nxt.consts);
                                    assert(cur.lines == rp.lines + seq![
                                        rp.st.prev.line as usize,
                                    ] + nxt.lines);
                                    assert(emitted(pL, *self) =~= emitted(pL, it0) + (rp.code
                                        + seq![opc]));
                                    assert(emitted_consts(pL, *self) =~= emitted_consts(pL, it0)
                                        + rp.consts);
                                    assert(emitted_lines(pL, *self) =~= emitted_lines(pL, it0)
                                        + (rp.lines + seq![rp.st.prev.line as usize]));
                                    let t = sp_infix_at(src, st1g, minr, v1g, pn1);
                                    assert(t.code == emitted(pL, it0) + cur.code);
                                    assert(emitted(pL, it0) + (rp.code + seq![opc] + nxt.code)
                                        =~= (emitted(pL, it0) + (rp.code + seq![opc]))
                                        + nxt.code);
                                    assert(t.code == emitted(pL, *self) + nxt.code);
                                    assert(emitted_consts(pL, it0) + (rp.consts + nxt.consts)
                                        =~= (emitted_consts(pL, it0) + rp.consts) + nxt.consts);
                                    assert(t.consts == emitted_consts(pL, *self) + nxt.consts);
                                    assert(emitted_lines(pL, it0) + (rp.lines + seq![
                                        rp.st.prev.line as usize,
                                    ] + nxt.lines) =~= (emitted_lines(pL, it0) + (rp.lines
                                        + seq![rp.st.prev.line as usize])) + nxt.lines);
                                    assert(t.lines == emitted_lines(pL, *self) + nxt.lines);
                                }
                                // the code emitted so far still evaluates over the grown pool
                                let pool0 = it0.compiling_chunk.constants@;
                                let pool = self.compiling_chunk.constants@;
                                lemma_emitted_in_bounds(pre, it0);
                                crate::chunk::lemma_evaluates_pool_extend(
                                    emitted(pre, it0),
                                    pool0,
                                    pool,
                                    vg,
                                );
                                crate::chunk::lemma_evaluates_chain(
                                    emitted(pre, it1),
                                    emitted(it1, *self),
                                    pool,
                                    vg,
                                    nv,
                                );
                                assert(crate::chunk::evaluates(emitted(pre, *self), pool, nv));
                                vg = nv;
                            } else {
                                assert(!(rp.ok && is_arith_kind(opk)));
                                let cur = sp_infix_at(src, itst, minr, vg, pnc);
                                assert(!cur.ok);
                                assert(cur.err == (if !rp.ok {
                                    rp.err
                                } else {
                                    pdiag_at(
                                        rp.st.prev,
                                        "Unexpected binary operator: "@ + itst.cur.lexeme,
                                    )
                                }));
                                assert(!sp_infix_at(src, st1g, minr, v1g, pn1).ok);
                                assert(it1.diagnostics@.len() == pre.diagnostics@.len());
                                assert(diag_matches(
                                    self.diagnostics@[pre.diagnostics@.len() as int],
                                    sp_infix_at(src, st1g, minr, v1g, pn1).err,
                                ));
                            }
                        }
                        if entry_clean && entered_clean && it0.had_error {
                            assert(self.diagnostics@[pre.diagnostics@.len() as int]
                                == it0.diagnostics@[pre.diagnostics@.len() as int]);
                        }
                    }
                },
                None => {
                    proof {
                        Self::lemma_parse_step_trans(pre, it0, *self);
                        Self::lemma_parse_step_trans(pL, it0, *self);
                        if entry_clean && entered_clean && it0.had_error {
                            assert(self.diagnostics@[pre.diagnostics@.len() as int]
                                == it0.diagnostics@[pre.diagnostics@.len() as int]);
                        }
                        if entry_clean && entered_clean && !it0.had_error && !self.had_error {
                            let cur = sp_infix_at(src, itst, minr, vg, pnc);
                            assert(cur.ok && cur.val == vg && cur.st == st_of(*self) && cur.code
                                == Seq::<OpCode>::empty() && cur.consts == Seq::<Value>::empty()
                                && cur.lines == Seq::<usize>::empty());
                            let t = sp_infix_at(src, st1g, minr, v1g, pn1);
                            if t.ok {
                                assert(emitted(pL, *self) == emitted(pL, it0));
                                assert(emitted_consts(pL, *self) == emitted_consts(pL, it0));
                                assert(emitted_lines(pL, *self) == emitted_lines(pL, it0));
                                assert(t.code =~= emitted(pL, *self));
                                assert(t.consts =~= emitted_consts(pL, *self));
                                assert(t.lines =~= emitted_lines(pL, *self));
                            }
                        }
                    }
                    break ;
                },
            }
        }
        proof {
            if entry_clean {
                let r = sp_parse_prec_at(src, st0, minr, pn0);
                let dlen = pre.diagnostics@.len() as int;
                if scan_errs(src, st0) {
                    assert(!r.ok && r.err == scan_err_diag(src, st0));
                    assert(self.had_error);
                    assert(dlen < sA.diagnostics@.len());
                    assert(diag_matches(sA.diagnostics@[dlen], r.err));
                    Self::lemma_parse_step_trans(sA, pL, *self);
                    assert(self.diagnostics@[dlen] == sA.diagnostics@[dlen]);
                } else {
                    if spp.ok && entered_clean {
                        assert(pn0 + spp.consts.len() as int == pn1);
                        lemma_sp_infix_agree(
                            src,
                            spp.st,
                            minr,
                            spp.val,
                            pn1,
                            (cfuel(src) - 1) as nat,
                            cfuel(src),
                        );
                        let t = sp_infix_at(src, st1g, minr, v1g, pn1);
                        assert(sp_infix(src, spp.st, minr, spp.val, pn1, (cfuel(src) - 1) as nat)
                            == t);
                        if !self.had_error {
                            assert(r.ok && r.val == t.val && r.st == t.st);
                            assert(r.code == spp.code + t.code);
                            lemma_emitted_compose(pre, pL, *self);
                            assert(r.code == emitted(pre, *self));
                            assert(r.consts == emitted_consts(pre, *self));
                            assert(r.lines == emitted_lines(pre, *self));
                        } else {
                            assert(!t.ok);
                            assert(!r.ok);
                            assert(r.err == t.err);
                            assert(diag_matches(self.diagnostics@[dlen], t.err));
                        }
                    } else {
                        assert(!r.ok);
                        assert(self.had_error);
                        assert(r.err == spp.err);
                        assert(dlen < pL.diagnostics@.len());
                        assert(diag_matches(pL.diagnostics@[dlen], spp.err));
                        assert(self.diagnostics@[dlen] == pL.diagnostics@[dlen]);
                    }
                }
            }
        }
    }

    /// The grouping rule: with `(` just consumed, parses the inner
    /// expression and requires the matching `)`. Parentheses emit no
    /// bytecode of their own.
    fn grouping(&mut self)
        requires
            old(self).wf(),
        ensures
            Self::parse_step(*old(self), *final(self)),
            !final(self).had_error ==> emits_expr(*old(self), *final(self)),
            old(self).current.kind != TokenType::Error ==> final(self).current.kind
                != TokenType::Error,
            !old(self).had_error && old(self).current.kind != TokenType::Error ==> ({
                let r = sp_grouping_at(
                    old(self).scanner.source@,
                    st_of(*old(self)),
                    old(self).compiling_chunk.constants@.len() as int,
                );
                &&& (!final(self).had_error <==> r.ok)
                &&& (!r.ok ==> final(self).diagnostics@.len() > old(self).diagnostics@.len()
                    && diag_matches(
                        final(self).diagnostics@[old(self).diagnostics@.len() as int],
                        r.err,
                    ))
                &&& (r.ok ==> {
                    &&& st_of(*final(self)) == r.st
                    &&& emitted(*old(self), *final(self)) == r.code
                    &&& emitted_consts(*old(self), *final(self)) == r.consts
                    &&& emitted_lines(*old(self), *final(self)) == r.lines
                    &&& crate::chunk::evaluates(
                        emitted(*old(self), *final(self)),
                        final(self).compiling_chunk.constants@,
                        r.val,
                    )
                })
            }),
        decreases old(self).measure(), 2int,
    {
        let ghost pre = *self;
        self.expression();
        let ghost s1 = *self;
        self.consume(TokenType::RightParen, "Expect ')' after expression.");
        proof {
            Self::lemma_parse_step_trans(pre, s1, *self);
            if !self.had_error {
                assert(s1.compiling_chunk.code@ == self.compiling_chunk.code@);
                assert(emitted(pre, *self) == emitted(pre, s1));
            }
            if !pre.had_error && pre.current.kind != TokenType::Error {
                let src = pre.scanner.source@;
                let rp = sp_parse_prec_at(
                    src,
                    st_of(pre),
                    1,
                    pre.compiling_chunk.constants@.len() as int,
                );
                if rp.ok && !self.had_error {
                    assert(st_of(*self) == sp_advance(src, rp.st));
                }
                if self.had_error {
                    let dlen = pre.diagnostics@.len() as int;
                    if !rp.ok {
                        assert(dlen < s1.diagnostics@.len());
                        assert(diag_matches(s1.diagnostics@[dlen], rp.err));
                        assert(self.diagnostics@[dlen] == s1.diagnostics@[dlen]);
                    } else {
                        assert(s1.diagnostics@ == pre.diagnostics@);
                        assert(st_of(s1) == rp.st);
                        assert(diag_matches(
                            self.diagnostics@[dlen],
                            sp_grouping_at(
                                src,
                                st_of(pre),
                                pre.compiling_chunk.constants@.len() as int,
                            ).err,
                        ));
                    }
                }
            }
        }
    }

    /// The unary rule: with the operator just consumed, parses its operand
    /// at `Unary` precedence (binding tighter than any binary operator),
    /// then emits `Negate` for `-`. The reserved `!` slot has no emitting
    /// action and is reported as an internal error rather than passed over.
    fn unary(&mut self)
        requires
            old(self).wf(),
        ensures
            Self::parse_step(*old(self), *final(self)),
            !final(self).had_error ==> emits_expr(*old(self), *final(self)),
            !final(self).had_error ==> old(self).previous.kind is Minus && final(self).compiling_chunk.code@.last() == OpCode::Negate,
            old(self).current.kind != TokenType::Error ==> final(self).current.kind
                != TokenType::Error,
            !old(self).had_error && old(self).current.kind != TokenType::Error ==> ({
                let r = sp_unary_at(
                    old(self).scanner.source@,
                    st_of(*old(self)),
                    old(self).compiling_chunk.constants@.len() as int,
                );
                &&& (!final(self).had_error <==> r.ok)
                &&& (!r.ok ==> final(self).diagnostics@.len() > old(self).diagnostics@.len()
                    && diag_matches(
                        final(self).diagnostics@[old(self).diagnostics@.len() as int],
                        r.err,
                    ))
                &&& (r.ok ==> {
                    &&& st_of(*final(self)) == r.st
                    &&& emitted(*old(self), *final(self)) == r.code
                    &&& emitted_consts(*old(self), *final(self)) == r.consts
                    &&& emitted_lines(*old(self), *final(self)) == r.lines
                    &&& crate::chunk::evaluates(
                        emitted(*old(self), *final(self)),
                        final(self).compiling_chunk.constants@,
                        r.val,
                    )
                })
            }),
        decreases old(self).measure(), 2int,
    {
        let ghost pre = *self;
        let operator = self.previous.duplicate();
        self.parse_precedence(Precedence::Unary);
        let ghost s1 = *self;
        match operator.kind {
            TokenType::Minus => self.emit_byte(OpCode::Negate),
            _ => {
                let mut message = str_chars("Unexpected unary operator: ");
                proof {
                    assert(operator.lexeme@.subrange(0, 0) =~= Seq::<char>::empty());
                    assert(message@ + Seq::<char>::empty() =~= message@);
                }
                let mut k: usize = 0;
                while k < operator.lexeme.len()
                    invariant
                        k <= operator.lexeme@.len(),
                        message@ == "Unexpected unary operator: "@ + operator.lexeme@.subrange(
                            0,
                            k as int,
                        ),
                    decreases operator.lexeme@.len() - k,
                {
                    message.push(operator.lexeme[k]);
                    k = k + 1;
                    proof {
                        assert(operator.lexeme@.subrange(0, k as int)
                            =~= operator.lexeme@.subrange(0, k - 1).push(
                            operator.lexeme@[k - 1],
                        ));
                        assert("Unexpected unary operator: "@ + operator.lexeme@.subrange(
                            0,
                            k as int,
                        ) =~= ("Unexpected unary operator: "@ + operator.lexeme@.subrange(
                            0,
                            k - 1,
                        )).push(operator.lexeme@[k - 1]));
                    }
                }
                proof {
                    assert(operator.lexeme@.subrange(0, operator.lexeme@.len() as int)
                        =~= operator.lexeme@);
                }
                self.error(message);
            },
        }
        proof {
            Self::lemma_parse_step_trans(pre, s1, *self);
            if !pre.had_error && pre.current.kind != TokenType::Error && self.had_error {
                let src = pre.scanner.source@;
                let rp = sp_parse_prec_at(
                    src,
                    st_of(pre),
                    8,
                    pre.compiling_chunk.constants@.len() as int,
                );
                let dlen = pre.diagnostics@.len() as int;
                if !rp.ok {
                    assert(dlen < s1.diagnostics@.len());
                    assert(diag_matches(s1.diagnostics@[dlen], rp.err));
                    assert(self.diagnostics@[dlen] == s1.diagnostics@[dlen]);
                } else {
                    assert(s1.diagnostics@ == pre.diagnostics@);
                    assert(st_of(s1) == rp.st);
                    assert(self.diagnostics@.len() == dlen + 1);
                    assert(diag_matches(
                        self.diagnostics@[dlen],
                        pdiag_at(
                            rp.st.prev,
                            "Unexpected unary operator: "@ + st_of(pre).prev.lexeme,
                        ),
                    ));
                }
            }
            if !self.had_error {
                lemma_emitted_compose(pre, s1, *self);
                let e2 = emitted(s1, *self);
                assert(e2 =~= seq![OpCode::Negate]);
                crate::chunk::lemma_seg_single(OpCode::Negate);
                assert forall|d: int| d >= 0 implies crate::chunk::seg_safe(
                    emitted(pre, *self),
                    d,
                ) by {
                    assert(crate::chunk::seg_safe(emitted(pre, s1), d));
                    crate::chunk::lemma_seg_concat(emitted(pre, s1), e2, d);
                }
                crate::chunk::lemma_seg_concat(emitted(pre, s1), e2, 0);
                if !pre.had_error && pre.current.kind != TokenType::Error {
                    let src = pre.scanner.source@;
                    let rp = sp_parse_prec_at(
                        src,
                        st_of(pre),
                        8,
                        pre.compiling_chunk.constants@.len() as int,
                    );
                    let pool = self.compiling_chunk.constants@;
                    crate::chunk::lemma_seg_exec_single(OpCode::Negate, pool);
                    assert forall|stack: Seq<Value>|
                        crate::chunk::seg_exec(emitted(pre, *self), pool, stack)
                            == crate::chunk::eval_out(stack, crate::chunk::eval_neg(rp.val)) by {
                        crate::chunk::lemma_seg_exec_concat(emitted(pre, s1), e2, pool, stack);
                        assert(crate::chunk::seg_exec(emitted(pre, s1), pool, stack)
                            == crate::chunk::eval_out(stack, rp.val));
                        match rp.val {
                            crate::chunk::EvalRes::Val(v) => {
                                let st1s = stack.push(Value::Number(v));
                                assert(crate::chunk::seg_exec(seq![OpCode::Negate], pool, st1s)
                                    == crate::chunk::seg_step(OpCode::Negate, pool, st1s));
                                assert(st1s.last() == Value::Number(v));
                                assert(st1s.drop_last() =~= stack);
                            },
                            _ => {},
                        }
                    }
                }
            }
        }
    }

    /// The binary rule: with the operator just consumed and the left
    /// operand's code already emitted, parses the right operand one
    /// precedence level tighter (left-associativity), then emits the
    /// operator's instruction — strictly post-order, matching stack
    /// evaluation. An operator outside `+ - * /` reaching this rule is an
    /// internal table error and is reported.
    fn binary(&mut self)
        requires
            old(self).wf(),
            spec_rank(spec_get_rule(old(self).previous.kind).precedence) <= 9,
        ensures
            Self::parse_step(*old(self), *final(self)),
            !final(self).had_error ==> emits_infix(*old(self), *final(self)),
            !final(self).had_error ==> {
                &&& is_arith_kind(old(self).previous.kind)
                &&& final(self).compiling_chunk.code@.last() == arith_op_for(
                    old(self).previous.kind,
                )
                &&& final(self).compiling_chunk.code@.len() >= old(self).compiling_chunk.code@.len() + 2
            },
            old(self).current.kind != TokenType::Error ==> final(self).current.kind
                != TokenType::Error,
            !old(self).had_error && old(self).current.kind != TokenType::Error ==> ({
                let rp = sp_parse_prec_at(
                    old(self).scanner.source@,
                    st_of(*old(self)),
                    spec_rank(spec_next_higher(spec_get_rule(old(self).previous.kind).precedence)),
                    old(self).compiling_chunk.constants@.len() as int,
                );
                &&& (!final(self).had_error <==> (rp.ok && is_arith_kind(
                    old(self).previous.kind,
                )))
                &&& (final(self).had_error ==> final(self).diagnostics@.len() > old(self).diagnostics@.len() && diag_matches(
                    final(self).diagnostics@[old(self).diagnostics@.len() as int],
                    if !rp.ok {
                        rp.err
                    } else {
                        pdiag_at(
                            rp.st.prev,
                            "Unexpected binary operator: "@ + st_of(*old(self)).prev.lexeme,
                        )
                    },
                ))
                &&& (!final(self).had_error ==> {
                    &&& st_of(*final(self)) == rp.st
                    &&& emitted(*old(self), *final(self)) == rp.code + seq![
                        arith_op_for(old(self).previous.kind),
                    ]
                    &&& emitted_consts(*old(self), *final(self)) == rp.consts
                    &&& emitted_lines(*old(self), *final(self)) == rp.lines + seq![
                        rp.st.prev.line as usize,
                    ]
                    &&& forall|lval: Rational|
                        crate::chunk::evaluates_infix(
                            emitted(*old(self), *final(self)),
                            final(self).compiling_chunk.constants@,
                            lval,
                            crate::chunk::eval_bin(
                                arith_op_for(old(self).previous.kind),
                                crate::chunk::EvalRes::Val(lval),
                                rp.val,
                            ),
                        )
                })
            }),
        decreases old(self).measure(), 2int,
    {
        let ghost pre = *self;
        let operator = self.previous.duplicate();
        let rule = get_rule(operator.kind);
        let next_higher_precedence = rule.precedence.next_higher();
        self.parse_precedence(next_higher_precedence);
        let ghost s1 = *self;
        match operator.kind {
            TokenType::Plus => self.emit_byte(OpCode::Add),
            TokenType::Minus => self.emit_byte(OpCode::Subtract),
            TokenType::Star => self.emit_byte(OpCode::Multiply),
            TokenType::Slash => self.emit_byte(OpCode::Divide),
            _ => {
                let mut message = str_chars("Unexpected binary operator: ");
                proof {
                    assert(operator.lexeme@.subrange(0, 0) =~= Seq::<char>::empty());
                    assert(message@ + Seq::<char>::empty() =~= message@);
                }
                let mut k: usize = 0;
                while k < operator.lexeme.len()
                    invariant
                        k <= operator.lexeme@.len(),
                        message@ == "Unexpected binary operator: "@ + operator.lexeme@.subrange(
                            0,
                            k as int,
                        ),
                    decreases operator.lexeme@.len() - k,
                {
                    message.push(operator.lexeme[k]);
                    k = k + 1;
                    proof {
                        assert(operator.lexeme@.subrange(0, k as int)
                            =~= operator.lexeme@.subrange(0, k - 1).push(
                            operator.lexeme@[k - 1],
                        ));
                        assert("Unexpected binary operator: "@ + operator.lexeme@.subrange(
                            0,
                            k as int,
                        ) =~= ("Unexpected binary operator: "@ + operator.lexeme@.subrange(
                            0,
                            k - 1,
                        )).push(operator.lexeme@[k - 1]));
                    }
                }
                proof {
                    assert(operator.lexeme@.subrange(0, operator.lexeme@.len() as int)
                        =~= operator.lexeme@);
                }
                self.error(message);
            },
        }
        proof {
            Self::lemma_parse_step_trans(pre, s1, *self);
            if !pre.had_error && pre.current.kind != TokenType::Error && self.had_error {
                let src = pre.scanner.source@;
                let rp = sp_parse_prec_at(
                    src,
                    st_of(pre),
                    spec_rank(spec_next_higher(spec_get_rule(pre.previous.kind).precedence)),
                    pre.compiling_chunk.constants@.len() as int,
                );
                let dlen = pre.diagnostics@.len() as int;
                if !rp.ok {
                    assert(dlen < s1.diagnostics@.len());
                    assert(diag_matches(s1.diagnostics@[dlen], rp.err));
                    assert(self.diagnostics@[dlen] == s1.diagnostics@[dlen]);
                } else {
                    assert(s1.diagnostics@ == pre.diagnostics@);
                    assert(st_of(s1) == rp.st);
                    assert(self.diagnostics@.len() == dlen + 1);
                    assert(diag_matches(
                        self.diagnostics@[dlen],
                        pdiag_at(
                            rp.st.prev,
                            "Unexpected binary operator: "@ + st_of(pre).prev.lexeme,
                        ),
                    ));
                }
            }
            if !self.had_error {
                lemma_emitted_compose(pre, s1, *self);
                let e2 = emitted(s1, *self);
                assert(e2 =~= seq![e2[0]]);
                assert(crate::chunk::op_effect(e2[0]) == -1 && !(e2[0] is Return) && !(e2[0]
                    is Constant) && !(e2[0] is Negate));
                crate::chunk::lemma_seg_single(e2[0]);
                assert forall|d: int| d >= 1 implies crate::chunk::seg_safe(
                    emitted(pre, *self),
                    d,
                ) by {
                    assert(crate::chunk::seg_safe(emitted(pre, s1), d));
                    crate::chunk::lemma_seg_concat(emitted(pre, s1), e2, d);
                }
                crate::chunk::lemma_seg_concat(emitted(pre, s1), e2, 1);
                if !pre.had_error && pre.current.kind != TokenType::Error {
                    let src = pre.scanner.source@;
                    let opc = arith_op_for(pre.previous.kind);
                    let rp = sp_parse_prec_at(
                        src,
                        st_of(pre),
                        spec_rank(spec_next_higher(spec_get_rule(pre.previous.kind).precedence)),
                        pre.compiling_chunk.constants@.len() as int,
                    );
                    let pool = self.compiling_chunk.constants@;
                    assert(e2 =~= seq![opc]);
                    crate::chunk::lemma_seg_exec_single(opc, pool);
                    assert forall|lval: Rational|
                        crate::chunk::evaluates_infix(
                            emitted(pre, *self),
                            pool,
                            lval,
                            crate::chunk::eval_bin(
                                opc,
                                crate::chunk::EvalRes::Val(lval),
                                rp.val,
                            ),
                        ) by {
                        assert forall|stack: Seq<Value>|
                            crate::chunk::seg_exec(
                                emitted(pre, *self),
                                pool,
                                stack.push(Value::Number(lval)),
                            ) == crate::chunk::eval_out(
                                stack,
                                crate::chunk::eval_bin(
                                    opc,
                                    crate::chunk::EvalRes::Val(lval),
                                    rp.val,
                                ),
                            ) by {
                            let stlv = stack.push(Value::Number(lval));
                            crate::chunk::lemma_seg_exec_concat(
                                emitted(pre, s1),
                                e2,
                                pool,
                                stlv,
                            );
                            assert(crate::chunk::seg_exec(emitted(pre, s1), pool, stlv)
                                == crate::chunk::eval_out(stlv, rp.val));
                            match rp.val {
                                crate::chunk::EvalRes::Val(b) => {
                                    let st2 = stlv.push(Value::Number(b));
                                    assert(crate::chunk::seg_exec(seq![opc], pool, st2)
                                        == crate::chunk::seg_step(opc, pool, st2));
                                    assert(st2.last() == Value::Number(b));
                                    assert(st2[st2.len() - 2] == Value::Number(lval));
                                    assert(st2.drop_last().drop_last() =~= stack);
                                },
                                _ => {},
                            }
                        }
                    }
                }
            }
        }
    }

    /// Error recovery for future multi-statement input: skips tokens until
    /// a statement boundary — just past a `;`, or in front of a declaration
    /// keyword or the end of input. The single-expression driver never needs
    /// it yet.
    #[verifier::loop_isolation(false)]
    pub fn synchronize(&mut self)
        requires
            old(self).wf(),
        ensures
            Self::parse_step(*old(self), *final(self)),
            crate::chunk::same_chunk(final(self).compiling_chunk, old(self).compiling_chunk),
            final(self).current.kind is Eof || final(self).previous.kind is Semicolon || (
            final(self).current.kind is Class || final(self).current.kind is Fun || final(self).current.kind is Var || final(self).current.kind is For || final(self).current.kind
                is If || final(self).current.kind is While || final(self).current.kind is Print
                || final(self).current.kind is Return),
    {
        let ghost pre = *self;
        loop
            invariant
                self.wf(),
                Self::parse_step(pre, *self),
                crate::chunk::same_chunk(self.compiling_chunk, pre.compiling_chunk),
            decreases self.measure(),
        {
            if self.check(TokenType::Eof) {
                return ;
            }
            if self.previous.kind == TokenType::Semicolon {
                return ;
            }
            match self.current.kind {
                TokenType::Class | TokenType::Fun | TokenType::Var | TokenType::For
                    | TokenType::If | TokenType::While | TokenType::Print | TokenType::Return => {
                    return ;
                },
                _ => {},
            }
            let ghost it0 = *self;
            self.advance();
            proof {
                Self::lemma_parse_step_trans(pre, it0, *self);
            }
        }
    }

    /// Compiles the source to a chunk: parses exactly one expression, then
    /// requires the end of input, then seals the chunk with `Return`. On
    /// success the chunk is well formed (parallel streams, every constant
    /// index in range), ends in `Return`, and is stack-safe; on any recorded
    /// error the chunk is discarded and the diagnostics — at least one —
    /// are handed back instead. On a fresh parser, compilation succeeds
    /// exactly when the specification-level parse (`sp_compile_at`) accepts
    /// the source, and the chunk's body then computes exactly that parse's
    /// value.
    pub fn compile(&mut self) -> (r: Result<Chunk, Vec<Diagnostic>>)
        requires
            old(self).wf(),
        ensures
            final(self).wf(),
            match r {
                Ok(c) => {
                    &&& c.wf()
                    &&& c.code@.len() > 0
                    &&& c.code@.last() == OpCode::Return
                    &&& crate::chunk::seg_safe(c.code@.subrange(0, c.code@.len() - 1), 0)
                    &&& crate::chunk::seg_net(c.code@.subrange(0, c.code@.len() - 1)) == 1
                },
                Err(ds) => ds@.len() > 0,
            },
            r is Ok ==> final(self).diagnostics@.len() == 0,
            st_of(*old(self)) == init_pstate() ==> ({
                let sp = sp_compile_at(old(self).scanner.source@);
                &&& (r is Ok <==> sp.ok)
                &&& (r matches Ok(c) ==> {
                    &&& c.code@ == sp.code
                    &&& c.constants@ == sp.consts
                    &&& c.line_numbers@ == sp.lines
                    &&& crate::chunk::evaluates(
                        c.code@.subrange(0, c.code@.len() - 1),
                        c.constants@,
                        sp.val,
                    )
                })
                &&& (r matches Err(ds) ==> ds@.len() > 0 && diag_matches(ds@[0], sp.err))
            }),
    {
        self.had_error = false;
        self.diagnostics = Vec::new();
        self.compiling_chunk = Chunk::new();
        let ghost s0 = *self;
        self.advance();
        let ghost s1 = *self;
        self.expression();
        proof {
            Self::lemma_parse_step_trans(s0, s1, *self);
        }
        let ghost s2 = *self;
        self.consume(TokenType::Eof, "Expect end of expression.");
        proof {
            Self::lemma_parse_step_trans(s0, s2, *self);
        }
        let ghost s3 = *self;
        if !self.had_error {
            self.emit_return();
            proof {
                assert(s2.compiling_chunk.code@ == s3.compiling_chunk.code@);
                assert(s0.compiling_chunk.code@ == s1.compiling_chunk.code@);
                assert(emitted(s1, s2) == emitted(s0, s2));
                assert(emitted(s0, s3) == emitted(s0, s2));
                let body = self.compiling_chunk.code@.subrange(
                    0,
                    self.compiling_chunk.code@.len() - 1,
                );
                assert(body =~= emitted(s0, s3));
            }
        }
        proof {
            if st_of(s0) == init_pstate() {
                let src = s0.scanner.source@;
                let stc = sp_advance(src, init_pstate());
                let sp = sp_compile_at(src);
                if !scan_errs(src, init_pstate()) {
                    assert(st_of(s1) == stc);
                    assert(s1.diagnostics@ == s0.diagnostics@);
                    let re = sp_parse_prec_at(src, stc, 1, 0);
                    if re.ok && !s2.had_error {
                        assert(st_of(s2) == re.st);
                        assert(s2.diagnostics@.len() == 0);
                        if re.st.cur.kind == TokenType::Eof && !scan_errs(src, re.st) {
                            assert(!s3.had_error);
                            assert(sp.ok);
                            assert(sp.val == re.val);
                            if !self.had_error {
                                assert(crate::chunk::evaluates(
                                    emitted(s0, s3),
                                    self.compiling_chunk.constants@,
                                    re.val,
                                ));
                                // the chunk is exactly the specification emitter's
                                assert(emitted_consts(s1, s2) == emitted_consts(s0, s2));
                                assert(emitted_lines(s1, s2) == emitted_lines(s0, s2));
                                assert(emitted_consts(s0, s3) == emitted_consts(s0, s2));
                                assert(emitted_lines(s0, s3) == emitted_lines(s0, s2));
                                assert(emitted(s0, s3) == re.code);
                                assert(emitted_consts(s0, s3) == re.consts);
                                assert(emitted_lines(s0, s3) == re.lines);
                                assert(s3.compiling_chunk.code@ =~= emitted(s0, s3));
                                assert(s3.compiling_chunk.constants@ =~= emitted_consts(s0, s3));
                                assert(s3.compiling_chunk.line_numbers@ =~= emitted_lines(
                                    s0,
                                    s3,
                                ));
                                let st2 = sp_advance(src, re.st);
                                assert(s3.previous.line as int == st2.prev.line);
                                assert(self.compiling_chunk.code@ =~= re.code + seq![
                                    OpCode::Return,
                                ]);
                                assert(self.compiling_chunk.constants@ =~= re.consts);
                                assert(self.compiling_chunk.line_numbers@ =~= re.lines + seq![
                                    st2.prev.line as usize,
                                ]);
                                assert(self.compiling_chunk.code@ == sp.code);
                                assert(self.compiling_chunk.constants@ == sp.consts);
                                assert(self.compiling_chunk.line_numbers@ == sp.lines);
                            }
                        } else {
                            assert(s3.had_error);
                            assert(!sp.ok);
                            if re.st.cur.kind != TokenType::Eof {
                                assert(diag_matches(s3.diagnostics@[0], sp.err));
                            } else {
                                assert(diag_matches(s3.diagnostics@[0], sp.err));
                            }
                        }
                    } else {
                        assert(self.had_error);
                        assert(!sp.ok);
                        assert(!re.ok);
                        assert(s2.diagnostics@.len() > 0);
                        assert(diag_matches(s2.diagnostics@[0], re.err));
                        assert(sp.err == re.err);
                        assert(s3.diagnostics@[0] == s2.diagnostics@[0]);
                    }
                } else {
                    assert(self.had_error);
                    assert(!sp.ok);
                    assert(s1.diagnostics@.len() > 0);
                    assert(diag_matches(s1.diagnostics@[0], sp.err));
                    Self::lemma_parse_step_trans(s1, s2, s3);
                    assert(s3.diagnostics@[0] == s1.diagnostics@[0]);
                }
                if self.had_error {
                    assert(self.diagnostics@.len() > 0);
                    assert(diag_matches(self.diagnostics@[0], sp.err));
                }
            }
        }
        if self.had_error {
            let mut ds: Vec<Diagnostic> = Vec::new();
            core::mem::swap(&mut ds, &mut self.diagnostics);
            Err(ds)
        } else {
            let mut c = Chunk::new();
            core::mem::swap(&mut c, &mut self.compiling_chunk);
            Ok(c)
        }
    }
}

} // verus!
