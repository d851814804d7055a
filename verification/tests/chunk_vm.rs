//! Unit tests for the bytecode container, the compiler's output shape, the
//! rule table, rational arithmetic, and the virtual machine's error cases.

use lox_vm::chunk::{Chunk, OpCode};
use lox_vm::compiler::{get_rule, ParseAct, Parser, Precedence};
use lox_vm::token_type::TokenType;
use lox_vm::value::{Rational, Value};
use lox_vm::vm::{RuntimeError, VM};

fn number(num: i64, den: i64) -> Value {
    Value::Number(Rational { num, den })
}

#[test]
fn chunk_streams_stay_parallel() {
    let mut chunk = Chunk::new();
    assert_eq!(chunk.code.len(), 0);
    assert_eq!(chunk.line_numbers.len(), 0);
    let i0 = chunk.add_constant(number(1, 1));
    let i1 = chunk.add_constant(number(2, 1));
    assert_eq!((i0, i1), (0, 1));
    chunk.write_chunk(OpCode::Constant(i0), 1);
    chunk.write_chunk(OpCode::Constant(i1), 1);
    chunk.write_chunk(OpCode::Add, 2);
    chunk.write_chunk(OpCode::Return, 2);
    assert_eq!(chunk.code.len(), chunk.line_numbers.len());
    assert_eq!(chunk.line_numbers, vec![1, 1, 2, 2]);
}

#[test]
fn constant_pool_indices_are_stable() {
    let mut chunk = Chunk::new();
    for k in 0..10i64 {
        let idx = chunk.add_constant(number(k, 1));
        assert_eq!(idx as i64, k);
    }
    assert_eq!(chunk.constants.len(), 10);
    match chunk.constants[3] {
        Value::Number(r) => assert_eq!((r.num, r.den), (3, 1)),
    }
}

#[test]
fn compiled_chunk_shape() {
    let mut parser = Parser::new("3 * 4".to_string());
    let chunk = parser.compile().expect("compilation should succeed");
    assert_eq!(
        chunk.code,
        vec![
            OpCode::Constant(0),
            OpCode::Constant(1),
            OpCode::Multiply,
            OpCode::Return,
        ]
    );
    assert_eq!(chunk.code.len(), chunk.line_numbers.len());
    assert_eq!(chunk.constants.len(), 2);
    for op in &chunk.code {
        if let OpCode::Constant(i) = op {
            assert!(*i < chunk.constants.len());
        }
    }
}

#[test]
fn compiled_negation_emits_postorder() {
    let mut parser = Parser::new("-5".to_string());
    let chunk = parser.compile().expect("compilation should succeed");
    assert_eq!(
        chunk.code,
        vec![OpCode::Constant(0), OpCode::Negate, OpCode::Return]
    );
}

#[test]
fn failed_compilation_returns_no_chunk() {
    let mut parser = Parser::new("1 +".to_string());
    let diagnostics = parser.compile().expect_err("compilation should fail");
    assert!(!diagnostics.is_empty());
}

#[test]
fn rule_table_rows() {
    let minus = get_rule(TokenType::Minus);
    assert_eq!(minus.prefix, Some(ParseAct::Unary));
    assert_eq!(minus.infix, Some(ParseAct::Binary));
    assert_eq!(minus.precedence, Precedence::Term);

    let plus = get_rule(TokenType::Plus);
    assert_eq!(plus.prefix, None);
    assert_eq!(plus.infix, Some(ParseAct::Binary));
    assert_eq!(plus.precedence, Precedence::Term);

    let star = get_rule(TokenType::Star);
    assert_eq!(star.precedence, Precedence::Factor);

    let lparen = get_rule(TokenType::LeftParen);
    assert_eq!(lparen.prefix, Some(ParseAct::Grouping));
    assert_eq!(lparen.infix, None);

    let num = get_rule(TokenType::Number);
    assert_eq!(num.prefix, Some(ParseAct::Number));

    let eof = get_rule(TokenType::Eof);
    assert_eq!(eof.prefix, None);
    assert_eq!(eof.infix, None);
    assert_eq!(eof.precedence, Precedence::Lowest);
}

#[test]
fn precedence_ranks_are_ordered() {
    let levels = [
        Precedence::Lowest,
        Precedence::Assignment,
        Precedence::Or,
        Precedence::And,
        Precedence::Equality,
        Precedence::Comparison,
        Precedence::Term,
        Precedence::Factor,
        Precedence::Unary,
        Precedence::Call,
        Precedence::Primary,
    ];
    for w in levels.windows(2) {
        assert!(w[0].rank() < w[1].rank());
        assert_eq!(w[0].next_higher(), w[1]);
    }
    assert_eq!(Precedence::Primary.next_higher(), Precedence::Lowest);
}

#[test]
fn rational_arithmetic_is_exact() {
    let half = Rational { num: 1, den: 2 };
    let third = Rational { num: 1, den: 3 };
    let sum = half.checked_add(third).unwrap();
    assert_eq!((sum.num, sum.den), (5, 6));
    let diff = half.checked_sub(third).unwrap();
    assert_eq!((diff.num, diff.den), (1, 6));
    let prod = half.checked_mul(third).unwrap();
    assert_eq!((prod.num, prod.den), (1, 6));
    let quot = half.checked_div(third).unwrap();
    assert_eq!((quot.num, quot.den), (3, 2));
}

#[test]
fn rational_division_keeps_denominator_positive() {
    let a = Rational { num: 1, den: 2 };
    let b = Rational { num: -1, den: 3 };
    let q = a.checked_div(b).unwrap();
    assert!(q.den > 0);
    assert!(q.same_value(Rational { num: -3, den: 2 }));
}

#[test]
fn rational_overflow_returns_none() {
    let big = Rational { num: i64::MAX, den: 1 };
    assert_eq!(big.checked_add(big), None);
    assert_eq!(big.checked_mul(big), None);
    let edge = Rational { num: i64::MIN, den: 1 };
    assert_eq!(edge.checked_neg(), None);
}

#[test]
fn same_value_sees_through_representation() {
    let a = Rational { num: 8, den: 8 };
    assert!(a.same_value(Rational::whole(1)));
    assert!(!a.same_value(Rational::whole(2)));
    assert!(Rational { num: 1, den: 2 }.same_value(Rational { num: 2, den: 4 }));
}

#[test]
fn vm_runs_a_hand_built_chunk() {
    let mut chunk = Chunk::new();
    let i = chunk.add_constant(number(21, 1));
    let j = chunk.add_constant(number(2, 1));
    chunk.write_chunk(OpCode::Constant(i), 1);
    chunk.write_chunk(OpCode::Constant(j), 1);
    chunk.write_chunk(OpCode::Multiply, 1);
    chunk.write_chunk(OpCode::Return, 1);
    let mut vm = VM::new();
    match vm.run(&chunk).unwrap() {
        Value::Number(r) => assert!(r.same_value(Rational::whole(42))),
    }
}

#[test]
fn constant_index_out_of_range_is_reported() {
    let mut chunk = Chunk::new();
    chunk.write_chunk(OpCode::Constant(3), 1);
    chunk.write_chunk(OpCode::Return, 1);
    let mut vm = VM::new();
    assert_eq!(
        vm.run(&chunk),
        Err(RuntimeError::InvalidConstantIndex(3))
    );
}

#[test]
fn missing_return_is_reported_not_a_crash() {
    let mut chunk = Chunk::new();
    let i = chunk.add_constant(number(1, 1));
    chunk.write_chunk(OpCode::Constant(i), 1);
    let mut vm = VM::new();
    assert_eq!(vm.run(&chunk), Err(RuntimeError::MissingReturn));
}

#[test]
fn return_on_empty_stack_is_reported() {
    let mut chunk = Chunk::new();
    chunk.write_chunk(OpCode::Return, 1);
    let mut vm = VM::new();
    assert_eq!(vm.run(&chunk), Err(RuntimeError::EmptyStackOnReturn));
}

#[test]
fn negate_on_empty_stack_is_reported() {
    let mut chunk = Chunk::new();
    chunk.write_chunk(OpCode::Negate, 1);
    let mut vm = VM::new();
    assert_eq!(vm.run(&chunk), Err(RuntimeError::EmptyStackOnNegate));
}

#[test]
fn binary_underflow_is_reported() {
    let mut chunk = Chunk::new();
    let i = chunk.add_constant(number(1, 1));
    chunk.write_chunk(OpCode::Constant(i), 1);
    chunk.write_chunk(OpCode::Add, 1);
    chunk.write_chunk(OpCode::Return, 1);
    let mut vm = VM::new();
    assert_eq!(vm.run(&chunk), Err(RuntimeError::StackUnderflowOnBinary));
}

#[test]
fn divide_by_zero_on_hand_built_chunk() {
    let mut chunk = Chunk::new();
    let i = chunk.add_constant(number(1, 1));
    let z = chunk.add_constant(number(0, 1));
    chunk.write_chunk(OpCode::Constant(i), 1);
    chunk.write_chunk(OpCode::Constant(z), 1);
    chunk.write_chunk(OpCode::Divide, 1);
    chunk.write_chunk(OpCode::Return, 1);
    let mut vm = VM::new();
    assert_eq!(vm.run(&chunk), Err(RuntimeError::DivisionByZero));
}

#[test]
fn negate_overflow_is_reported() {
    let mut chunk = Chunk::new();
    let i = chunk.add_constant(number(i64::MIN, 1));
    chunk.write_chunk(OpCode::Constant(i), 1);
    chunk.write_chunk(OpCode::Negate, 1);
    chunk.write_chunk(OpCode::Return, 1);
    let mut vm = VM::new();
    assert_eq!(vm.run(&chunk), Err(RuntimeError::NumericOverflow));
}

#[test]
fn runtime_error_messages() {
    assert_eq!(RuntimeError::DivisionByZero.message(), "Division by zero.");
    assert_eq!(
        RuntimeError::EmptyStackOnReturn.message(),
        "Stack is empty, cannot return."
    );
    assert_eq!(
        RuntimeError::InvalidConstantIndex(7).message(),
        "Invalid constant index."
    );
}

#[test]
fn vm_is_reusable_across_runs() {
    let mut vm = VM::new();
    let mut chunk = Chunk::new();
    let i = chunk.add_constant(number(5, 1));
    chunk.write_chunk(OpCode::Constant(i), 1);
    chunk.write_chunk(OpCode::Return, 1);
    for _ in 0..3 {
        match vm.run(&chunk).unwrap() {
            Value::Number(r) => assert!(r.same_value(Rational::whole(5))),
        }
    }
}
