//! End-to-end tests: source text in, value or error out.

use lox_vm::value::{Rational, Value};
use lox_vm::vm::{InterpretError, RuntimeError, VM};

fn eval(source: &str) -> Result<Value, InterpretError> {
    let mut vm = VM::new();
    vm.interpret(source.to_string())
}

fn eval_number(source: &str) -> Rational {
    match eval(source) {
        Ok(Value::Number(r)) => r,
        Err(e) => panic!("expected a value for {:?}, got {:?}", source, e),
    }
}

fn assert_value(source: &str, expected: f64) {
    let r = eval_number(source);
    assert!(r.den > 0);
    assert_eq!(r.num as f64 / r.den as f64, expected);
}

#[test]
fn single_literal() {
    assert_value("42", 42.0);
    let r = eval_number("42");
    assert!(r.same_value(Rational::whole(42)));
}

#[test]
fn decimal_literal() {
    let r = eval_number("12.5");
    assert_eq!((r.num, r.den), (125, 10));
    assert_eq!(r.num as f64 / r.den as f64, 12.5);
}

#[test]
fn precedence_of_factor_over_term() {
    assert_value("1 + 2 * 3", 7.0);
}

#[test]
fn parentheses_override_precedence() {
    assert_value("(1 + 2) * 3", 9.0);
}

#[test]
fn division_is_left_associative() {
    assert_value("8 / 4 / 2", 1.0);
}

#[test]
fn subtraction_is_left_associative() {
    assert_value("10 - 4 - 3", 3.0);
}

#[test]
fn unary_minus_binds_tighter_than_multiplication() {
    assert_value("-2 * 3", -6.0);
}

#[test]
fn unary_minus_nests() {
    assert_value("- -2", 2.0);
}

#[test]
fn exact_decimal_addition() {
    // Arithmetic is exact rational: one tenth plus two tenths is exactly
    // three tenths.
    let r = eval_number("0.1 + 0.2");
    assert!(r.same_value(Rational { num: 3, den: 10 }));
}

#[test]
fn whitespace_and_comments_are_skipped() {
    assert_value("1 + // nothing to see\n 2", 3.0);
}

#[test]
fn division_by_zero_is_an_error_not_infinity() {
    match eval("1 / 0") {
        Err(InterpretError::Runtime(RuntimeError::DivisionByZero)) => {}
        other => panic!("expected division-by-zero, got {:?}", other),
    }
}

#[test]
fn division_by_zero_from_subtraction() {
    match eval("1 / (2 - 2)") {
        Err(InterpretError::Runtime(RuntimeError::DivisionByZero)) => {}
        other => panic!("expected division-by-zero, got {:?}", other),
    }
}

#[test]
fn runtime_overflow_is_reported() {
    match eval("9000000000000000000 * 9000000000000000000") {
        Err(InterpretError::Runtime(RuntimeError::NumericOverflow)) => {}
        other => panic!("expected numeric overflow, got {:?}", other),
    }
}

#[test]
fn dangling_operator_fails_compilation() {
    match eval("1 +") {
        Err(InterpretError::Compile(ds)) => {
            assert_eq!(ds.len(), 1);
            let expected: Vec<char> = "Expect expression.".chars().collect();
            assert_eq!(ds[0].message, expected);
            assert_eq!(ds[0].line, 1);
        }
        other => panic!("expected a compile failure, got {:?}", other),
    }
}

#[test]
fn empty_input_fails_compilation() {
    match eval("") {
        Err(InterpretError::Compile(ds)) => {
            let expected: Vec<char> = "Expect expression.".chars().collect();
            assert_eq!(ds[0].message, expected);
        }
        other => panic!("expected a compile failure, got {:?}", other),
    }
}

#[test]
fn unterminated_string_fails_compilation() {
    match eval("\"abc") {
        Err(InterpretError::Compile(ds)) => {
            let expected: Vec<char> = "Unterminated string.".chars().collect();
            assert_eq!(ds[0].message, expected);
        }
        other => panic!("expected a compile failure, got {:?}", other),
    }
}

#[test]
fn missing_close_paren_fails_compilation() {
    match eval("(1 + 2") {
        Err(InterpretError::Compile(ds)) => {
            let expected: Vec<char> = "Expect ')' after expression.".chars().collect();
            assert_eq!(ds[0].message, expected);
        }
        other => panic!("expected a compile failure, got {:?}", other),
    }
}

#[test]
fn trailing_token_fails_compilation() {
    match eval("1 2") {
        Err(InterpretError::Compile(ds)) => {
            let expected: Vec<char> = "Expect end of expression.".chars().collect();
            assert_eq!(ds[0].message, expected);
        }
        other => panic!("expected a compile failure, got {:?}", other),
    }
}

#[test]
fn keyword_in_expression_position_fails_compilation() {
    match eval("2 + true") {
        Err(InterpretError::Compile(ds)) => {
            let expected: Vec<char> = "Expect expression.".chars().collect();
            assert_eq!(ds[0].message, expected);
        }
        other => panic!("expected a compile failure, got {:?}", other),
    }
}

#[test]
fn oversized_literal_fails_compilation() {
    match eval("99999999999999999999") {
        Err(InterpretError::Compile(ds)) => {
            let prefix: Vec<char> = "Failed to parse number: ".chars().collect();
            assert_eq!(&ds[0].message[..prefix.len()], &prefix[..]);
        }
        other => panic!("expected a compile failure, got {:?}", other),
    }
}

#[test]
fn logical_not_is_reserved_but_unimplemented() {
    match eval("!1") {
        Err(InterpretError::Compile(ds)) => {
            let prefix: Vec<char> = "Unexpected unary operator: ".chars().collect();
            assert_eq!(&ds[0].message[..prefix.len()], &prefix[..]);
        }
        other => panic!("expected a compile failure, got {:?}", other),
    }
}

#[test]
fn nested_groups_evaluate() {
    assert_value("((2 + 3) * (4 - 1)) / 5", 3.0);
}

#[test]
fn multiline_input_evaluates() {
    assert_value("1 +\n2 +\n3", 6.0);
}
