use bigdecimal::BigDecimal;
use num_traits::FromPrimitive;
use std::str::FromStr;

use calculator_mcp::evaluator::{eval, ArithError, EvalError, ParseError};
use calculator_mcp::tokenizer::LexError;
use calculator_mcp::tokens::MathConst;

/// The evaluated value as a bigdecimal, for comparison against expected values.
fn result_bd(input: &str) -> BigDecimal {
    let d = eval(input).unwrap();
    BigDecimal::from_str(&d.to_scientific_notation()).unwrap()
}

/// The evaluated value rounded to eight fractional digits, the post-processing
/// step a caller may apply.
fn result_bd8(input: &str) -> BigDecimal {
    result_bd(input).round(8)
}

/// A constant's fixed value as a bigdecimal.
fn const_bd(c: MathConst) -> BigDecimal {
    BigDecimal::from_str(&c.value().to_scientific_notation()).unwrap()
}

#[test]
fn test_eval_int() {
    assert_eq!(result_bd("3 + 4"), BigDecimal::from(7));
    assert_eq!(result_bd("3 * 4"), BigDecimal::from(12));
    assert_eq!(result_bd("3 ^ 4"), BigDecimal::from(81));

    assert_eq!(result_bd("-5 * 4"), BigDecimal::from(-20));
    assert_eq!(result_bd("-5 + (-5)"), BigDecimal::from(-10));
    assert_eq!(result_bd("-(-3 * 2)"), BigDecimal::from(6));
    assert_eq!(result_bd("--5"), BigDecimal::from(5));
    assert_eq!(result_bd("-5 * -2"), BigDecimal::from(10));

    assert_eq!(result_bd("3 + 4 * 5"), BigDecimal::from(23));
    assert_eq!(result_bd("(3 + 4) * 5"), BigDecimal::from(35));
    assert_eq!(result_bd("3 + 4 * 5 / 2"), BigDecimal::from(13));
    assert_eq!(result_bd("2^3 + 1"), BigDecimal::from(9));
    assert_eq!(result_bd("2^(3 + 1)"), BigDecimal::from(16));
    assert_eq!(result_bd("1/2 * 10 * 2^2 + 1"), BigDecimal::from(21));

    assert_eq!(result_bd("10 % 3"), BigDecimal::from(1));
    assert_eq!(result_bd("10 % 3 * 2"), BigDecimal::from(2));
}

#[test]
fn test_eval_float() {
    assert_eq!(result_bd("3 / 4"), BigDecimal::from_f64(0.75).unwrap());
    assert_eq!(
        result_bd("2.5 * 5.2 / 3.1").round(2).to_plain_string(),
        "4.19"
    );
    assert_eq!(result_bd("2.5 ^ 2").round(2).to_string(), "6.25");
    assert_eq!(result_bd("(-2.5) ^ 2").round(2).to_string(), "6.25");
    assert_eq!(result_bd("2.5 ^ (2 + 2)").round(4).to_string(), "39.0625");
    assert_eq!(result_bd("(3 + 4) * 5 / 2"), BigDecimal::from_f64(17.5).unwrap());
    assert_eq!(result_bd("1.2e3"), BigDecimal::from(1200));
    assert_eq!(result_bd("4.2e-2"), BigDecimal::from_str("0.042").unwrap());
    assert_eq!(
        result_bd("1.5e2 + 2.5e-1"),
        BigDecimal::from_str("150.25").unwrap()
    );
}

#[test]
fn test_eval_math_const() {
    assert_eq!(result_bd("pi"), const_bd(MathConst::Pi));
    assert_eq!(result_bd("pi * 2"), const_bd(MathConst::Pi) * BigDecimal::from(2));
    assert_eq!(result_bd("tau"), const_bd(MathConst::Tau));
    assert_eq!(result_bd("e"), const_bd(MathConst::E));
    assert_eq!(result_bd("phi"), const_bd(MathConst::Phi));
    assert_eq!(result_bd("c"), const_bd(MathConst::C));
    assert_eq!(result_bd("h"), const_bd(MathConst::H));
    assert_eq!(result_bd("g"), const_bd(MathConst::G));
    assert_eq!(result_bd("r"), const_bd(MathConst::R));
    assert_eq!(result_bd("na"), const_bd(MathConst::Na));
    assert_eq!(result_bd("kb"), const_bd(MathConst::Kb));
    assert_eq!(result_bd("ec"), const_bd(MathConst::Ec));
    assert_eq!(result_bd("tau / pi"), BigDecimal::from(2));
}

#[test]
fn test_eval() {
    assert_eq!(result_bd8("3 + 4"), BigDecimal::from(7));
    assert_eq!(result_bd8("3 * 4"), BigDecimal::from(12));
    assert_eq!(result_bd8("3 / 4"), BigDecimal::from_f64(0.75).unwrap());
    assert_eq!(result_bd8("3 ^ 4"), BigDecimal::from(81));

    assert_eq!(result_bd8("3 + 4 * 5"), BigDecimal::from(23));
    assert_eq!(result_bd8("(3 + 4) * 5"), BigDecimal::from(35));
    assert_eq!(result_bd8("3 + 4 * 5 / 2"), BigDecimal::from(13));
    assert_eq!(result_bd8("(3 + 4) * 5 / 2"), BigDecimal::from_f64(17.5).unwrap());

    assert_eq!(result_bd8("2^3 + 1"), BigDecimal::from(9));
    assert_eq!(result_bd8("2^(3 + 1)"), BigDecimal::from(16));
    assert_eq!(result_bd8("1/2 * 10 * 2^2 + 1"), BigDecimal::from(21));

    assert_eq!(
        result_bd8("2.5 * 5.2 / 3.1").round(2).to_plain_string(),
        "4.19"
    );
    assert_eq!(result_bd8("2.5 ^ 2").round(2).to_string(), "6.25");
    assert_eq!(result_bd8("2.5 ^ (2 + 2)").round(4).to_string(), "39.0625");
}

#[test]
fn test_division_by_zero_rejected() {
    assert!(matches!(
        eval("5 / 0"),
        Err(EvalError::Arith(ArithError::DivisionByZero))
    ));
    assert!(matches!(
        eval("1 / (2 - 2)"),
        Err(EvalError::Arith(ArithError::DivisionByZero))
    ));
}

#[test]
fn test_modulo_by_zero_rejected() {
    assert!(matches!(
        eval("5 % 0"),
        Err(EvalError::Arith(ArithError::ModuloByZero))
    ));
}

#[test]
fn test_non_integer_exponent_rejected() {
    assert!(matches!(
        eval("2 ^ 0.5"),
        Err(EvalError::Arith(ArithError::NonIntegerExponent))
    ));
}

#[test]
fn test_oversized_exponent_rejected() {
    assert!(matches!(
        eval("2 ^ 99999999999999999999"),
        Err(EvalError::Arith(ArithError::ExponentOutOfRange))
    ));
}

#[test]
fn test_mismatched_parentheses_rejected() {
    assert!(matches!(
        eval("(3 + 4"),
        Err(EvalError::Parse(ParseError::MismatchedParenthesis))
    ));
    assert!(matches!(
        eval("3 + 4)"),
        Err(EvalError::Parse(ParseError::MismatchedParenthesis))
    ));
    assert!(matches!(
        eval("((1)"),
        Err(EvalError::Parse(ParseError::MismatchedParenthesis))
    ));
}

#[test]
fn test_unexpected_operator_rejected() {
    assert!(matches!(
        eval("* 3"),
        Err(EvalError::Parse(ParseError::UnexpectedOperator))
    ));
    assert!(matches!(
        eval("3 + * 4"),
        Err(EvalError::Parse(ParseError::UnexpectedOperator))
    ));
}

#[test]
fn test_unknown_identifier_rejected() {
    match eval("foo") {
        Err(EvalError::Lex(LexError::UnknownIdentifier(s))) => assert_eq!(s, "foo"),
        other => panic!("expected an unknown-identifier error, got {:?}", other),
    }
}

#[test]
fn test_unexpected_character_rejected() {
    match eval("3 # 4") {
        Err(EvalError::Lex(LexError::UnexpectedCharacter(ch))) => assert_eq!(ch, '#'),
        other => panic!("expected an unexpected-character error, got {:?}", other),
    }
    // A numeric run takes at most one decimal point, so the second dot is
    // left over and starts no token.
    match eval("1.2.3") {
        Err(EvalError::Lex(LexError::UnexpectedCharacter(ch))) => assert_eq!(ch, '.'),
        other => panic!("expected an unexpected-character error, got {:?}", other),
    }
    // After the exponent marker only digits continue the run.
    match eval("1.2e3.5") {
        Err(EvalError::Lex(LexError::UnexpectedCharacter(ch))) => assert_eq!(ch, '.'),
        other => panic!("expected an unexpected-character error, got {:?}", other),
    }
}

#[test]
fn test_invalid_number_rejected() {
    match eval("5e") {
        Err(EvalError::Lex(LexError::InvalidNumber(s))) => assert_eq!(s, "5e"),
        other => panic!("expected an invalid-number error, got {:?}", other),
    }
    assert!(matches!(
        eval("1e+"),
        Err(EvalError::Lex(LexError::InvalidNumber(_)))
    ));
}

#[test]
fn test_constants_case_insensitive() {
    assert_eq!(result_bd("PI"), const_bd(MathConst::Pi));
    assert_eq!(result_bd("Tau / pI"), BigDecimal::from(2));
    assert_eq!(result_bd("KB"), const_bd(MathConst::Kb));
}

#[test]
fn test_scientific_notation() {
    assert_eq!(result_bd("1.2e3"), BigDecimal::from(1200));
    assert_eq!(result_bd("1.2E3"), BigDecimal::from(1200));
    assert_eq!(result_bd("4.2e-2"), BigDecimal::from_str("0.042").unwrap());
    assert_eq!(result_bd("1e+2"), BigDecimal::from(100));
}

#[test]
fn test_fully_parenthesized_expressions() {
    assert_eq!(result_bd("((1 + 2) * (3 - 4))"), BigDecimal::from(-3));
    assert_eq!(result_bd("((2 * 3) * (4 + 5))"), BigDecimal::from(54));
    assert_eq!(result_bd("(-((1 + 2) * 3))"), BigDecimal::from(-9));
}

#[test]
fn test_exact_decimal_arithmetic() {
    assert_eq!(result_bd("0.1 + 0.2"), BigDecimal::from_str("0.3").unwrap());
    assert_eq!(eval("0.1 + 0.2").unwrap().to_scientific_notation(), "3e-1");
    assert_eq!(eval("1.5 * 2").unwrap().to_scientific_notation(), "3.0e0");
}

#[test]
fn test_purity_same_input_same_output() {
    let a = eval("2.5 * 5.2 / 3.1").unwrap().to_scientific_notation();
    let b = eval("2.5 * 5.2 / 3.1").unwrap().to_scientific_notation();
    assert_eq!(a, b);

    let e1 = eval("5 / 0");
    let e2 = eval("5 / 0");
    assert!(matches!(e1, Err(EvalError::Arith(ArithError::DivisionByZero))));
    assert!(matches!(e2, Err(EvalError::Arith(ArithError::DivisionByZero))));
}

#[test]
fn test_empty_input_rejected() {
    assert!(matches!(
        eval(""),
        Err(EvalError::Arith(ArithError::MalformedExpression))
    ));
    assert!(matches!(
        eval("   "),
        Err(EvalError::Arith(ArithError::MalformedExpression))
    ));
}

#[test]
fn test_insufficient_operands_rejected() {
    assert!(matches!(
        eval("3 +"),
        Err(EvalError::Arith(ArithError::InsufficientOperands))
    ));
    assert!(matches!(
        eval("-"),
        Err(EvalError::Arith(ArithError::InsufficientOperands))
    ));
}
