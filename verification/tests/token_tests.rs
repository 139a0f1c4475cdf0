use calculator_mcp::tokens::{
    is_op, is_paren, operator_associativity, operator_precedence, should_pop_operator, to_paren,
    Assoc, MathConst, Operator, Token,
};

#[test]
fn test_is_op() {
    assert!(is_op('+'));
    assert!(is_op('-'));
    assert!(is_op('*'));
    assert!(is_op('/'));
    assert!(is_op('%'));
    assert!(is_op('^'));
    assert!(!is_op('('));
    assert!(!is_op('3'));
    assert!(!is_op('a'));
}

#[test]
fn test_is_paren() {
    assert!(is_paren('('));
    assert!(is_paren(')'));
    assert!(!is_paren('+'));
    assert!(!is_paren('x'));
}

#[test]
fn test_to_paren() {
    assert!(matches!(to_paren('('), Token::LParenthesis));
    assert!(matches!(to_paren(')'), Token::RParenthesis));
}

#[test]
fn test_operator_precedence() {
    assert_eq!(operator_precedence(Operator::Add), 1);
    assert_eq!(operator_precedence(Operator::Sub), 1);
    assert_eq!(operator_precedence(Operator::Mul), 2);
    assert_eq!(operator_precedence(Operator::Div), 2);
    assert_eq!(operator_precedence(Operator::Mod), 2);
    assert_eq!(operator_precedence(Operator::UnarySub), 3);
    assert_eq!(operator_precedence(Operator::Pow), 4);
}

#[test]
fn test_operator_associativity() {
    assert!(matches!(operator_associativity(Operator::Add), Assoc::Left));
    assert!(matches!(operator_associativity(Operator::Sub), Assoc::Left));
    assert!(matches!(operator_associativity(Operator::Mul), Assoc::Left));
    assert!(matches!(operator_associativity(Operator::Div), Assoc::Left));
    assert!(matches!(operator_associativity(Operator::Mod), Assoc::Left));
    assert!(matches!(operator_associativity(Operator::Pow), Assoc::Right));
    assert!(matches!(
        operator_associativity(Operator::UnarySub),
        Assoc::Right
    ));
}

#[test]
fn test_should_pop_operator() {
    // Strictly higher precedence on the stack pops.
    assert!(should_pop_operator(Operator::Mul, Operator::Add));
    assert!(should_pop_operator(Operator::Pow, Operator::Mul));
    // Equal precedence pops exactly for left-associative incoming operators.
    assert!(should_pop_operator(Operator::Add, Operator::Sub));
    assert!(should_pop_operator(Operator::Mul, Operator::Div));
    assert!(!should_pop_operator(Operator::Pow, Operator::Pow));
    assert!(!should_pop_operator(Operator::UnarySub, Operator::UnarySub));
    // Lower precedence on the stack never pops.
    assert!(!should_pop_operator(Operator::Add, Operator::Mul));
    assert!(!should_pop_operator(Operator::Mul, Operator::Pow));
}

#[test]
fn test_math_const_as_str() {
    assert_eq!(MathConst::Pi.as_str(), "pi");
    assert_eq!(MathConst::Tau.as_str(), "tau");
    assert_eq!(MathConst::E.as_str(), "e");
    assert_eq!(MathConst::Phi.as_str(), "phi");
    assert_eq!(MathConst::C.as_str(), "c");
    assert_eq!(MathConst::H.as_str(), "h");
    assert_eq!(MathConst::G.as_str(), "g");
    assert_eq!(MathConst::R.as_str(), "r");
    assert_eq!(MathConst::Na.as_str(), "na");
    assert_eq!(MathConst::Kb.as_str(), "kb");
    assert_eq!(MathConst::Ec.as_str(), "ec");
}

#[test]
fn test_math_const_values() {
    assert_eq!(
        MathConst::Pi.value().to_scientific_notation(),
        "3.1415926535897932384626433832795028841971e0"
    );
    assert_eq!(MathConst::C.value().to_scientific_notation(), "2.99792458e8");
    // The physical constants keep their exact defined values.
    assert_eq!(
        MathConst::Na.value().to_scientific_notation(),
        "6.02214076e23"
    );
    assert_eq!(
        MathConst::H.value().to_scientific_notation(),
        "6.62607015e-34"
    );
}
