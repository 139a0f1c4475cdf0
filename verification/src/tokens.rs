use vstd::prelude::*;

use crate::decimal::{const_dec, Dec};

verus! {

/// The operators of the expression language. `Sub` is what the lexer emits
/// for `-`; the parser rewrites it to `UnarySub` where an operand was
/// expected, which is the only context-sensitive token.
#[derive(Debug, Clone, Copy, PartialEq, Eq, Structural)]
pub enum Operator {
    Add,
    Sub,
    Mul,
    Div,
    Mod,
    Pow,
    UnarySub,
}

/// Whether operators of equal precedence group left-to-right or
/// right-to-left.
#[derive(Debug, Clone, Copy, PartialEq, Eq, Structural)]
pub enum Assoc {
    Left,
    Right,
}

/// The named constants the lexer resolves identifiers against.
#[derive(Debug, Clone, Copy, PartialEq, Eq, Structural)]
pub enum MathConst {
    Pi,
    Tau,
    E,
    Phi,
    /// Speed of light (m/s)
    C,
    /// Planck constant (J s)
    H,
    /// Gravitational constant (m^3/(kg s^2))
    G,
    /// Gas constant (J/(mol K))
    R,
    /// Avogadro's number (mol^-1)
    Na,
    /// Boltzmann constant (J/K)
    Kb,
    /// Elementary charge (C)
    Ec,
}

impl MathConst {
    /// The canonical lowercase name of this constant.
    pub open spec fn spec_name(self) -> Seq<char> {
        match self {
            MathConst::Pi => "pi"@,
            MathConst::Tau => "tau"@,
            MathConst::E => "e"@,
            MathConst::Phi => "phi"@,
            MathConst::C => "c"@,
            MathConst::H => "h"@,
            MathConst::G => "g"@,
            MathConst::R => "r"@,
            MathConst::Na => "na"@,
            MathConst::Kb => "kb"@,
            MathConst::Ec => "ec"@,
        }
    }

    /// The canonical lowercase name of this constant.
    pub fn as_str(&self) -> (r: &'static str)
        ensures
            r@ == self.spec_name(),
    {
        match self {
            MathConst::Pi => "pi",
            MathConst::Tau => "tau",
            MathConst::E => "e",
            MathConst::Phi => "phi",
            MathConst::C => "c",
            MathConst::H => "h",
            MathConst::G => "g",
            MathConst::R => "r",
            MathConst::Na => "na",
            MathConst::Kb => "kb",
            MathConst::Ec => "ec",
        }
    }

    /// The fixed decimal value of this constant, in the canonical
    /// scientific notation the decimal type stores.
    pub open spec fn spec_value(self) -> Seq<char> {
        match self {
            MathConst::Pi => "3.1415926535897932384626433832795028841971e0"@,
            MathConst::Tau => "6.2831853071795864769252867665590057683942e0"@,
            MathConst::E => "2.7182818284590452353602874713526624977572e0"@,
            MathConst::Phi => "1.6180339887498948482045868343656381177203e0"@,
            MathConst::C => "2.99792458e8"@,
            MathConst::H => "6.62607015e-34"@,
            MathConst::G => "6.67430e-11"@,
            MathConst::R => "8.314462618e0"@,
            MathConst::Na => "6.02214076e23"@,
            MathConst::Kb => "1.380649e-23"@,
            MathConst::Ec => "1.602176634e-19"@,
        }
    }

    /// The fixed decimal value of this constant.
    pub fn value(&self) -> (r: Dec)
        ensures
            r@ == self.spec_value(),
    {
        const_dec(*self)
    }
}

/// The constant whose canonical name is `s`, where `s` is already
/// lowercase, or `None` where no constant bears that name.
pub open spec fn const_of_name(s: Seq<char>) -> Option<MathConst> {
    if s == "pi"@ {
        Some(MathConst::Pi)
    } else if s == "tau"@ {
        Some(MathConst::Tau)
    } else if s == "e"@ {
        Some(MathConst::E)
    } else if s == "phi"@ {
        Some(MathConst::Phi)
    } else if s == "c"@ {
        Some(MathConst::C)
    } else if s == "h"@ {
        Some(MathConst::H)
    } else if s == "g"@ {
        Some(MathConst::G)
    } else if s == "r"@ {
        Some(MathConst::R)
    } else if s == "na"@ {
        Some(MathConst::Na)
    } else if s == "kb"@ {
        Some(MathConst::Kb)
    } else if s == "ec"@ {
        Some(MathConst::Ec)
    } else {
        None
    }
}

/// Resolves a lowercase identifier against the constant table.
pub fn lookup_const(name: &Vec<char>) -> (r: Option<MathConst>)
    ensures
        r == const_of_name(name@),
{
    proof {
        reveal_strlit("pi");
        reveal_strlit("tau");
        reveal_strlit("e");
        reveal_strlit("phi");
        reveal_strlit("c");
        reveal_strlit("h");
        reveal_strlit("g");
        reveal_strlit("r");
        reveal_strlit("na");
        reveal_strlit("kb");
        reveal_strlit("ec");
    }
    if name.len() == 1 {
        let c0 = name[0];
        if c0 == 'e' {
            proof {
                assert(name@ =~= "e"@);
            }
            Some(MathConst::E)
        } else if c0 == 'c' {
            proof {
                assert(name@ =~= "c"@);
            }
            Some(MathConst::C)
        } else if c0 == 'h' {
            proof {
                assert(name@ =~= "h"@);
            }
            Some(MathConst::H)
        } else if c0 == 'g' {
            proof {
                assert(name@ =~= "g"@);
            }
            Some(MathConst::G)
        } else if c0 == 'r' {
            proof {
                assert(name@ =~= "r"@);
            }
            Some(MathConst::R)
        } else {
            None
        }
    } else if name.len() == 2 {
        let c0 = name[0];
        let c1 = name[1];
        if c0 == 'p' && c1 == 'i' {
            proof {
                assert(name@ =~= "pi"@);
            }
            Some(MathConst::Pi)
        } else if c0 == 'n' && c1 == 'a' {
            proof {
                assert(name@ =~= "na"@);
            }
            Some(MathConst::Na)
        } else if c0 == 'k' && c1 == 'b' {
            proof {
                assert(name@ =~= "kb"@);
            }
            Some(MathConst::Kb)
        } else if c0 == 'e' && c1 == 'c' {
            proof {
                assert(name@ =~= "ec"@);
            }
            Some(MathConst::Ec)
        } else {
            None
        }
    } else if name.len() == 3 {
        let c0 = name[0];
        let c1 = name[1];
        let c2 = name[2];
        if c0 == 't' && c1 == 'a' && c2 == 'u' {
            proof {
                assert(name@ =~= "tau"@);
            }
            Some(MathConst::Tau)
        } else if c0 == 'p' && c1 == 'h' && c2 == 'i' {
            proof {
                assert(name@ =~= "phi"@);
            }
            Some(MathConst::Phi)
        } else {
            None
        }
    } else {
        None
    }
}

/// A single lexical token. Produced by the tokenizer; reordered by the
/// parser; consumed by the postfix evaluator.
#[derive(Debug)]
pub enum Token {
    Number(Dec),
    Ident(MathConst),
    Op(Operator),
    LParenthesis,
    RParenthesis,
}

/// The mathematical shape of a token: a number is its canonical text.
pub enum TokenV {
    Number(Seq<char>),
    Ident(MathConst),
    Op(Operator),
    LParenthesis,
    RParenthesis,
}

impl View for Token {
    type V = TokenV;

    open spec fn view(&self) -> TokenV {
        match self {
            Token::Number(d) => TokenV::Number(d@),
            Token::Ident(m) => TokenV::Ident(*m),
            Token::Op(op) => TokenV::Op(*op),
            Token::LParenthesis => TokenV::LParenthesis,
            Token::RParenthesis => TokenV::RParenthesis,
        }
    }
}

impl Clone for Token {
    fn clone(&self) -> (r: Self)
        ensures
            r@ == self@,
    {
        match self {
            Token::Number(d) => Token::Number(d.clone()),
            Token::Ident(m) => Token::Ident(*m),
            Token::Op(op) => Token::Op(*op),
            Token::LParenthesis => Token::LParenthesis,
            Token::RParenthesis => Token::RParenthesis,
        }
    }
}

/// The views of a token sequence.
pub open spec fn token_views(ts: Seq<Token>) -> Seq<TokenV> {
    ts.map_values(|t: Token| t@)
}

/// Classifies the characters that the lexer accepts as operator symbols.
pub fn is_op(ch: char) -> (r: bool)
    ensures
        r == (ch == '+' || ch == '-' || ch == '*' || ch == '/' || ch == '%' || ch == '^'),
{
    ch == '+' || ch == '-' || ch == '*' || ch == '/' || ch == '%' || ch == '^'
}

/// Classifies parenthesis characters.
pub fn is_paren(ch: char) -> (r: bool)
    ensures
        r == (ch == '(' || ch == ')'),
{
    ch == '(' || ch == ')'
}

/// The operator tag for an operator symbol.
pub open spec fn spec_op_of_char(c: char) -> Operator {
    if c == '+' {
        Operator::Add
    } else if c == '-' {
        Operator::Sub
    } else if c == '*' {
        Operator::Mul
    } else if c == '/' {
        Operator::Div
    } else if c == '%' {
        Operator::Mod
    } else {
        Operator::Pow
    }
}

/// The operator tag for an operator symbol.
pub fn op_of_char(c: char) -> (r: Operator)
    requires
        c == '+' || c == '-' || c == '*' || c == '/' || c == '%' || c == '^',
    ensures
        r == spec_op_of_char(c),
{
    if c == '+' {
        Operator::Add
    } else if c == '-' {
        Operator::Sub
    } else if c == '*' {
        Operator::Mul
    } else if c == '/' {
        Operator::Div
    } else if c == '%' {
        Operator::Mod
    } else {
        Operator::Pow
    }
}

/// The parenthesis token for a parenthesis character.
pub fn to_paren(ch: char) -> (r: Token)
    requires
        ch == '(' || ch == ')',
    ensures
        ch == '(' ==> r@ == TokenV::LParenthesis,
        ch == ')' ==> r@ == TokenV::RParenthesis,
{
    if ch == '(' {
        Token::LParenthesis
    } else {
        Token::RParenthesis
    }
}

/// The fixed precedence of each operator: additive operators bind loosest,
/// then multiplicative ones, then unary negation, then power.
pub open spec fn spec_precedence(op: Operator) -> u8 {
    match op {
        Operator::Add => 1,
        Operator::Sub => 1,
        Operator::Mul => 2,
        Operator::Div => 2,
        Operator::Mod => 2,
        Operator::UnarySub => 3,
        Operator::Pow => 4,
    }
}

/// The fixed precedence of each operator.
pub fn operator_precedence(op: Operator) -> (r: u8)
    ensures
        r == spec_precedence(op),
{
    match op {
        Operator::Add | Operator::Sub => 1,
        Operator::Mul | Operator::Div | Operator::Mod => 2,
        Operator::UnarySub => 3,
        Operator::Pow => 4,
    }
}

/// Power and unary negation chain right-to-left; all other operators
/// group left-to-right.
pub open spec fn spec_associativity(op: Operator) -> Assoc {
    match op {
        Operator::Pow => Assoc::Right,
        Operator::UnarySub => Assoc::Right,
        _ => Assoc::Left,
    }
}

/// The fixed associativity of each operator.
pub fn operator_associativity(op: Operator) -> (r: Assoc)
    ensures
        r == spec_associativity(op),
{
    match op {
        Operator::Pow | Operator::UnarySub => Assoc::Right,
        Operator::Add | Operator::Sub | Operator::Mul | Operator::Div | Operator::Mod => Assoc::Left,
    }
}

/// The shunting-yard pop rule: a stacked operator is popped before the
/// incoming one is pushed when it binds strictly tighter, or equally tight
/// while the incoming operator is left-associative.
pub open spec fn spec_should_pop(stack_op: Operator, incoming: Operator) -> bool {
    spec_precedence(stack_op) > spec_precedence(incoming) || (spec_precedence(stack_op)
        == spec_precedence(incoming) && spec_associativity(incoming) == Assoc::Left)
}

/// The shunting-yard pop rule.
pub fn should_pop_operator(stack_op: Operator, incoming: Operator) -> (r: bool)
    ensures
        r == spec_should_pop(stack_op, incoming),
{
    let stack_prec = operator_precedence(stack_op);
    let incoming_prec = operator_precedence(incoming);
    if stack_prec > incoming_prec {
        return true;
    }
    if stack_prec == incoming_prec {
        return matches!(operator_associativity(incoming), Assoc::Left);
    }
    false
}

} // verus!
