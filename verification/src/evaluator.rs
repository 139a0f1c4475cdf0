use vstd::prelude::*;

use crate::decimal::{
    dec_add, dec_add_exec, dec_div, dec_div_exec, dec_is_integer, dec_is_integer_exec, dec_is_zero,
    dec_is_zero_exec, dec_mul, dec_mul_exec, dec_neg, dec_neg_exec, dec_powi, dec_powi_exec,
    dec_rem, dec_rem_exec, dec_sub, dec_sub_exec, dec_to_i64, dec_to_i64_exec, Dec,
};
use crate::tokenizer::{spec_tokenize, tokenize, LexError, LexErrorV};
use crate::tokens::{
    should_pop_operator, spec_should_pop, token_views, Operator, Token, TokenV,
};

verus! {

// Infix-to-postfix reordering by the shunting-yard algorithm. The parser
// keeps an operator/parenthesis stack, an output sequence, and one piece of
// state: whether an operand (or unary prefix) is expected next, which is
// what tells binary subtraction from unary negation. `spec_shunting_yard`
// is the mathematical form of the algorithm; `shunting_yard` is proved to
// compute it.

/// A failure of infix-to-postfix parsing.
#[derive(Debug, Clone, Copy, PartialEq, Eq, Structural)]
pub enum ParseError {
    /// An operator arrived where an operand was expected, and it was not
    /// `-` (the one operator with a unary reading).
    UnexpectedOperator,
    /// A parenthesis without a partner.
    MismatchedParenthesis,
}

/// The parser's state between tokens.
pub struct SyState {
    pub stack: Seq<TokenV>,
    pub out: Seq<TokenV>,
    pub expect_operand: bool,
}

/// The stack and the popped entries, in pop order, after popping every
/// stacked operator that the pop rule orders out before `incoming` is
/// pushed. Popping stops at a left parenthesis or any non-operator entry.
pub open spec fn pop_ops(stack: Seq<TokenV>, incoming: Operator) -> (Seq<TokenV>, Seq<TokenV>)
    decreases stack.len(),
{
    if stack.len() > 0 && (match stack.last() {
        TokenV::Op(top) => spec_should_pop(top, incoming),
        _ => false,
    }) {
        let r = pop_ops(stack.drop_last(), incoming);
        (r.0, seq![stack.last()] + r.1)
    } else {
        (stack, Seq::empty())
    }
}

/// The stack and the popped operators, in pop order, after popping down to
/// and discarding the nearest left parenthesis; `None` where the stack
/// holds no left parenthesis. Entries that are neither operators nor the
/// left parenthesis are discarded (the stack never holds any).
pub open spec fn pop_to_lparen(stack: Seq<TokenV>) -> Option<(Seq<TokenV>, Seq<TokenV>)>
    decreases stack.len(),
{
    if stack.len() == 0 {
        None
    } else {
        match stack.last() {
            TokenV::LParenthesis => Some((stack.drop_last(), Seq::empty())),
            TokenV::Op(_) => match pop_to_lparen(stack.drop_last()) {
                None => None,
                Some(r) => Some((r.0, seq![stack.last()] + r.1)),
            },
            _ => pop_to_lparen(stack.drop_last()),
        }
    }
}

/// One step of the shunting-yard algorithm on one token.
pub open spec fn sy_step(st: SyState, t: TokenV) -> Result<SyState, ParseError> {
    match t {
        TokenV::Number(_) => Ok(
            SyState { stack: st.stack, out: st.out.push(t), expect_operand: false },
        ),
        TokenV::Ident(_) => Ok(
            SyState { stack: st.stack, out: st.out.push(t), expect_operand: false },
        ),
        TokenV::Op(op0) => {
            if st.expect_operand && op0 != Operator::Sub {
                Err(ParseError::UnexpectedOperator)
            } else {
                let op = if st.expect_operand {
                    Operator::UnarySub
                } else {
                    op0
                };
                let r = pop_ops(st.stack, op);
                Ok(
                    SyState {
                        stack: r.0.push(TokenV::Op(op)),
                        out: st.out + r.1,
                        expect_operand: true,
                    },
                )
            }
        },
        TokenV::LParenthesis => Ok(
            SyState { stack: st.stack.push(t), out: st.out, expect_operand: true },
        ),
        TokenV::RParenthesis => match pop_to_lparen(st.stack) {
            None => Err(ParseError::MismatchedParenthesis),
            Some(r) => Ok(SyState { stack: r.0, out: st.out + r.1, expect_operand: false }),
        },
    }
}

/// The parser's starting state: an operand is expected first.
pub open spec fn sy_init() -> SyState {
    SyState { stack: Seq::empty(), out: Seq::empty(), expect_operand: true }
}

/// The parser's state after the first `n` tokens, or the first failure.
pub open spec fn sy_run(ts: Seq<TokenV>, n: int) -> Result<SyState, ParseError>
    decreases n,
    when 0 <= n <= ts.len()
{
    if n <= 0 {
        Ok(sy_init())
    } else {
        match sy_run(ts, n - 1) {
            Err(e) => Err(e),
            Ok(st) => sy_step(st, ts[n - 1]),
        }
    }
}

/// The final pop of the whole stack to the output; a parenthesis still on
/// the stack at this point has no partner.
pub open spec fn drain_stack(stack: Seq<TokenV>) -> Result<Seq<TokenV>, ParseError>
    decreases stack.len(),
{
    if stack.len() == 0 {
        Ok(Seq::empty())
    } else {
        match stack.last() {
            TokenV::LParenthesis => Err(ParseError::MismatchedParenthesis),
            TokenV::RParenthesis => Err(ParseError::MismatchedParenthesis),
            _ => match drain_stack(stack.drop_last()) {
                Err(e) => Err(e),
                Ok(rest) => Ok(seq![stack.last()] + rest),
            },
        }
    }
}

/// The postfix form of the token sequence, or the first parse failure.
pub open spec fn spec_shunting_yard(ts: Seq<TokenV>) -> Result<Seq<TokenV>, ParseError> {
    match sy_run(ts, ts.len() as int) {
        Err(e) => Err(e),
        Ok(st) => match drain_stack(st.stack) {
            Err(e) => Err(e),
            Ok(tail) => Ok(st.out + tail),
        },
    }
}

/// The views of a parser result.
pub open spec fn parse_view(r: Result<Vec<Token>, ParseError>) -> Result<Seq<TokenV>, ParseError> {
    match r {
        Ok(v) => Ok(token_views(v@)),
        Err(e) => Err(e),
    }
}

/// Once a step fails, every longer run fails the same way.
proof fn lemma_sy_run_err(ts: Seq<TokenV>, k: int, m: int)
    requires
        0 <= k <= m <= ts.len(),
        sy_run(ts, k) is Err,
    ensures
        sy_run(ts, m) == sy_run(ts, k),
    decreases m - k,
{
    if m > k {
        lemma_sy_run_err(ts, k, m - 1);
    }
}

/// Reorders an infix token sequence into postfix order, honoring operator
/// precedence and associativity, parenthesis grouping, and the unary
/// reading of `-` where an operand was expected.
pub fn shunting_yard(tokens: &Vec<Token>) -> (r: Result<Vec<Token>, ParseError>)
    ensures
        parse_view(r) == spec_shunting_yard(token_views(tokens@)),
{
    let ghost tsv = token_views(tokens@);
    let n = tokens.len();
    let mut output: Vec<Token> = Vec::new();
    let mut stack: Vec<Token> = Vec::new();
    let mut expect_operand: bool = true;
    let mut idx: usize = 0;
    proof {
        assert(token_views(output@) =~= Seq::<TokenV>::empty());
        assert(token_views(stack@) =~= Seq::<TokenV>::empty());
    }
    while idx < n
        invariant
            tsv == token_views(tokens@),
            n == tokens@.len(),
            tsv.len() == n,
            0 <= idx <= n,
            sy_run(tsv, idx as int) == Ok::<SyState, ParseError>(
                SyState {
                    stack: token_views(stack@),
                    out: token_views(output@),
                    expect_operand,
                },
            ),
        decreases n - idx,
    {
        let ghost st0 = SyState {
            stack: token_views(stack@),
            out: token_views(output@),
            expect_operand,
        };
        proof {
            assert(tsv[idx as int] == tokens@[idx as int]@);
        }
        let t = &tokens[idx];
        match t {
            Token::Number(_) | Token::Ident(_) => {
                output.push(t.clone());
                expect_operand = false;
                proof {
                    assert(token_views(output@) =~= st0.out.push(tsv[idx as int]));
                    assert(sy_run(tsv, idx as int + 1) == Ok::<SyState, ParseError>(
                        SyState {
                            stack: token_views(stack@),
                            out: token_views(output@),
                            expect_operand,
                        },
                    ));
                }
            },
            Token::Op(op) => {
                let mut current_op = *op;
                if expect_operand {
                    if current_op == Operator::Sub {
                        current_op = Operator::UnarySub;
                    } else {
                        proof {
                            assert(sy_step(st0, tsv[idx as int]) == Err::<SyState, ParseError>(
                                ParseError::UnexpectedOperator,
                            ));
                            assert(sy_run(tsv, idx as int + 1) is Err);
                            lemma_sy_run_err(tsv, idx as int + 1, n as int);
                        }
                        return Err(ParseError::UnexpectedOperator);
                    }
                }
                let ghost opg = current_op;
                let ghost target = pop_ops(st0.stack, opg);
                loop
                    invariant
                        opg == current_op,
                        target == pop_ops(st0.stack, opg),
                        pop_ops(token_views(stack@), opg).0 == target.0,
                        token_views(output@) + pop_ops(token_views(stack@), opg).1 == st0.out
                            + target.1,
                    ensures
                        token_views(stack@) == target.0,
                        token_views(output@) == st0.out + target.1,
                    decreases stack@.len(),
                {
                    let ghost cur = token_views(stack@);
                    if stack.len() == 0 {
                        proof {
                            assert(pop_ops(cur, opg) == (cur, Seq::<TokenV>::empty()));
                            assert(token_views(output@) + Seq::<TokenV>::empty() =~= token_views(
                                output@,
                            ));
                        }
                        break ;
                    }
                    let should = match &stack[stack.len() - 1] {
                        Token::Op(sop) => should_pop_operator(*sop, current_op),
                        _ => false,
                    };
                    proof {
                        assert(cur.last() == stack@[stack@.len() - 1]@);
                    }
                    if should {
                        let popped = stack.pop().unwrap();
                        output.push(popped);
                        proof {
                            assert(token_views(stack@) =~= cur.drop_last());
                            assert(pop_ops(cur, opg) == (
                                pop_ops(cur.drop_last(), opg).0,
                                seq![cur.last()] + pop_ops(cur.drop_last(), opg).1,
                            ));
                            assert(token_views(output@) + pop_ops(token_views(stack@), opg).1
                                =~= st0.out + target.1);
                        }
                    } else {
                        proof {
                            assert(pop_ops(cur, opg) == (cur, Seq::<TokenV>::empty()));
                            assert(token_views(output@) + Seq::<TokenV>::empty() =~= token_views(
                                output@,
                            ));
                        }
                        break ;
                    }
                }
                stack.push(Token::Op(current_op));
                expect_operand = true;
                proof {
                    assert(token_views(stack@) =~= target.0.push(TokenV::Op(opg)));
                    assert(sy_run(tsv, idx as int + 1) == Ok::<SyState, ParseError>(
                        SyState {
                            stack: token_views(stack@),
                            out: token_views(output@),
                            expect_operand,
                        },
                    ));
                }
            },
            Token::LParenthesis => {
                stack.push(Token::LParenthesis);
                expect_operand = true;
                proof {
                    assert(token_views(stack@) =~= st0.stack.push(TokenV::LParenthesis));
                    assert(sy_run(tsv, idx as int + 1) == Ok::<SyState, ParseError>(
                        SyState {
                            stack: token_views(stack@),
                            out: token_views(output@),
                            expect_operand,
                        },
                    ));
                }
            },
            Token::RParenthesis => {
                let ghost target = pop_to_lparen(st0.stack);
                loop
                    invariant_except_break
                        (match pop_to_lparen(token_views(stack@)) {
                            None => target is None,
                            Some(r) => target matches Some(t2) && t2.0 == r.0 && st0.out + t2.1
                                == token_views(output@) + r.1,
                        }),
                    invariant
                        tsv == token_views(tokens@),
                        n == tokens@.len(),
                        tsv.len() == n,
                        0 <= idx < n,
                        tsv[idx as int] == TokenV::RParenthesis,
                        sy_run(tsv, idx as int) == Ok::<SyState, ParseError>(st0),
                        target == pop_to_lparen(st0.stack),
                    ensures
                        target matches Some(t2) && token_views(stack@) == t2.0 && token_views(
                            output@,
                        ) == st0.out + t2.1,
                    decreases stack@.len(),
                {
                    let ghost cur = token_views(stack@);
                    let ghost outp = token_views(output@);
                    match stack.pop() {
                        None => {
                            proof {
                                assert(pop_to_lparen(cur) is None);
                                assert(sy_step(st0, tsv[idx as int]) == Err::<
                                    SyState,
                                    ParseError,
                                >(ParseError::MismatchedParenthesis));
                                assert(sy_run(tsv, idx as int + 1) is Err);
                                lemma_sy_run_err(tsv, idx as int + 1, n as int);
                            }
                            return Err(ParseError::MismatchedParenthesis);
                        },
                        Some(popped) => {
                            proof {
                                assert(cur.last() == popped@);
                                assert(token_views(stack@) =~= cur.drop_last());
                            }
                            match popped {
                                Token::LParenthesis => {
                                    proof {
                                        assert(pop_to_lparen(cur) == Some(
                                            (cur.drop_last(), Seq::<TokenV>::empty()),
                                        ));
                                        assert(token_views(output@) + Seq::<TokenV>::empty()
                                            =~= token_views(output@));
                                    }
                                    break ;
                                },
                                Token::Op(_) => {
                                    output.push(popped);
                                    proof {
                                        assert(token_views(output@) =~= outp.push(cur.last()));
                                        if let Some(r) = pop_to_lparen(token_views(stack@)) {
                                            assert(pop_to_lparen(cur) == Some(
                                                (r.0, seq![cur.last()] + r.1),
                                            ));
                                            assert(outp.push(cur.last()) + r.1 =~= outp + (seq![
                                                cur.last(),
                                            ] + r.1));
                                        }
                                    }
                                },
                                _ => {
                                    proof {
                                        assert(pop_to_lparen(cur) == pop_to_lparen(
                                            token_views(stack@),
                                        ));
                                    }
                                },
                            }
                        },
                    }
                }
                expect_operand = false;
                proof {
                    assert(sy_run(tsv, idx as int + 1) == Ok::<SyState, ParseError>(
                        SyState {
                            stack: token_views(stack@),
                            out: token_views(output@),
                            expect_operand,
                        },
                    ));
                }
            },
        }
        idx = idx + 1;
    }
    let ghost stf = SyState {
        stack: token_views(stack@),
        out: token_views(output@),
        expect_operand,
    };
    loop
        invariant
            tsv == token_views(tokens@),
            sy_run(tsv, tsv.len() as int) == Ok::<SyState, ParseError>(stf),
            (match drain_stack(token_views(stack@)) {
                Err(e) => drain_stack(stf.stack) == Err::<Seq<TokenV>, ParseError>(e),
                Ok(rest) => (match drain_stack(stf.stack) {
                    Ok(all) => stf.out + all == token_views(output@) + rest,
                    Err(_) => false,
                }),
            }),
        ensures
            drain_stack(stf.stack) matches Ok(all) && stf.out + all == token_views(output@),
        decreases stack@.len(),
    {
        let ghost cur = token_views(stack@);
        let ghost outp = token_views(output@);
        match stack.pop() {
            None => {
                proof {
                    assert(drain_stack(cur) == Ok::<Seq<TokenV>, ParseError>(
                        Seq::<TokenV>::empty(),
                    ));
                    assert(token_views(output@) + Seq::<TokenV>::empty() =~= token_views(
                        output@,
                    ));
                }
                break ;
            },
            Some(popped) => {
                proof {
                    assert(cur.last() == popped@);
                    assert(token_views(stack@) =~= cur.drop_last());
                }
                match popped {
                    Token::LParenthesis | Token::RParenthesis => {
                        proof {
                            assert(drain_stack(cur) == Err::<Seq<TokenV>, ParseError>(
                                ParseError::MismatchedParenthesis,
                            ));
                        }
                        return Err(ParseError::MismatchedParenthesis);
                    },
                    _ => {
                        output.push(popped);
                        proof {
                            assert(token_views(output@) =~= outp.push(cur.last()));
                            if let Ok(rest) = drain_stack(token_views(stack@)) {
                                assert(drain_stack(cur) == Ok::<Seq<TokenV>, ParseError>(
                                    seq![cur.last()] + rest,
                                ));
                                assert(outp.push(cur.last()) + rest =~= outp + (seq![cur.last()]
                                    + rest));
                            }
                        }
                    },
                }
            },
        }
    }
    Ok(output)
}

// Postfix evaluation over a stack of decimal values. `spec_eval_rpn` is the
// mathematical form; `eval_rpn` is proved to compute it.

/// A failure of postfix evaluation.
#[derive(Debug, Clone, Copy, PartialEq, Eq, Structural)]
pub enum ArithError {
    /// An operator reached with fewer stacked values than it consumes.
    InsufficientOperands,
    /// A division whose divisor is zero.
    DivisionByZero,
    /// A modulo whose divisor is zero.
    ModuloByZero,
    /// A power whose exponent has a fractional part.
    NonIntegerExponent,
    /// A power whose exponent does not fit a 64-bit signed integer.
    ExponentOutOfRange,
    /// A postfix stream that is not well formed: a stray parenthesis, or a
    /// stack that does not end with exactly one value.
    MalformedExpression,
}

/// The result of one binary operation on the decimals written `lhs` and
/// `rhs`: exact addition, subtraction and multiplication; division and
/// modulo reject a zero divisor; power rejects a fractional or
/// unrepresentable exponent. A unary tag in binary position is malformed.
pub open spec fn apply_operator_spec(lhs: Seq<char>, rhs: Seq<char>, op: Operator) -> Result<
    Seq<char>,
    ArithError,
> {
    match op {
        Operator::Add => Ok(dec_add(lhs, rhs)),
        Operator::Sub => Ok(dec_sub(lhs, rhs)),
        Operator::Mul => Ok(dec_mul(lhs, rhs)),
        Operator::Div => if dec_is_zero(rhs) {
            Err(ArithError::DivisionByZero)
        } else {
            Ok(dec_div(lhs, rhs))
        },
        Operator::Mod => if dec_is_zero(rhs) {
            Err(ArithError::ModuloByZero)
        } else {
            Ok(dec_rem(lhs, rhs))
        },
        Operator::Pow => if !dec_is_integer(rhs) {
            Err(ArithError::NonIntegerExponent)
        } else {
            match dec_to_i64(rhs) {
                None => Err(ArithError::ExponentOutOfRange),
                Some(e) => Ok(dec_powi(lhs, e)),
            }
        },
        Operator::UnarySub => Err(ArithError::MalformedExpression),
    }
}

/// The result of one unary operation on the decimal written `v`: only
/// unary negation exists.
pub open spec fn apply_unary_spec(v: Seq<char>, op: Operator) -> Result<Seq<char>, ArithError> {
    match op {
        Operator::UnarySub => Ok(dec_neg(v)),
        _ => Err(ArithError::MalformedExpression),
    }
}

/// The views of a decimal result.
pub open spec fn arith_view(r: Result<Dec, ArithError>) -> Result<Seq<char>, ArithError> {
    match r {
        Ok(d) => Ok(d@),
        Err(e) => Err(e),
    }
}

/// Applies a binary operator to two popped values.
pub fn apply_operator(lhs: Dec, rhs: Dec, op: Operator) -> (r: Result<Dec, ArithError>)
    ensures
        arith_view(r) == apply_operator_spec(lhs@, rhs@, op),
{
    match op {
        Operator::Add => Ok(dec_add_exec(&lhs, &rhs)),
        Operator::Sub => Ok(dec_sub_exec(&lhs, &rhs)),
        Operator::Mul => Ok(dec_mul_exec(&lhs, &rhs)),
        Operator::Div => {
            if dec_is_zero_exec(&rhs) {
                Err(ArithError::DivisionByZero)
            } else {
                Ok(dec_div_exec(&lhs, &rhs))
            }
        },
        Operator::Mod => {
            if dec_is_zero_exec(&rhs) {
                Err(ArithError::ModuloByZero)
            } else {
                Ok(dec_rem_exec(&lhs, &rhs))
            }
        },
        Operator::Pow => {
            if !dec_is_integer_exec(&rhs) {
                Err(ArithError::NonIntegerExponent)
            } else {
                match dec_to_i64_exec(&rhs) {
                    None => Err(ArithError::ExponentOutOfRange),
                    Some(e) => Ok(dec_powi_exec(&lhs, e)),
                }
            }
        },
        Operator::UnarySub => Err(ArithError::MalformedExpression),
    }
}

/// Applies a unary operator to one popped value.
pub fn apply_unary_operator(value: Dec, op: Operator) -> (r: Result<Dec, ArithError>)
    ensures
        arith_view(r) == apply_unary_spec(value@, op),
{
    match op {
        Operator::UnarySub => Ok(dec_neg_exec(&value)),
        _ => Err(ArithError::MalformedExpression),
    }
}

/// The views of a value stack.
pub open spec fn dec_views(s: Seq<Dec>) -> Seq<Seq<char>> {
    s.map_values(|d: Dec| d@)
}

/// The value stack after one postfix token: numbers and constants push
/// their value; a unary operator replaces the top value by its negation; a
/// binary operator replaces the two top values (the topmost is the
/// right-hand side) by the operation's result; too few stacked values or a
/// stray parenthesis fail.
pub open spec fn rpn_step(stack: Seq<Seq<char>>, t: TokenV) -> Result<Seq<Seq<char>>, ArithError> {
    match t {
        TokenV::Number(x) => Ok(stack.push(x)),
        TokenV::Ident(m) => Ok(stack.push(m.spec_value())),
        TokenV::Op(op) => {
            if op == Operator::UnarySub {
                if stack.len() < 1 {
                    Err(ArithError::InsufficientOperands)
                } else {
                    match apply_unary_spec(stack.last(), op) {
                        Err(e) => Err(e),
                        Ok(v) => Ok(stack.drop_last().push(v)),
                    }
                }
            } else {
                if stack.len() < 2 {
                    Err(ArithError::InsufficientOperands)
                } else {
                    match apply_operator_spec(stack.drop_last().last(), stack.last(), op) {
                        Err(e) => Err(e),
                        Ok(v) => Ok(stack.drop_last().drop_last().push(v)),
                    }
                }
            }
        },
        TokenV::LParenthesis => Err(ArithError::MalformedExpression),
        TokenV::RParenthesis => Err(ArithError::MalformedExpression),
    }
}

/// The value stack after the first `n` postfix tokens, or the first failure.
pub open spec fn rpn_run(ts: Seq<TokenV>, n: int) -> Result<Seq<Seq<char>>, ArithError>
    decreases n,
    when 0 <= n <= ts.len()
{
    if n <= 0 {
        Ok(Seq::empty())
    } else {
        match rpn_run(ts, n - 1) {
            Err(e) => Err(e),
            Ok(st) => rpn_step(st, ts[n - 1]),
        }
    }
}

/// The value of a postfix token sequence: the single value left on the
/// stack after every token is processed, or the first failure; a stack
/// that does not end with exactly one value is malformed.
pub open spec fn spec_eval_rpn(ts: Seq<TokenV>) -> Result<Seq<char>, ArithError> {
    match rpn_run(ts, ts.len() as int) {
        Err(e) => Err(e),
        Ok(st) => if st.len() == 1 {
            Ok(st[0])
        } else {
            Err(ArithError::MalformedExpression)
        },
    }
}

/// Once a step fails, every longer run fails the same way.
proof fn lemma_rpn_run_err(ts: Seq<TokenV>, k: int, m: int)
    requires
        0 <= k <= m <= ts.len(),
        rpn_run(ts, k) is Err,
    ensures
        rpn_run(ts, m) == rpn_run(ts, k),
    decreases m - k,
{
    if m > k {
        lemma_rpn_run_err(ts, k, m - 1);
    }
}

/// Evaluates a postfix token sequence on a value stack.
pub fn eval_rpn(tokens: &Vec<Token>) -> (r: Result<Dec, ArithError>)
    ensures
        arith_view(r) == spec_eval_rpn(token_views(tokens@)),
{
    let ghost tsv = token_views(tokens@);
    let n = tokens.len();
    let mut stack: Vec<Dec> = Vec::new();
    let mut idx: usize = 0;
    proof {
        assert(dec_views(stack@) =~= Seq::<Seq<char>>::empty());
    }
    while idx < n
        invariant
            tsv == token_views(tokens@),
            n == tokens@.len(),
            tsv.len() == n,
            0 <= idx <= n,
            rpn_run(tsv, idx as int) == Ok::<Seq<Seq<char>>, ArithError>(dec_views(stack@)),
        decreases n - idx,
    {
        let ghost st0 = dec_views(stack@);
        proof {
            assert(tsv[idx as int] == tokens@[idx as int]@);
        }
        let t = &tokens[idx];
        match t {
            Token::Number(num) => {
                stack.push(num.clone());
                proof {
                    assert(dec_views(stack@) =~= st0.push(num@));
                }
            },
            Token::Ident(m) => {
                stack.push(m.value());
                proof {
                    assert(dec_views(stack@) =~= st0.push(m.spec_value()));
                }
            },
            Token::Op(op) => {
                if matches!(op, Operator::UnarySub) {
                    let value = match stack.pop() {
                        Some(v) => v,
                        None => {
                            proof {
                                assert(rpn_run(tsv, idx as int + 1) is Err);
                                lemma_rpn_run_err(tsv, idx as int + 1, n as int);
                            }
                            return Err(ArithError::InsufficientOperands);
                        },
                    };
                    proof {
                        assert(value@ == st0.last());
                        assert(dec_views(stack@) =~= st0.drop_last());
                    }
                    match apply_unary_operator(value, *op) {
                        Ok(result) => {
                            stack.push(result);
                            proof {
                                assert(dec_views(stack@) =~= st0.drop_last().push(
                                    dec_neg(st0.last()),
                                ));
                            }
                        },
                        Err(e) => {
                            proof {
                                assert(rpn_run(tsv, idx as int + 1) is Err);
                                lemma_rpn_run_err(tsv, idx as int + 1, n as int);
                            }
                            return Err(e);
                        },
                    }
                } else {
                    let rhs = match stack.pop() {
                        Some(v) => v,
                        None => {
                            proof {
                                assert(rpn_run(tsv, idx as int + 1) is Err);
                                lemma_rpn_run_err(tsv, idx as int + 1, n as int);
                            }
                            return Err(ArithError::InsufficientOperands);
                        },
                    };
                    let lhs = match stack.pop() {
                        Some(v) => v,
                        None => {
                            proof {
                                assert(rpn_run(tsv, idx as int + 1) is Err);
                                lemma_rpn_run_err(tsv, idx as int + 1, n as int);
                            }
                            return Err(ArithError::InsufficientOperands);
                        },
                    };
                    proof {
                        assert(rhs@ == st0.last());
                        assert(lhs@ == st0.drop_last().last());
                        assert(dec_views(stack@) =~= st0.drop_last().drop_last());
                    }
                    match apply_operator(lhs, rhs, *op) {
                        Ok(result) => {
                            stack.push(result);
                            proof {
                                assert(dec_views(stack@) =~= st0.drop_last().drop_last().push(
                                    result@,
                                ));
                            }
                        },
                        Err(e) => {
                            proof {
                                assert(rpn_run(tsv, idx as int + 1) is Err);
                                lemma_rpn_run_err(tsv, idx as int + 1, n as int);
                            }
                            return Err(e);
                        },
                    }
                }
            },
            Token::LParenthesis | Token::RParenthesis => {
                proof {
                    assert(rpn_run(tsv, idx as int + 1) is Err);
                    lemma_rpn_run_err(tsv, idx as int + 1, n as int);
                }
                return Err(ArithError::MalformedExpression);
            },
        }
        idx = idx + 1;
    }
    if stack.len() != 1 {
        return Err(ArithError::MalformedExpression);
    }
    let result = match stack.pop() {
        Some(v) => v,
        None => {
            return Err(ArithError::MalformedExpression);
        },
    };
    proof {
        assert(result@ == dec_views(stack@.push(result))[0]);
    }
    Ok(result)
}

// The whole pipeline: text in, decimal value or staged error out.

/// A failure of evaluation, carrying the stage that failed and why.
#[derive(Debug)]
pub enum EvalError {
    Lex(LexError),
    Parse(ParseError),
    Arith(ArithError),
}

/// The mathematical shape of an evaluation failure.
pub enum EvalErrorV {
    Lex(LexErrorV),
    Parse(ParseError),
    Arith(ArithError),
}

impl View for EvalError {
    type V = EvalErrorV;

    open spec fn view(&self) -> EvalErrorV {
        match self {
            EvalError::Lex(e) => EvalErrorV::Lex(e@),
            EvalError::Parse(e) => EvalErrorV::Parse(*e),
            EvalError::Arith(e) => EvalErrorV::Arith(*e),
        }
    }
}

/// The value of an expression text: tokenize, reorder to postfix, then
/// evaluate the postfix form, stopping at the first failure.
pub open spec fn spec_eval(input: Seq<char>) -> Result<Seq<char>, EvalErrorV> {
    match spec_tokenize(input) {
        Err(e) => Err(EvalErrorV::Lex(e)),
        Ok(ts) => match spec_shunting_yard(ts) {
            Err(e) => Err(EvalErrorV::Parse(e)),
            Ok(rpn) => match spec_eval_rpn(rpn) {
                Err(e) => Err(EvalErrorV::Arith(e)),
                Ok(v) => Ok(v),
            },
        },
    }
}

/// The views of an evaluation result.
pub open spec fn eval_view(r: Result<Dec, EvalError>) -> Result<Seq<char>, EvalErrorV> {
    match r {
        Ok(d) => Ok(d@),
        Err(e) => Err(e@),
    }
}

/// Evaluates an arithmetic expression given as text, returning its exact
/// decimal value or the first failure of lexing, parsing, or arithmetic.
pub fn eval(input: &str) -> (r: Result<Dec, EvalError>)
    ensures
        eval_view(r) == spec_eval(input@),
{
    let tokens = match tokenize(input) {
        Ok(t) => t,
        Err(e) => {
            return Err(EvalError::Lex(e));
        },
    };
    let rpn = match shunting_yard(&tokens) {
        Ok(t) => t,
        Err(e) => {
            return Err(EvalError::Parse(e));
        },
    };
    match eval_rpn(&rpn) {
        Ok(v) => Ok(v),
        Err(e) => Err(EvalError::Arith(e)),
    }
}

} // verus!
