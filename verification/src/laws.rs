use vstd::prelude::*;

use crate::decimal::{dec_add, dec_is_integer, dec_is_zero, dec_mul, dec_sub, dec_to_i64};
use crate::evaluator::{
    apply_operator_spec, drain_stack, pop_ops, pop_to_lparen, rpn_run, rpn_step, spec_eval,
    spec_eval_rpn, spec_shunting_yard, sy_init, sy_run, sy_step, ArithError, EvalErrorV,
    ParseError, SyState,
};
use crate::tokenizer::{lower_seq, spec_tokenize};
use crate::tokens::{
    const_of_name, spec_associativity, spec_precedence, spec_should_pop, Assoc, MathConst,
    Operator, TokenV,
};

verus! {

// The laws of the evaluator that relate several functions, stated over the
// same spec functions that the executable functions' contracts use.

/// The number of left parentheses among the tokens.
pub open spec fn paren_l(ts: Seq<TokenV>) -> int
    decreases ts.len(),
{
    if ts.len() == 0 {
        0
    } else {
        paren_l(ts.drop_last()) + (if ts.last() is LParenthesis {
            1int
        } else {
            0int
        })
    }
}

/// The number of right parentheses among the tokens.
pub open spec fn paren_r(ts: Seq<TokenV>) -> int
    decreases ts.len(),
{
    if ts.len() == 0 {
        0
    } else {
        paren_r(ts.drop_last()) + (if ts.last() is RParenthesis {
            1int
        } else {
            0int
        })
    }
}

/// Balanced parenthesization: no prefix closes more groups than it has
/// opened, and every opened group is closed.
pub open spec fn paren_balanced(ts: Seq<TokenV>) -> bool {
    (forall|i: int|
        0 <= i <= ts.len() ==> paren_r(#[trigger] ts.take(i)) <= paren_l(ts.take(i)))
        && paren_l(ts) == paren_r(ts)
}

proof fn lemma_paren_nonneg(ts: Seq<TokenV>)
    ensures
        paren_l(ts) >= 0,
        paren_r(ts) >= 0,
    decreases ts.len(),
{
    if ts.len() > 0 {
        lemma_paren_nonneg(ts.drop_last());
    }
}

proof fn lemma_take_succ(ts: Seq<TokenV>, i: int)
    requires
        0 <= i < ts.len(),
    ensures
        ts.take(i + 1).drop_last() == ts.take(i),
        ts.take(i + 1).last() == ts[i],
{
    assert(ts.take(i + 1).drop_last() =~= ts.take(i));
}

/// Popping operators off the stack moves no parenthesis.
proof fn lemma_pop_ops_parens(stack: Seq<TokenV>, incoming: Operator)
    ensures
        paren_l(pop_ops(stack, incoming).0) == paren_l(stack),
    decreases stack.len(),
{
    if stack.len() > 0 && (match stack.last() {
        TokenV::Op(top) => spec_should_pop(top, incoming),
        _ => false,
    }) {
        lemma_pop_ops_parens(stack.drop_last(), incoming);
    }
}

/// Popping to the nearest left parenthesis removes exactly one of them,
/// and finds none exactly when the stack holds none.
proof fn lemma_pop_to_lparen_parens(stack: Seq<TokenV>)
    ensures
        match pop_to_lparen(stack) {
            None => paren_l(stack) == 0,
            Some(r) => paren_l(r.0) == paren_l(stack) - 1,
        },
    decreases stack.len(),
{
    if stack.len() > 0 {
        match stack.last() {
            TokenV::LParenthesis => {
            },
            _ => {
                lemma_pop_to_lparen_parens(stack.drop_last());
            },
        }
    }
}

/// A stack that drains without failure holds no parenthesis.
proof fn lemma_drain_ok_no_parens(stack: Seq<TokenV>)
    requires
        drain_stack(stack) is Ok,
    ensures
        paren_l(stack) == 0,
        paren_r(stack) == 0,
    decreases stack.len(),
{
    if stack.len() > 0 {
        lemma_drain_ok_no_parens(stack.drop_last());
    }
}

/// While the parser has not failed, the left parentheses still on its
/// stack are exactly the opened-and-unclosed groups of the consumed
/// prefix, and no consumed prefix has closed more groups than it opened.
proof fn lemma_sy_run_balance(ts: Seq<TokenV>, n: int)
    requires
        0 <= n <= ts.len(),
        sy_run(ts, n) is Ok,
    ensures
        paren_l((sy_run(ts, n)->Ok_0).stack) == paren_l(ts.take(n)) - paren_r(ts.take(n)),
        forall|i: int|
            0 <= i <= n ==> paren_r(#[trigger] ts.take(i)) <= paren_l(ts.take(i)),
    decreases n,
{
    if n == 0 {
        assert(ts.take(0) =~= Seq::<TokenV>::empty());
    } else {
        assert(sy_run(ts, n - 1) is Ok);
        lemma_sy_run_balance(ts, n - 1);
        let st = sy_run(ts, n - 1)->Ok_0;
        let t = ts[n - 1];
        lemma_take_succ(ts, n - 1);
        let st1 = (sy_run(ts, n)->Ok_0);
        match t {
            TokenV::Number(_) => {
            },
            TokenV::Ident(_) => {
            },
            TokenV::Op(op0) => {
                let op = if st.expect_operand {
                    Operator::UnarySub
                } else {
                    op0
                };
                lemma_pop_ops_parens(st.stack, op);
                assert(st1.stack.last() == TokenV::Op(op));
                assert(st1.stack.drop_last() =~= pop_ops(st.stack, op).0);
            },
            TokenV::LParenthesis => {
                assert(st1.stack.drop_last() =~= st.stack);
            },
            TokenV::RParenthesis => {
                lemma_pop_to_lparen_parens(st.stack);
            },
        }
        assert(paren_l(st1.stack) == paren_l(ts.take(n)) - paren_r(ts.take(n)));
        lemma_paren_nonneg(st1.stack);
        assert forall|i: int|
            0 <= i <= n implies paren_r(#[trigger] ts.take(i)) <= paren_l(ts.take(i)) by {
            if i == n {
                assert(paren_r(ts.take(n)) == paren_l(ts.take(n)) - paren_l(st1.stack));
            }
        }
    }
}

/// Parenthesis balance: whenever infix-to-postfix reordering succeeds, the
/// token sequence was balanced — equivalently, an unbalanced sequence
/// always fails.
pub proof fn shunting_ok_implies_balanced(ts: Seq<TokenV>)
    requires
        spec_shunting_yard(ts) is Ok,
    ensures
        paren_balanced(ts),
{
    lemma_sy_run_balance(ts, ts.len() as int);
    let st = sy_run(ts, ts.len() as int)->Ok_0;
    lemma_drain_ok_no_parens(st.stack);
    assert(ts.take(ts.len() as int) =~= ts);
}

/// Parenthesis balance at the entry point: whenever evaluation succeeds,
/// the token sequence of the input was balanced.
pub proof fn eval_ok_implies_balanced(input: Seq<char>)
    requires
        spec_eval(input) is Ok,
    ensures
        spec_tokenize(input) matches Ok(ts) && paren_balanced(ts),
{
    let ts = spec_tokenize(input)->Ok_0;
    shunting_ok_implies_balanced(ts);
}

/// Operators of equal precedence are popped exactly when the incoming
/// operator is left-associative: left-associative operators group
/// left-to-right, right-associative ones chain right-to-left.
pub proof fn equal_precedence_pops_iff_left(stack_op: Operator, incoming: Operator)
    requires
        spec_precedence(stack_op) == spec_precedence(incoming),
    ensures
        spec_should_pop(stack_op, incoming) <==> spec_associativity(incoming) == Assoc::Left,
{
}

/// Power chains right-to-left: a stacked power never pops for an incoming
/// power.
pub proof fn power_chains_right()
    ensures
        !spec_should_pop(Operator::Pow, Operator::Pow),
{
}

/// A stacked operator of strictly higher precedence is always popped
/// first.
pub proof fn higher_precedence_pops(stack_op: Operator, incoming: Operator)
    requires
        spec_precedence(stack_op) > spec_precedence(incoming),
    ensures
        spec_should_pop(stack_op, incoming),
{
}

/// Unary-minus disambiguation: where an operand is expected, `-` is the
/// only operator accepted, and it is reordered as unary negation; any
/// other operator is rejected there.
pub proof fn unary_minus_disambiguation(st: SyState, op0: Operator)
    requires
        st.expect_operand,
    ensures
        op0 != Operator::Sub ==> sy_step(st, TokenV::Op(op0)) == Err::<SyState, ParseError>(
            ParseError::UnexpectedOperator,
        ),
        op0 == Operator::Sub ==> (sy_step(st, TokenV::Op(op0)) matches Ok(st1) && st1.stack.last()
            == TokenV::Op(Operator::UnarySub)),
{
}

/// Division by zero is rejected, never computed.
pub proof fn division_by_zero_rejected(lhs: Seq<char>, rhs: Seq<char>)
    requires
        dec_is_zero(rhs),
    ensures
        apply_operator_spec(lhs, rhs, Operator::Div) == Err::<Seq<char>, ArithError>(
            ArithError::DivisionByZero,
        ),
{
}

/// Modulo by zero is rejected, never computed.
pub proof fn modulo_by_zero_rejected(lhs: Seq<char>, rhs: Seq<char>)
    requires
        dec_is_zero(rhs),
    ensures
        apply_operator_spec(lhs, rhs, Operator::Mod) == Err::<Seq<char>, ArithError>(
            ArithError::ModuloByZero,
        ),
{
}

/// A power with a fractional exponent is rejected.
pub proof fn non_integer_exponent_rejected(lhs: Seq<char>, rhs: Seq<char>)
    requires
        !dec_is_integer(rhs),
    ensures
        apply_operator_spec(lhs, rhs, Operator::Pow) == Err::<Seq<char>, ArithError>(
            ArithError::NonIntegerExponent,
        ),
{
}

/// A power whose integer exponent does not fit a 64-bit signed integer is
/// rejected.
pub proof fn oversized_exponent_rejected(lhs: Seq<char>, rhs: Seq<char>)
    requires
        dec_is_integer(rhs),
        dec_to_i64(rhs) is None,
    ensures
        apply_operator_spec(lhs, rhs, Operator::Pow) == Err::<Seq<char>, ArithError>(
            ArithError::ExponentOutOfRange,
        ),
{
}

/// Evaluation is a pure function of the input text: two runs on the same
/// text have the same value, down to the error classification, which is
/// what the contract of `eval` pins its result to.
pub proof fn eval_deterministic(
    input: Seq<char>,
    r1: Result<Seq<char>, EvalErrorV>,
    r2: Result<Seq<char>, EvalErrorV>,
)
    requires
        r1 == spec_eval(input),
        r2 == spec_eval(input),
    ensures
        r1 == r2,
{
}

/// Every constant's canonical name, lowercased, resolves back to it.
pub proof fn constant_name_resolves(c: MathConst)
    ensures
        const_of_name(lower_seq(c.spec_name())) == Some(c),
{
    reveal_strlit("pi");
    reveal_strlit("tau");
    reveal_strlit("e");
    reveal_strlit("phi");
    reveal_strlit("c");
    reveal_strlit("h");
    reveal_strlit("g");
    reveal_strlit("r");
    reveal_strlit("na");
    reveal_strlit("kb");
    reveal_strlit("ec");
    match c {
        MathConst::Pi => {
            assert(lower_seq("pi"@) =~= "pi"@);
            assert(const_of_name("pi"@) == Some(MathConst::Pi));
        },
        MathConst::Tau => {
            assert(lower_seq("tau"@) =~= "tau"@);
            assert(const_of_name("tau"@) == Some(MathConst::Tau));
        },
        MathConst::E => {
            assert(lower_seq("e"@) =~= "e"@);
            assert(const_of_name("e"@) == Some(MathConst::E));
        },
        MathConst::Phi => {
            assert(lower_seq("phi"@) =~= "phi"@);
            assert("phi"@[0] == 'p' && "tau"@[0] == 't');
            assert("phi"@ != "tau"@);
            assert(const_of_name("phi"@) == Some(MathConst::Phi));
        },
        MathConst::C => {
            assert(lower_seq("c"@) =~= "c"@);
            assert("c"@[0] == 'c' && "e"@[0] == 'e');
            assert("c"@ != "e"@);
            assert(const_of_name("c"@) == Some(MathConst::C));
        },
        MathConst::H => {
            assert(lower_seq("h"@) =~= "h"@);
            assert("h"@[0] == 'h' && "e"@[0] == 'e' && "c"@[0] == 'c');
            assert("h"@ != "e"@ && "h"@ != "c"@);
            assert(const_of_name("h"@) == Some(MathConst::H));
        },
        MathConst::G => {
            assert(lower_seq("g"@) =~= "g"@);
            assert("g"@[0] == 'g' && "e"@[0] == 'e' && "c"@[0] == 'c' && "h"@[0] == 'h');
            assert("g"@ != "e"@ && "g"@ != "c"@ && "g"@ != "h"@);
            assert(const_of_name("g"@) == Some(MathConst::G));
        },
        MathConst::R => {
            assert(lower_seq("r"@) =~= "r"@);
            assert("r"@[0] == 'r' && "e"@[0] == 'e' && "c"@[0] == 'c' && "h"@[0] == 'h' && "g"@[0]
                == 'g');
            assert("r"@ != "e"@ && "r"@ != "c"@ && "r"@ != "h"@ && "r"@ != "g"@);
            assert(const_of_name("r"@) == Some(MathConst::R));
        },
        MathConst::Na => {
            assert(lower_seq("na"@) =~= "na"@);
            assert("na"@[0] == 'n' && "pi"@[0] == 'p');
            assert("na"@ != "pi"@);
            assert(const_of_name("na"@) == Some(MathConst::Na));
        },
        MathConst::Kb => {
            assert(lower_seq("kb"@) =~= "kb"@);
            assert("kb"@[0] == 'k' && "pi"@[0] == 'p' && "na"@[0] == 'n');
            assert("kb"@ != "pi"@ && "kb"@ != "na"@);
            assert(const_of_name("kb"@) == Some(MathConst::Kb));
        },
        MathConst::Ec => {
            assert(lower_seq("ec"@) =~= "ec"@);
            assert("ec"@[0] == 'e' && "pi"@[0] == 'p' && "na"@[0] == 'n' && "kb"@[0] == 'k');
            assert("ec"@ != "pi"@ && "ec"@ != "na"@ && "ec"@ != "kb"@);
            assert(const_of_name("ec"@) == Some(MathConst::Ec));
        },
    }
}

/// Lowercasing is idempotent, so the lexer's case-insensitive resolution
/// treats any mixed-case spelling and its lowercase form alike.
pub proof fn lower_seq_idempotent(s: Seq<char>)
    ensures
        lower_seq(lower_seq(s)) == lower_seq(s),
{
    assert(lower_seq(lower_seq(s)) =~= lower_seq(s));
}

// Arithmetic expression trees. A fully parenthesized expression over
// decimal literals is rendered to tokens and given a recursive value; the
// pipeline is proved to reorder the rendering to the tree's postfix form
// and to evaluate that form to the tree's value.

/// An arithmetic expression tree over decimal literals, each literal held
/// as its canonical text.
pub enum Expr {
    Lit(Seq<char>),
    Neg(Box<Expr>),
    Bin(Operator, Box<Expr>, Box<Expr>),
}

/// The fully parenthesized infix rendering of the tree.
pub open spec fn infix_tokens(e: Expr) -> Seq<TokenV>
    decreases e,
{
    match e {
        Expr::Lit(v) => seq![TokenV::Number(v)],
        Expr::Neg(a) => seq![TokenV::LParenthesis, TokenV::Op(Operator::Sub)] + infix_tokens(*a)
            + seq![TokenV::RParenthesis],
        Expr::Bin(op, a, b) => seq![TokenV::LParenthesis] + infix_tokens(*a) + seq![
            TokenV::Op(op),
        ] + infix_tokens(*b) + seq![TokenV::RParenthesis],
    }
}

/// The postfix rendering of the tree.
pub open spec fn postfix_tokens(e: Expr) -> Seq<TokenV>
    decreases e,
{
    match e {
        Expr::Lit(v) => seq![TokenV::Number(v)],
        Expr::Neg(a) => postfix_tokens(*a) + seq![TokenV::Op(Operator::UnarySub)],
        Expr::Bin(op, a, b) => postfix_tokens(*a) + postfix_tokens(*b) + seq![TokenV::Op(op)],
    }
}

/// The recursive value of a tree over addition, subtraction,
/// multiplication and unary negation, as the decimal operations give it.
pub open spec fn expr_value(e: Expr) -> Seq<char>
    decreases e,
{
    match e {
        Expr::Lit(v) => v,
        Expr::Neg(a) => crate::decimal::dec_neg(expr_value(*a)),
        Expr::Bin(op, a, b) => match op {
            Operator::Add => dec_add(expr_value(*a), expr_value(*b)),
            Operator::Sub => dec_sub(expr_value(*a), expr_value(*b)),
            Operator::Mul => dec_mul(expr_value(*a), expr_value(*b)),
            _ => Seq::empty(),
        },
    }
}

/// A tree that combines its literals with addition, subtraction,
/// multiplication and unary negation alone: the operations that are exact
/// and total, so that evaluation never fails.
pub open spec fn exact_ops_only(e: Expr) -> bool
    decreases e,
{
    match e {
        Expr::Lit(_) => true,
        Expr::Neg(a) => exact_ops_only(*a),
        Expr::Bin(op, a, b) => (op == Operator::Add || op == Operator::Sub || op
            == Operator::Mul) && exact_ops_only(*a) && exact_ops_only(*b),
    }
}

/// The parser run as a left fold from an arbitrary state.
spec fn sy_run_from(st: SyState, ts: Seq<TokenV>) -> Result<SyState, ParseError>
    decreases ts.len(),
{
    if ts.len() == 0 {
        Ok(st)
    } else {
        match sy_step(st, ts[0]) {
            Err(e) => Err(e),
            Ok(st1) => sy_run_from(st1, ts.drop_first()),
        }
    }
}

proof fn lemma_sy_run_from_push(st: SyState, ts: Seq<TokenV>, t: TokenV)
    ensures
        sy_run_from(st, ts.push(t)) == (match sy_run_from(st, ts) {
            Err(e) => Err::<SyState, ParseError>(e),
            Ok(m) => sy_step(m, t),
        }),
    decreases ts.len(),
{
    reveal_with_fuel(sy_run_from, 3);
    if ts.len() == 0 {
        assert(ts.push(t)[0] == t);
        assert(ts.push(t).drop_first() =~= Seq::<TokenV>::empty());
    } else {
        assert(ts.push(t)[0] == ts[0]);
        assert(ts.push(t).drop_first() =~= ts.drop_first().push(t));
        if let Ok(st1) = sy_step(st, ts[0]) {
            lemma_sy_run_from_push(st1, ts.drop_first(), t);
        }
    }
}

proof fn lemma_sy_run_is_fold(ts: Seq<TokenV>, n: int)
    requires
        0 <= n <= ts.len(),
    ensures
        sy_run(ts, n) == sy_run_from(sy_init(), ts.take(n)),
    decreases n,
{
    if n == 0 {
        assert(ts.take(0) =~= Seq::<TokenV>::empty());
    } else {
        lemma_sy_run_is_fold(ts, n - 1);
        assert(ts.take(n) =~= ts.take(n - 1).push(ts[n - 1]));
        lemma_sy_run_from_push(sy_init(), ts.take(n - 1), ts[n - 1]);
    }
}

proof fn lemma_sy_run_from_concat(st: SyState, a: Seq<TokenV>, b: Seq<TokenV>)
    ensures
        sy_run_from(st, a + b) == (match sy_run_from(st, a) {
            Err(e) => Err::<SyState, ParseError>(e),
            Ok(m) => sy_run_from(m, b),
        }),
    decreases a.len(),
{
    if a.len() == 0 {
        assert(a + b =~= b);
    } else {
        assert((a + b)[0] == a[0]);
        assert((a + b).drop_first() =~= a.drop_first() + b);
        if let Ok(st1) = sy_step(st, a[0]) {
            lemma_sy_run_from_concat(st1, a.drop_first(), b);
        }
    }
}

/// Processing a fully parenthesized expression from any state that expects
/// an operand appends exactly its postfix form to the output and leaves
/// the stack as it was.
#[verifier::rlimit(50)]
proof fn lemma_sy_infix(st: SyState, e: Expr)
    requires
        st.expect_operand,
    ensures
        sy_run_from(st, infix_tokens(e)) == Ok::<SyState, ParseError>(
            SyState {
                stack: st.stack,
                out: st.out + postfix_tokens(e),
                expect_operand: false,
            },
        ),
    decreases e,
{
    reveal_with_fuel(sy_run_from, 3);
    match e {
        Expr::Lit(v) => {
            let ts = infix_tokens(e);
            assert(ts[0] == TokenV::Number(v));
            assert(ts.drop_first() =~= Seq::<TokenV>::empty());
            assert(st.out.push(TokenV::Number(v)) =~= st.out + postfix_tokens(e));
        },
        Expr::Neg(a) => {
            let la = infix_tokens(*a);
            let hd = seq![TokenV::LParenthesis, TokenV::Op(Operator::Sub)];
            let rp = seq![TokenV::RParenthesis];
            let p1 = hd + la;
            // The left parenthesis, then the minus read as unary negation.
            let st1 = SyState {
                stack: st.stack.push(TokenV::LParenthesis),
                out: st.out,
                expect_operand: true,
            };
            assert(sy_step(st, TokenV::LParenthesis) == Ok::<SyState, ParseError>(st1));
            assert(pop_ops(st1.stack, Operator::UnarySub) == (
                st1.stack,
                Seq::<TokenV>::empty(),
            ));
            let st2 = SyState {
                stack: st1.stack.push(TokenV::Op(Operator::UnarySub)),
                out: st.out + Seq::<TokenV>::empty(),
                expect_operand: true,
            };
            assert(sy_step(st1, TokenV::Op(Operator::Sub)) == Ok::<SyState, ParseError>(st2));
            assert(hd[0] == TokenV::LParenthesis);
            assert(hd.drop_first() =~= seq![TokenV::Op(Operator::Sub)]);
            assert(hd.drop_first().drop_first() =~= Seq::<TokenV>::empty());
            assert(sy_run_from(st, hd) == Ok::<SyState, ParseError>(st2));
            // The operand leaves the stack as it was.
            lemma_sy_infix(st2, *a);
            let st3 = SyState {
                stack: st2.stack,
                out: st2.out + postfix_tokens(*a),
                expect_operand: false,
            };
            lemma_sy_run_from_concat(st, hd, la);
            assert(sy_run_from(st, p1) == Ok::<SyState, ParseError>(st3));
            // The right parenthesis pops the pending negation and discards
            // the left parenthesis.
            assert(st3.stack.drop_last() =~= st1.stack);
            assert(st1.stack.last() == TokenV::LParenthesis);
            assert(st1.stack.drop_last() =~= st.stack);
            assert(pop_to_lparen(st3.stack) == Some(
                (st.stack, seq![TokenV::Op(Operator::UnarySub)] + Seq::<TokenV>::empty()),
            ));
            assert(seq![TokenV::Op(Operator::UnarySub)] + Seq::<TokenV>::empty() =~= seq![
                TokenV::Op(Operator::UnarySub),
            ]);
            let st4 = SyState {
                stack: st.stack,
                out: st3.out + seq![TokenV::Op(Operator::UnarySub)],
                expect_operand: false,
            };
            assert(sy_step(st3, TokenV::RParenthesis) == Ok::<SyState, ParseError>(st4));
            assert(rp.drop_first() =~= Seq::<TokenV>::empty());
            assert(sy_run_from(st3, rp) == Ok::<SyState, ParseError>(st4));
            lemma_sy_run_from_concat(st, p1, rp);
            assert(infix_tokens(e) == p1 + rp);
            assert(sy_run_from(st, infix_tokens(e)) == Ok::<SyState, ParseError>(st4));
            assert(st4.out =~= st.out + postfix_tokens(e));
        },
        Expr::Bin(op, a, b) => {
            let la = infix_tokens(*a);
            let lb = infix_tokens(*b);
            let lp = seq![TokenV::LParenthesis];
            let to = seq![TokenV::Op(op)];
            let rp = seq![TokenV::RParenthesis];
            let p1 = lp + la;
            let p2 = p1 + to;
            let p3 = p2 + lb;
            // After the left parenthesis.
            let st1 = SyState {
                stack: st.stack.push(TokenV::LParenthesis),
                out: st.out,
                expect_operand: true,
            };
            assert(sy_step(st, TokenV::LParenthesis) == Ok::<SyState, ParseError>(st1));
            assert(lp.drop_first() =~= Seq::<TokenV>::empty());
            assert(sy_run_from(st, lp) == Ok::<SyState, ParseError>(st1));
            // After the left operand.
            lemma_sy_infix(st1, *a);
            let st2 = SyState {
                stack: st1.stack,
                out: st.out + postfix_tokens(*a),
                expect_operand: false,
            };
            lemma_sy_run_from_concat(st, lp, la);
            assert(sy_run_from(st, p1) == Ok::<SyState, ParseError>(st2));
            // After the operator: the left parenthesis on top shields the
            // stack below, so nothing pops.
            assert(pop_ops(st2.stack, op) == (st2.stack, Seq::<TokenV>::empty()));
            let st3 = SyState {
                stack: st2.stack.push(TokenV::Op(op)),
                out: st2.out + Seq::<TokenV>::empty(),
                expect_operand: true,
            };
            assert(sy_step(st2, TokenV::Op(op)) == Ok::<SyState, ParseError>(st3));
            assert(to.drop_first() =~= Seq::<TokenV>::empty());
            assert(sy_run_from(st2, to) == Ok::<SyState, ParseError>(st3));
            lemma_sy_run_from_concat(st, p1, to);
            assert(sy_run_from(st, p2) == Ok::<SyState, ParseError>(st3));
            // After the right operand.
            lemma_sy_infix(st3, *b);
            let st4 = SyState {
                stack: st3.stack,
                out: st3.out + postfix_tokens(*b),
                expect_operand: false,
            };
            lemma_sy_run_from_concat(st, p2, lb);
            assert(sy_run_from(st, p3) == Ok::<SyState, ParseError>(st4));
            // The right parenthesis pops the operator and discards the
            // left parenthesis.
            assert(st4.stack.drop_last() =~= st1.stack);
            assert(st1.stack.last() == TokenV::LParenthesis);
            assert(st1.stack.drop_last() =~= st.stack);
            assert(pop_to_lparen(st4.stack) == Some(
                (st.stack, seq![TokenV::Op(op)] + Seq::<TokenV>::empty()),
            ));
            assert(seq![TokenV::Op(op)] + Seq::<TokenV>::empty() =~= seq![TokenV::Op(op)]);
            let st5 = SyState {
                stack: st.stack,
                out: st4.out + seq![TokenV::Op(op)],
                expect_operand: false,
            };
            assert(sy_step(st4, TokenV::RParenthesis) == Ok::<SyState, ParseError>(st5));
            assert(rp.drop_first() =~= Seq::<TokenV>::empty());
            assert(sy_run_from(st4, rp) == Ok::<SyState, ParseError>(st5));
            lemma_sy_run_from_concat(st, p3, rp);
            assert(infix_tokens(e) == p3 + rp);
            assert(sy_run_from(st, infix_tokens(e)) == Ok::<SyState, ParseError>(st5));
            assert(st5.out =~= st.out + postfix_tokens(e));
        },
    }
}

/// The evaluator run as a left fold from an arbitrary stack.
spec fn rpn_run_from(stack: Seq<Seq<char>>, ts: Seq<TokenV>) -> Result<
    Seq<Seq<char>>,
    ArithError,
>
    decreases ts.len(),
{
    if ts.len() == 0 {
        Ok(stack)
    } else {
        match rpn_step(stack, ts[0]) {
            Err(e) => Err(e),
            Ok(s1) => rpn_run_from(s1, ts.drop_first()),
        }
    }
}

proof fn lemma_rpn_run_from_push(stack: Seq<Seq<char>>, ts: Seq<TokenV>, t: TokenV)
    ensures
        rpn_run_from(stack, ts.push(t)) == (match rpn_run_from(stack, ts) {
            Err(e) => Err::<Seq<Seq<char>>, ArithError>(e),
            Ok(m) => rpn_step(m, t),
        }),
    decreases ts.len(),
{
    reveal_with_fuel(rpn_run_from, 3);
    if ts.len() == 0 {
        assert(ts.push(t)[0] == t);
        assert(ts.push(t).drop_first() =~= Seq::<TokenV>::empty());
    } else {
        assert(ts.push(t)[0] == ts[0]);
        assert(ts.push(t).drop_first() =~= ts.drop_first().push(t));
        if let Ok(s1) = rpn_step(stack, ts[0]) {
            lemma_rpn_run_from_push(s1, ts.drop_first(), t);
        }
    }
}

proof fn lemma_rpn_run_is_fold(ts: Seq<TokenV>, n: int)
    requires
        0 <= n <= ts.len(),
    ensures
        rpn_run(ts, n) == rpn_run_from(Seq::empty(), ts.take(n)),
    decreases n,
{
    if n == 0 {
        assert(ts.take(0) =~= Seq::<TokenV>::empty());
    } else {
        lemma_rpn_run_is_fold(ts, n - 1);
        assert(ts.take(n) =~= ts.take(n - 1).push(ts[n - 1]));
        lemma_rpn_run_from_push(Seq::empty(), ts.take(n - 1), ts[n - 1]);
    }
}

proof fn lemma_rpn_run_from_concat(stack: Seq<Seq<char>>, a: Seq<TokenV>, b: Seq<TokenV>)
    ensures
        rpn_run_from(stack, a + b) == (match rpn_run_from(stack, a) {
            Err(e) => Err::<Seq<Seq<char>>, ArithError>(e),
            Ok(m) => rpn_run_from(m, b),
        }),
    decreases a.len(),
{
    if a.len() == 0 {
        assert(a + b =~= b);
    } else {
        assert((a + b)[0] == a[0]);
        assert((a + b).drop_first() =~= a.drop_first() + b);
        if let Ok(s1) = rpn_step(stack, a[0]) {
            lemma_rpn_run_from_concat(s1, a.drop_first(), b);
        }
    }
}

/// Evaluating a tree's postfix form from any stack pushes exactly the
/// tree's value.
proof fn lemma_rpn_postfix(stack: Seq<Seq<char>>, e: Expr)
    requires
        exact_ops_only(e),
    ensures
        rpn_run_from(stack, postfix_tokens(e)) == Ok::<Seq<Seq<char>>, ArithError>(
            stack.push(expr_value(e)),
        ),
    decreases e,
{
    reveal_with_fuel(rpn_run_from, 3);
    match e {
        Expr::Lit(v) => {
            let ts = postfix_tokens(e);
            assert(ts[0] == TokenV::Number(v));
            assert(ts.drop_first() =~= Seq::<TokenV>::empty());
        },
        Expr::Neg(a) => {
            let pa = postfix_tokens(*a);
            let to = seq![TokenV::Op(Operator::UnarySub)];
            lemma_rpn_postfix(stack, *a);
            let s1 = stack.push(expr_value(*a));
            assert(s1.last() == expr_value(*a));
            assert(s1.drop_last() =~= stack);
            assert(rpn_step(s1, TokenV::Op(Operator::UnarySub)) == Ok::<
                Seq<Seq<char>>,
                ArithError,
            >(stack.push(expr_value(e))));
            assert(to.drop_first() =~= Seq::<TokenV>::empty());
            assert(rpn_run_from(s1, to) == Ok::<Seq<Seq<char>>, ArithError>(
                stack.push(expr_value(e)),
            ));
            lemma_rpn_run_from_concat(stack, pa, to);
            assert(postfix_tokens(e) == pa + to);
        },
        Expr::Bin(op, a, b) => {
            let pa = postfix_tokens(*a);
            let pb = postfix_tokens(*b);
            let to = seq![TokenV::Op(op)];
            lemma_rpn_postfix(stack, *a);
            let s1 = stack.push(expr_value(*a));
            lemma_rpn_postfix(s1, *b);
            let s2 = s1.push(expr_value(*b));
            lemma_rpn_run_from_concat(stack, pa, pb);
            assert(rpn_run_from(stack, pa + pb) == Ok::<Seq<Seq<char>>, ArithError>(s2));
            // The operator pops the two operands and pushes the result.
            assert(s2.len() >= 2);
            assert(s2.last() == expr_value(*b));
            assert(s2.drop_last() =~= s1);
            assert(s1.last() == expr_value(*a));
            assert(s1.drop_last() =~= stack);
            assert(apply_operator_spec(expr_value(*a), expr_value(*b), op)
                == Ok::<Seq<char>, ArithError>(expr_value(e)));
            assert(rpn_step(s2, TokenV::Op(op)) == Ok::<Seq<Seq<char>>, ArithError>(
                stack.push(expr_value(e)),
            ));
            assert(to.drop_first() =~= Seq::<TokenV>::empty());
            assert(rpn_run_from(s2, to) == Ok::<Seq<Seq<char>>, ArithError>(
                stack.push(expr_value(e)),
            ));
            lemma_rpn_run_from_concat(stack, pa + pb, to);
            assert(postfix_tokens(e) == (pa + pb) + to);
        },
    }
}

/// Standard arithmetic over expression trees: for every expression that
/// combines decimal literals with addition, subtraction, multiplication
/// and unary negation under full parenthesization, the parser reorders its
/// infix rendering to exactly its postfix form, and the postfix evaluator
/// computes exactly the tree's recursive value as the decimal operations
/// give it — in particular, such an evaluation never fails.
pub proof fn pipeline_computes_expression_value(e: Expr)
    requires
        exact_ops_only(e),
    ensures
        spec_shunting_yard(infix_tokens(e)) == Ok::<Seq<TokenV>, ParseError>(postfix_tokens(e)),
        spec_eval_rpn(postfix_tokens(e)) == Ok::<Seq<char>, ArithError>(expr_value(e)),
{
    let ts = infix_tokens(e);
    lemma_sy_run_is_fold(ts, ts.len() as int);
    assert(ts.take(ts.len() as int) =~= ts);
    lemma_sy_infix(sy_init(), e);
    let stf = SyState {
        stack: sy_init().stack,
        out: sy_init().out + postfix_tokens(e),
        expect_operand: false,
    };
    assert(sy_run(ts, ts.len() as int) == Ok::<SyState, ParseError>(stf));
    assert(drain_stack(stf.stack) == Ok::<Seq<TokenV>, ParseError>(Seq::<TokenV>::empty()));
    assert(stf.out + Seq::<TokenV>::empty() =~= stf.out);
    assert(stf.out =~= postfix_tokens(e));

    let ps = postfix_tokens(e);
    lemma_rpn_run_is_fold(ps, ps.len() as int);
    assert(ps.take(ps.len() as int) =~= ps);
    lemma_rpn_postfix(Seq::empty(), e);
    let final_stack = Seq::<Seq<char>>::empty().push(expr_value(e));
    assert(rpn_run(ps, ps.len() as int) == Ok::<Seq<Seq<char>>, ArithError>(final_stack));
    assert(final_stack.len() == 1);
    assert(final_stack[0] == expr_value(e));
}

// Operator chains without parentheses. A run of binary operators of one
// precedence level, all left-associative, evaluates as the left-to-right
// fold of its literals: the general form of left-associativity.

/// The infix tokens of `first op1 b1 op2 b2 ...`.
pub open spec fn chain_tokens(first: Seq<char>, rest: Seq<(Operator, Seq<char>)>) -> Seq<TokenV>
    decreases rest.len(),
{
    if rest.len() == 0 {
        seq![TokenV::Number(first)]
    } else {
        chain_tokens(first, rest.drop_last()) + seq![
            TokenV::Op(rest.last().0),
            TokenV::Number(rest.last().1),
        ]
    }
}

/// The postfix form of the left-to-right grouping of the chain.
pub open spec fn chain_postfix(first: Seq<char>, rest: Seq<(Operator, Seq<char>)>) -> Seq<TokenV>
    decreases rest.len(),
{
    if rest.len() == 0 {
        seq![TokenV::Number(first)]
    } else {
        chain_postfix(first, rest.drop_last()) + seq![
            TokenV::Number(rest.last().1),
            TokenV::Op(rest.last().0),
        ]
    }
}

/// The left-to-right fold of the chain's literals under its operators.
pub open spec fn chain_value(first: Seq<char>, rest: Seq<(Operator, Seq<char>)>) -> Seq<char>
    decreases rest.len(),
{
    if rest.len() == 0 {
        first
    } else {
        apply_operator_spec(
            chain_value(first, rest.drop_last()),
            rest.last().1,
            rest.last().0,
        )->Ok_0
    }
}

/// A chain whose operators all sit on one precedence level and group
/// left-to-right, and whose divisions and modulos have nonzero divisors.
pub open spec fn chain_ok(rest: Seq<(Operator, Seq<char>)>, p: u8) -> bool {
    forall|i: int|
        0 <= i < rest.len() ==> spec_precedence((#[trigger] rest[i]).0) == p
            && spec_associativity(rest[i].0) == Assoc::Left && ((rest[i].0 == Operator::Div
            || rest[i].0 == Operator::Mod) ==> !dec_is_zero(rest[i].1))
}

/// A stack whose top cannot be popped by an operator of precedence `p`:
/// it is empty, or a left parenthesis, or an operator that binds strictly
/// looser.
pub open spec fn stack_blocks(stack: Seq<TokenV>, p: u8) -> bool {
    stack.len() == 0 || stack.last() is LParenthesis || (stack.last() matches TokenV::Op(q)
        && spec_precedence(q) < p)
}

/// Processing a chain from a state whose stack top blocks its precedence
/// level leaves the chain's last operator pending on the stack and
/// everything before it in the output, grouped left-to-right.
#[verifier::rlimit(60)]
proof fn lemma_sy_chain(st: SyState, first: Seq<char>, rest: Seq<(Operator, Seq<char>)>, p: u8)
    requires
        st.expect_operand,
        stack_blocks(st.stack, p),
        chain_ok(rest, p),
    ensures
        rest.len() == 0 ==> sy_run_from(st, chain_tokens(first, rest)) == Ok::<
            SyState,
            ParseError,
        >(
            SyState {
                stack: st.stack,
                out: st.out + chain_postfix(first, rest),
                expect_operand: false,
            },
        ),
        rest.len() > 0 ==> sy_run_from(st, chain_tokens(first, rest)) == Ok::<
            SyState,
            ParseError,
        >(
            SyState {
                stack: st.stack.push(TokenV::Op(rest.last().0)),
                out: st.out + chain_postfix(first, rest).drop_last(),
                expect_operand: false,
            },
        ),
    decreases rest.len(),
{
    reveal_with_fuel(sy_run_from, 3);
    if rest.len() == 0 {
        let ts = chain_tokens(first, rest);
        assert(ts[0] == TokenV::Number(first));
        assert(ts.drop_first() =~= Seq::<TokenV>::empty());
        assert(st.out.push(TokenV::Number(first)) =~= st.out + chain_postfix(first, rest));
    } else {
        let rest0 = rest.drop_last();
        let o = rest.last().0;
        let b = rest.last().1;
        assert(chain_ok(rest0, p));
        lemma_sy_chain(st, first, rest0, p);
        let head = chain_tokens(first, rest0);
        assert(spec_precedence(o) == p && spec_associativity(o) == Assoc::Left);
        if rest0.len() == 0 {
            // The first operator of the chain: nothing pops.
            let st1 = SyState {
                stack: st.stack,
                out: st.out + chain_postfix(first, rest0),
                expect_operand: false,
            };
            assert(pop_ops(st1.stack, o) == (st1.stack, Seq::<TokenV>::empty()));
            let st2 = SyState {
                stack: st1.stack.push(TokenV::Op(o)),
                out: st1.out + Seq::<TokenV>::empty(),
                expect_operand: true,
            };
            assert(sy_step(st1, TokenV::Op(o)) == Ok::<SyState, ParseError>(st2));
            let st3 = SyState {
                stack: st2.stack,
                out: st2.out.push(TokenV::Number(b)),
                expect_operand: false,
            };
            assert(sy_step(st2, TokenV::Number(b)) == Ok::<SyState, ParseError>(st3));
            let ob = seq![TokenV::Op(o), TokenV::Number(b)];
            assert(ob[0] == TokenV::Op(o));
            assert(ob.drop_first() =~= seq![TokenV::Number(b)]);
            assert(ob.drop_first().drop_first() =~= Seq::<TokenV>::empty());
            assert(sy_run_from(st1, ob) == Ok::<SyState, ParseError>(st3));
            lemma_sy_run_from_concat(st, head, ob);
            assert(chain_tokens(first, rest) == head + ob);
            assert(st3.out =~= st.out + chain_postfix(first, rest).drop_last());
        } else {
            // A later operator: the pending previous operator, of the same
            // precedence and left-associative, pops to the output first.
            let prev = rest0.last().0;
            assert(spec_precedence(prev) == p && spec_associativity(prev) == Assoc::Left);
            let st1 = SyState {
                stack: st.stack.push(TokenV::Op(prev)),
                out: st.out + chain_postfix(first, rest0).drop_last(),
                expect_operand: false,
            };
            assert(spec_should_pop(prev, o));
            assert(st1.stack.last() == TokenV::Op(prev));
            assert(st1.stack.drop_last() =~= st.stack);
            assert(pop_ops(st.stack, o) == (st.stack, Seq::<TokenV>::empty()));
            assert(pop_ops(st1.stack, o) == (
                st.stack,
                seq![TokenV::Op(prev)] + Seq::<TokenV>::empty(),
            ));
            let st2 = SyState {
                stack: st.stack.push(TokenV::Op(o)),
                out: st1.out + (seq![TokenV::Op(prev)] + Seq::<TokenV>::empty()),
                expect_operand: true,
            };
            assert(sy_step(st1, TokenV::Op(o)) == Ok::<SyState, ParseError>(st2));
            let st3 = SyState {
                stack: st2.stack,
                out: st2.out.push(TokenV::Number(b)),
                expect_operand: false,
            };
            assert(sy_step(st2, TokenV::Number(b)) == Ok::<SyState, ParseError>(st3));
            let ob = seq![TokenV::Op(o), TokenV::Number(b)];
            assert(ob[0] == TokenV::Op(o));
            assert(ob.drop_first() =~= seq![TokenV::Number(b)]);
            assert(ob.drop_first().drop_first() =~= Seq::<TokenV>::empty());
            assert(sy_run_from(st1, ob) == Ok::<SyState, ParseError>(st3));
            lemma_sy_run_from_concat(st, head, ob);
            assert(chain_tokens(first, rest) == head + ob);
            let cp0 = chain_postfix(first, rest0);
            assert(cp0.last() == TokenV::Op(prev));
            assert(cp0.drop_last().push(TokenV::Op(prev)) =~= cp0);
            assert(chain_postfix(first, rest).drop_last() =~= cp0 + seq![TokenV::Number(b)]);
            assert(st3.out =~= st.out + chain_postfix(first, rest).drop_last());
        }
    }
}

/// Evaluating a chain's postfix form from any stack pushes exactly the
/// left-to-right fold of its literals.
proof fn lemma_rpn_chain(
    stack: Seq<Seq<char>>,
    first: Seq<char>,
    rest: Seq<(Operator, Seq<char>)>,
    p: u8,
)
    requires
        chain_ok(rest, p),
    ensures
        rpn_run_from(stack, chain_postfix(first, rest)) == Ok::<Seq<Seq<char>>, ArithError>(
            stack.push(chain_value(first, rest)),
        ),
    decreases rest.len(),
{
    reveal_with_fuel(rpn_run_from, 3);
    if rest.len() == 0 {
        let ts = chain_postfix(first, rest);
        assert(ts[0] == TokenV::Number(first));
        assert(ts.drop_first() =~= Seq::<TokenV>::empty());
    } else {
        let rest0 = rest.drop_last();
        let o = rest.last().0;
        let b = rest.last().1;
        assert(chain_ok(rest0, p));
        lemma_rpn_chain(stack, first, rest0, p);
        let v0 = chain_value(first, rest0);
        let s1 = stack.push(v0);
        let s2 = s1.push(b);
        let bo = seq![TokenV::Number(b), TokenV::Op(o)];
        assert(rpn_step(s1, TokenV::Number(b)) == Ok::<Seq<Seq<char>>, ArithError>(s2));
        // Same precedence and left associativity leave only binary
        // operators here, and any division or modulo has a nonzero divisor,
        // so the operation succeeds.
        assert(o != Operator::UnarySub && o != Operator::Pow);
        assert(apply_operator_spec(v0, b, o) is Ok);
        assert(s2.len() >= 2);
        assert(s2.last() == b);
        assert(s2.drop_last() =~= s1);
        assert(s1.last() == v0);
        assert(s1.drop_last() =~= stack);
        assert(rpn_step(s2, TokenV::Op(o)) == Ok::<Seq<Seq<char>>, ArithError>(
            stack.push(chain_value(first, rest)),
        ));
        assert(bo[0] == TokenV::Number(b));
        assert(bo.drop_first() =~= seq![TokenV::Op(o)]);
        assert(bo.drop_first().drop_first() =~= Seq::<TokenV>::empty());
        assert(rpn_run_from(s1, bo) == Ok::<Seq<Seq<char>>, ArithError>(
            stack.push(chain_value(first, rest)),
        ));
        lemma_rpn_run_from_concat(stack, chain_postfix(first, rest0), bo);
        assert(chain_postfix(first, rest) == chain_postfix(first, rest0) + bo);
    }
}

/// Left-associativity: a run of operators on one precedence level, all
/// left-associative, parses to the postfix form of its left-to-right
/// grouping, and evaluates to the left-to-right fold of its literals.
pub proof fn left_associative_chain(first: Seq<char>, rest: Seq<(Operator, Seq<char>)>, p: u8)
    requires
        chain_ok(rest, p),
    ensures
        spec_shunting_yard(chain_tokens(first, rest)) == Ok::<Seq<TokenV>, ParseError>(
            chain_postfix(first, rest),
        ),
        spec_eval_rpn(chain_postfix(first, rest)) == Ok::<Seq<char>, ArithError>(
            chain_value(first, rest),
        ),
{
    reveal_with_fuel(drain_stack, 3);
    let ts = chain_tokens(first, rest);
    lemma_sy_run_is_fold(ts, ts.len() as int);
    assert(ts.take(ts.len() as int) =~= ts);
    lemma_sy_chain(sy_init(), first, rest, p);
    if rest.len() == 0 {
        let stf = SyState {
            stack: sy_init().stack,
            out: sy_init().out + chain_postfix(first, rest),
            expect_operand: false,
        };
        assert(sy_run(ts, ts.len() as int) == Ok::<SyState, ParseError>(stf));
        assert(drain_stack(stf.stack) == Ok::<Seq<TokenV>, ParseError>(Seq::<TokenV>::empty()));
        assert(stf.out + Seq::<TokenV>::empty() =~= chain_postfix(first, rest));
    } else {
        let o = rest.last().0;
        let stf = SyState {
            stack: sy_init().stack.push(TokenV::Op(o)),
            out: sy_init().out + chain_postfix(first, rest).drop_last(),
            expect_operand: false,
        };
        assert(sy_run(ts, ts.len() as int) == Ok::<SyState, ParseError>(stf));
        assert(stf.stack.last() == TokenV::Op(o));
        assert(stf.stack.drop_last() =~= Seq::<TokenV>::empty());
        assert(drain_stack(stf.stack) == Ok::<Seq<TokenV>, ParseError>(
            seq![TokenV::Op(o)] + Seq::<TokenV>::empty(),
        ));
        assert(chain_postfix(first, rest).len() > 0);
        assert(chain_postfix(first, rest).last() == TokenV::Op(o));
        assert(stf.out + (seq![TokenV::Op(o)] + Seq::<TokenV>::empty()) =~= chain_postfix(
            first,
            rest,
        ));
    }

    let ps = chain_postfix(first, rest);
    lemma_rpn_run_is_fold(ps, ps.len() as int);
    assert(ps.take(ps.len() as int) =~= ps);
    lemma_rpn_chain(Seq::empty(), first, rest, p);
    let final_stack = Seq::<Seq<char>>::empty().push(chain_value(first, rest));
    assert(rpn_run(ps, ps.len() as int) == Ok::<Seq<Seq<char>>, ArithError>(final_stack));
    assert(final_stack.len() == 1);
    assert(final_stack[0] == chain_value(first, rest));
}

// Sums of multiplicative runs without parentheses: the general form of
// precedence between the additive and the multiplicative level.

/// The operator a chain leaves pending on the stack: its last operator,
/// or nothing for a bare literal.
pub open spec fn chain_pending(rest: Seq<(Operator, Seq<char>)>) -> Seq<TokenV> {
    if rest.len() == 0 {
        Seq::empty()
    } else {
        seq![TokenV::Op(rest.last().0)]
    }
}

/// The part of a chain's postfix form already in the output while its last
/// operator is still pending.
pub open spec fn chain_out(first: Seq<char>, rest: Seq<(Operator, Seq<char>)>) -> Seq<TokenV> {
    if rest.len() == 0 {
        chain_postfix(first, rest)
    } else {
        chain_postfix(first, rest).drop_last()
    }
}

/// The pending operator closes the chain's postfix form.
proof fn lemma_chain_closure(first: Seq<char>, rest: Seq<(Operator, Seq<char>)>)
    ensures
        chain_out(first, rest) + chain_pending(rest) == chain_postfix(first, rest),
{
    if rest.len() == 0 {
        assert(chain_postfix(first, rest) + Seq::<TokenV>::empty() =~= chain_postfix(
            first,
            rest,
        ));
    } else {
        assert(chain_postfix(first, rest).last() == TokenV::Op(rest.last().0));
        assert(chain_postfix(first, rest).drop_last() + seq![TokenV::Op(rest.last().0)]
            =~= chain_postfix(first, rest));
    }
}

/// The chain lemma with its two cases folded into one shape.
proof fn lemma_sy_chain_uniform(
    st: SyState,
    first: Seq<char>,
    rest: Seq<(Operator, Seq<char>)>,
    p: u8,
)
    requires
        st.expect_operand,
        stack_blocks(st.stack, p),
        chain_ok(rest, p),
    ensures
        sy_run_from(st, chain_tokens(first, rest)) == Ok::<SyState, ParseError>(
            SyState {
                stack: st.stack + chain_pending(rest),
                out: st.out + chain_out(first, rest),
                expect_operand: false,
            },
        ),
{
    lemma_sy_chain(st, first, rest, p);
    if rest.len() == 0 {
        assert(st.stack + Seq::<TokenV>::empty() =~= st.stack);
    } else {
        assert(st.stack + seq![TokenV::Op(rest.last().0)] =~= st.stack.push(
            TokenV::Op(rest.last().0),
        ));
    }
}

/// Popping entries that all satisfy the pop rule empties them to the
/// output in reverse order, down to a blocked base.
proof fn lemma_pop_ops_all(base: Seq<TokenV>, pending: Seq<TokenV>, o: Operator)
    requires
        base.len() == 0 || base.last() is LParenthesis || (base.last() matches TokenV::Op(q)
            && !spec_should_pop(q, o)),
        forall|j: int|
            0 <= j < pending.len() ==> ((#[trigger] pending[j]) matches TokenV::Op(q)
                && spec_should_pop(q, o)),
    ensures
        pop_ops(base + pending, o) == (base, pending.reverse()),
    decreases pending.len(),
{
    if pending.len() == 0 {
        assert(base + pending =~= base);
        assert(pending.reverse() =~= Seq::<TokenV>::empty());
    } else {
        let whole = base + pending;
        assert(whole.last() == pending.last());
        assert(pending.last() matches TokenV::Op(q) && spec_should_pop(q, o));
        assert(whole.drop_last() =~= base + pending.drop_last());
        lemma_pop_ops_all(base, pending.drop_last(), o);
        assert(seq![pending.last()] + pending.drop_last().reverse() =~= pending.reverse());
    }
}

/// Draining a stack of operators alone empties it to the output in
/// reverse order.
proof fn lemma_drain_all(pending: Seq<TokenV>)
    requires
        forall|j: int| 0 <= j < pending.len() ==> (#[trigger] pending[j]) is Op,
    ensures
        drain_stack(pending) == Ok::<Seq<TokenV>, ParseError>(pending.reverse()),
    decreases pending.len(),
{
    if pending.len() == 0 {
        assert(pending.reverse() =~= Seq::<TokenV>::empty());
    } else {
        assert(pending.last() is Op);
        lemma_drain_all(pending.drop_last());
        assert(seq![pending.last()] + pending.drop_last().reverse() =~= pending.reverse());
    }
}

/// The infix tokens of `t0 (+|-) t1 (+|-) t2 ...`, each `ti` a
/// multiplicative chain given as its first literal and its tail.
pub open spec fn sum_tokens(
    t0: (Seq<char>, Seq<(Operator, Seq<char>)>),
    rest: Seq<(Operator, (Seq<char>, Seq<(Operator, Seq<char>)>))>,
) -> Seq<TokenV>
    decreases rest.len(),
{
    if rest.len() == 0 {
        chain_tokens(t0.0, t0.1)
    } else {
        sum_tokens(t0, rest.drop_last()) + seq![TokenV::Op(rest.last().0)] + chain_tokens(
            rest.last().1.0,
            rest.last().1.1,
        )
    }
}

/// The postfix form of the precedence-respecting grouping: every
/// multiplicative chain first, additive operators left-to-right.
pub open spec fn sum_postfix(
    t0: (Seq<char>, Seq<(Operator, Seq<char>)>),
    rest: Seq<(Operator, (Seq<char>, Seq<(Operator, Seq<char>)>))>,
) -> Seq<TokenV>
    decreases rest.len(),
{
    if rest.len() == 0 {
        chain_postfix(t0.0, t0.1)
    } else {
        sum_postfix(t0, rest.drop_last()) + chain_postfix(rest.last().1.0, rest.last().1.1)
            + seq![TokenV::Op(rest.last().0)]
    }
}

/// The value of the precedence-respecting grouping: each chain's
/// left-to-right fold, and those folds combined left-to-right under the
/// additive operators.
pub open spec fn sum_value(
    t0: (Seq<char>, Seq<(Operator, Seq<char>)>),
    rest: Seq<(Operator, (Seq<char>, Seq<(Operator, Seq<char>)>))>,
) -> Seq<char>
    decreases rest.len(),
{
    if rest.len() == 0 {
        chain_value(t0.0, t0.1)
    } else {
        apply_operator_spec(
            sum_value(t0, rest.drop_last()),
            chain_value(rest.last().1.0, rest.last().1.1),
            rest.last().0,
        )->Ok_0
    }
}

/// A sum whose additive operators are `+` or `-` and whose chains are
/// well-formed multiplicative runs.
pub open spec fn sum_ok(
    rest: Seq<(Operator, (Seq<char>, Seq<(Operator, Seq<char>)>))>,
) -> bool {
    forall|i: int|
        0 <= i < rest.len() ==> ((#[trigger] rest[i]).0 == Operator::Add || rest[i].0
            == Operator::Sub) && chain_ok(rest[i].1.1, 2)
}

/// What a sum leaves pending on the stack: its last additive operator and
/// the last chain's pending operator, if any.
pub open spec fn sum_pending(
    t0: (Seq<char>, Seq<(Operator, Seq<char>)>),
    rest: Seq<(Operator, (Seq<char>, Seq<(Operator, Seq<char>)>))>,
) -> Seq<TokenV> {
    if rest.len() == 0 {
        chain_pending(t0.1)
    } else {
        seq![TokenV::Op(rest.last().0)] + chain_pending(rest.last().1.1)
    }
}

/// The part of a sum's postfix form already in the output while its
/// pending operators are still stacked.
pub open spec fn sum_out(
    t0: (Seq<char>, Seq<(Operator, Seq<char>)>),
    rest: Seq<(Operator, (Seq<char>, Seq<(Operator, Seq<char>)>))>,
) -> Seq<TokenV> {
    if rest.len() == 0 {
        chain_out(t0.0, t0.1)
    } else {
        sum_postfix(t0, rest.drop_last()) + chain_out(rest.last().1.0, rest.last().1.1)
    }
}

/// The pending operators, popped top first, close the sum's postfix form.
proof fn lemma_sum_closure(
    t0: (Seq<char>, Seq<(Operator, Seq<char>)>),
    rest: Seq<(Operator, (Seq<char>, Seq<(Operator, Seq<char>)>))>,
)
    ensures
        sum_out(t0, rest) + sum_pending(t0, rest).reverse() == sum_postfix(t0, rest),
{
    if rest.len() == 0 {
        lemma_chain_closure(t0.0, t0.1);
        assert(chain_pending(t0.1).reverse() =~= chain_pending(t0.1));
        assert(sum_out(t0, rest) + sum_pending(t0, rest).reverse() =~= sum_postfix(t0, rest));
    } else {
        let tk = rest.last().1;
        lemma_chain_closure(tk.0, tk.1);
        assert(sum_pending(t0, rest).reverse() =~= chain_pending(tk.1) + seq![
            TokenV::Op(rest.last().0),
        ]);
        assert(sum_out(t0, rest) + sum_pending(t0, rest).reverse() =~= sum_postfix(
            t0,
            rest.drop_last(),
        ) + (chain_out(tk.0, tk.1) + chain_pending(tk.1)) + seq![TokenV::Op(rest.last().0)]);
    }
}

/// Processing a sum from a state whose stack is empty or ends in a left
/// parenthesis leaves exactly its pending operators on the stack and the
/// rest of its postfix form in the output.
#[verifier::rlimit(100)]
proof fn lemma_sy_sum(
    st: SyState,
    t0: (Seq<char>, Seq<(Operator, Seq<char>)>),
    rest: Seq<(Operator, (Seq<char>, Seq<(Operator, Seq<char>)>))>,
)
    requires
        st.expect_operand,
        st.stack.len() == 0 || st.stack.last() is LParenthesis,
        chain_ok(t0.1, 2),
        sum_ok(rest),
    ensures
        sy_run_from(st, sum_tokens(t0, rest)) == Ok::<SyState, ParseError>(
            SyState {
                stack: st.stack + sum_pending(t0, rest),
                out: st.out + sum_out(t0, rest),
                expect_operand: false,
            },
        ),
    decreases rest.len(),
{
    reveal_with_fuel(sy_run_from, 3);
    if rest.len() == 0 {
        lemma_sy_chain_uniform(st, t0.0, t0.1, 2);
    } else {
        let rest0 = rest.drop_last();
        let addo = rest.last().0;
        let tk = rest.last().1;
        assert(sum_ok(rest0));
        assert(chain_ok(tk.1, 2));
        lemma_sy_sum(st, t0, rest0);
        let st1 = SyState {
            stack: st.stack + sum_pending(t0, rest0),
            out: st.out + sum_out(t0, rest0),
            expect_operand: false,
        };
        // The additive operator pops every pending operator down to the
        // blocked base, completing the postfix form of what came before.
        assert forall|j: int|
            0 <= j < sum_pending(t0, rest0).len() implies ((#[trigger] sum_pending(
            t0,
            rest0,
        )[j]) matches TokenV::Op(q) && spec_should_pop(q, addo)) by {
            if rest0.len() == 0 {
                assert(sum_pending(t0, rest0) == chain_pending(t0.1));
            }
        }
        lemma_pop_ops_all(st.stack, sum_pending(t0, rest0), addo);
        assert(pop_ops(st1.stack, addo) == (st.stack, sum_pending(t0, rest0).reverse()));
        lemma_sum_closure(t0, rest0);
        let st2 = SyState {
            stack: st.stack.push(TokenV::Op(addo)),
            out: st1.out + sum_pending(t0, rest0).reverse(),
            expect_operand: true,
        };
        assert(sy_step(st1, TokenV::Op(addo)) == Ok::<SyState, ParseError>(st2));
        assert(st2.out =~= st.out + sum_postfix(t0, rest0));
        let ao = seq![TokenV::Op(addo)];
        assert(ao.drop_first() =~= Seq::<TokenV>::empty());
        assert(sy_run_from(st1, ao) == Ok::<SyState, ParseError>(st2));
        // The incoming chain sees the additive operator as a barrier.
        assert(st2.stack.last() == TokenV::Op(addo));
        assert(spec_precedence(addo) < 2);
        assert(stack_blocks(st2.stack, 2));
        lemma_sy_chain_uniform(st2, tk.0, tk.1, 2);
        let st3 = SyState {
            stack: st2.stack + chain_pending(tk.1),
            out: st2.out + chain_out(tk.0, tk.1),
            expect_operand: false,
        };
        lemma_sy_run_from_concat(st, sum_tokens(t0, rest0), ao);
        lemma_sy_run_from_concat(st, sum_tokens(t0, rest0) + ao, chain_tokens(tk.0, tk.1));
        assert(sum_tokens(t0, rest) == (sum_tokens(t0, rest0) + ao) + chain_tokens(tk.0, tk.1));
        assert(sy_run_from(st, sum_tokens(t0, rest)) == Ok::<SyState, ParseError>(st3));
        assert(st3.stack =~= st.stack + sum_pending(t0, rest));
        assert(st3.out =~= st.out + sum_out(t0, rest));
    }
}

/// Evaluating a sum's postfix form from any stack pushes exactly its value.
proof fn lemma_rpn_sum(
    stack: Seq<Seq<char>>,
    t0: (Seq<char>, Seq<(Operator, Seq<char>)>),
    rest: Seq<(Operator, (Seq<char>, Seq<(Operator, Seq<char>)>))>,
)
    requires
        chain_ok(t0.1, 2),
        sum_ok(rest),
    ensures
        rpn_run_from(stack, sum_postfix(t0, rest)) == Ok::<Seq<Seq<char>>, ArithError>(
            stack.push(sum_value(t0, rest)),
        ),
    decreases rest.len(),
{
    reveal_with_fuel(rpn_run_from, 3);
    if rest.len() == 0 {
        lemma_rpn_chain(stack, t0.0, t0.1, 2);
    } else {
        let rest0 = rest.drop_last();
        let addo = rest.last().0;
        let tk = rest.last().1;
        assert(sum_ok(rest0));
        assert(chain_ok(tk.1, 2));
        lemma_rpn_sum(stack, t0, rest0);
        let s1 = stack.push(sum_value(t0, rest0));
        lemma_rpn_chain(s1, tk.0, tk.1, 2);
        let s2 = s1.push(chain_value(tk.0, tk.1));
        lemma_rpn_run_from_concat(stack, sum_postfix(t0, rest0), chain_postfix(tk.0, tk.1));
        assert(rpn_run_from(stack, sum_postfix(t0, rest0) + chain_postfix(tk.0, tk.1)) == Ok::<
            Seq<Seq<char>>,
            ArithError,
        >(s2));
        assert(apply_operator_spec(sum_value(t0, rest0), chain_value(tk.0, tk.1), addo) is Ok);
        assert(s2.len() >= 2);
        assert(s2.last() == chain_value(tk.0, tk.1));
        assert(s2.drop_last() =~= s1);
        assert(s1.last() == sum_value(t0, rest0));
        assert(s1.drop_last() =~= stack);
        assert(rpn_step(s2, TokenV::Op(addo)) == Ok::<Seq<Seq<char>>, ArithError>(
            stack.push(sum_value(t0, rest)),
        ));
        let ao = seq![TokenV::Op(addo)];
        assert(ao.drop_first() =~= Seq::<TokenV>::empty());
        assert(rpn_run_from(s2, ao) == Ok::<Seq<Seq<char>>, ArithError>(
            stack.push(sum_value(t0, rest)),
        ));
        lemma_rpn_run_from_concat(stack, sum_postfix(t0, rest0) + chain_postfix(tk.0, tk.1), ao);
        assert(sum_postfix(t0, rest) == (sum_postfix(t0, rest0) + chain_postfix(tk.0, tk.1))
            + ao);
    }
}

/// Precedence and associativity in full: any expression
/// `t0 (+|-) t1 (+|-) t2 ...` whose terms are runs of literals under
/// `* / %` parses to the postfix form in which every multiplicative run is
/// grouped first and the additive operators apply left-to-right, and it
/// evaluates to the corresponding fold of the decimal operations.
pub proof fn sum_of_products_grouping(
    t0: (Seq<char>, Seq<(Operator, Seq<char>)>),
    rest: Seq<(Operator, (Seq<char>, Seq<(Operator, Seq<char>)>))>,
)
    requires
        chain_ok(t0.1, 2),
        sum_ok(rest),
    ensures
        spec_shunting_yard(sum_tokens(t0, rest)) == Ok::<Seq<TokenV>, ParseError>(
            sum_postfix(t0, rest),
        ),
        spec_eval_rpn(sum_postfix(t0, rest)) == Ok::<Seq<char>, ArithError>(sum_value(t0, rest)),
{
    let ts = sum_tokens(t0, rest);
    lemma_sy_run_is_fold(ts, ts.len() as int);
    assert(ts.take(ts.len() as int) =~= ts);
    lemma_sy_sum(sy_init(), t0, rest);
    let stf = SyState {
        stack: sy_init().stack + sum_pending(t0, rest),
        out: sy_init().out + sum_out(t0, rest),
        expect_operand: false,
    };
    assert(sy_run(ts, ts.len() as int) == Ok::<SyState, ParseError>(stf));
    assert(stf.stack =~= sum_pending(t0, rest));
    assert forall|j: int|
        0 <= j < sum_pending(t0, rest).len() implies (#[trigger] sum_pending(t0, rest)[j])
        is Op by {
        if rest.len() == 0 {
            assert(sum_pending(t0, rest) == chain_pending(t0.1));
        }
    }
    lemma_drain_all(sum_pending(t0, rest));
    assert(drain_stack(stf.stack) == Ok::<Seq<TokenV>, ParseError>(
        sum_pending(t0, rest).reverse(),
    ));
    lemma_sum_closure(t0, rest);
    assert(stf.out + sum_pending(t0, rest).reverse() =~= sum_postfix(t0, rest));

    let ps = sum_postfix(t0, rest);
    lemma_rpn_run_is_fold(ps, ps.len() as int);
    assert(ps.take(ps.len() as int) =~= ps);
    lemma_rpn_sum(Seq::empty(), t0, rest);
    let final_stack = Seq::<Seq<char>>::empty().push(sum_value(t0, rest));
    assert(rpn_run(ps, ps.len() as int) == Ok::<Seq<Seq<char>>, ArithError>(final_stack));
    assert(final_stack.len() == 1);
    assert(final_stack[0] == sum_value(t0, rest));
}

} // verus!
