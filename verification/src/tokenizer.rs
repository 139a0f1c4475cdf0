use vstd::prelude::*;

use crate::decimal::{dec_from_literal, dec_parse};
use crate::tokens::{
    const_of_name, is_op, is_paren, op_of_char, spec_op_of_char, to_paren, token_views, Token,
    TokenV,
};

verus! {

// Lexical analysis: the input text is scanned left to right into a token
// sequence, or the scan fails on the first offending character, malformed
// numeric literal, or unknown identifier. `spec_tokenize` is the
// mathematical form of the scan; `tokenize` is proved to compute it.

/// A failure of lexical analysis.
#[derive(Debug)]
pub enum LexError {
    /// A character that starts no token.
    UnexpectedCharacter(char),
    /// A numeric literal the decimal parser rejects, carrying its text.
    InvalidNumber(String),
    /// An identifier that names no constant, carrying its text.
    UnknownIdentifier(String),
}

/// The mathematical shape of a lexical failure.
pub enum LexErrorV {
    UnexpectedCharacter(char),
    InvalidNumber(Seq<char>),
    UnknownIdentifier(Seq<char>),
}

impl View for LexError {
    type V = LexErrorV;

    open spec fn view(&self) -> LexErrorV {
        match self {
            LexError::UnexpectedCharacter(c) => LexErrorV::UnexpectedCharacter(*c),
            LexError::InvalidNumber(s) => LexErrorV::InvalidNumber(s@),
            LexError::UnknownIdentifier(s) => LexErrorV::UnknownIdentifier(s@),
        }
    }
}

/// The Unicode white-space property of a character.
pub uninterp spec fn unicode_whitespace(c: char) -> bool;

/// Relies on char::is_whitespace: the White_Space property, a fixed
/// function of the character. The space character has it; digits, letters,
/// operator symbols, parentheses and the decimal point do not.
#[verifier::external_body]
fn is_whitespace_char(c: char) -> (r: bool)
    ensures
        r == unicode_whitespace(c),
        c == ' ' ==> r,
        is_digit_char(c) || is_alpha_char(c) || is_op_char(c) || c == '(' || c == ')' || c == '.'
            ==> !r,
{
    c.is_whitespace()
}

/// The Unicode alphanumeric property of a character.
pub uninterp spec fn unicode_alphanumeric(c: char) -> bool;

/// Relies on char::is_alphanumeric: the Alphabetic property or a numeric
/// general category, a fixed function of the character. ASCII digits and
/// letters have it; the space, operator symbols, parentheses and the
/// decimal point do not.
#[verifier::external_body]
fn is_alphanumeric_char(c: char) -> (r: bool)
    ensures
        r == unicode_alphanumeric(c),
        is_digit_char(c) || is_alpha_char(c) ==> r,
        is_op_char(c) || c == '(' || c == ')' || c == '.' || c == ' ' ==> !r,
{
    c.is_alphanumeric()
}

/// Relies on str::chars: the characters of the string, in order.
#[verifier::external_body]
fn str_chars(s: &str) -> (v: Vec<char>)
    ensures
        v@ == s@,
{
    s.chars().collect()
}

/// Relies on String's FromIterator over char: the string of exactly these
/// characters, in order.
#[verifier::external_body]
fn chars_to_string(v: &Vec<char>) -> (s: String)
    ensures
        s@ == v@,
{
    v.iter().collect()
}

/// An ASCII decimal digit.
pub open spec fn is_digit_char(c: char) -> bool {
    '0' <= c && c <= '9'
}

/// An ASCII decimal digit.
fn is_digit_exec(c: char) -> (r: bool)
    ensures
        r == is_digit_char(c),
{
    '0' <= c && c <= '9'
}

/// An ASCII letter.
pub open spec fn is_alpha_char(c: char) -> bool {
    ('a' <= c && c <= 'z') || ('A' <= c && c <= 'Z')
}

/// An ASCII letter.
fn is_alpha_exec(c: char) -> (r: bool)
    ensures
        r == is_alpha_char(c),
{
    ('a' <= c && c <= 'z') || ('A' <= c && c <= 'Z')
}

/// An operator symbol.
pub open spec fn is_op_char(c: char) -> bool {
    c == '+' || c == '-' || c == '*' || c == '/' || c == '%' || c == '^'
}

/// An explicit sign inside a scientific-notation exponent.
pub open spec fn is_sign_char(c: char) -> bool {
    c == '+' || c == '-'
}

/// The ASCII lowercase form of a character.
pub open spec fn spec_lower_char(c: char) -> char {
    if 'A' <= c && c <= 'Z' {
        ((c as u32) + 32) as char
    } else {
        c
    }
}

/// The ASCII lowercase form of a character sequence.
pub open spec fn lower_seq(s: Seq<char>) -> Seq<char> {
    s.map_values(|c: char| spec_lower_char(c))
}

/// The ASCII lowercase form of a character.
fn lower_char(c: char) -> (r: char)
    ensures
        r == spec_lower_char(c),
{
    match c {
        'A' => 'a',
        'B' => 'b',
        'C' => 'c',
        'D' => 'd',
        'E' => 'e',
        'F' => 'f',
        'G' => 'g',
        'H' => 'h',
        'I' => 'i',
        'J' => 'j',
        'K' => 'k',
        'L' => 'l',
        'M' => 'm',
        'N' => 'n',
        'O' => 'o',
        'P' => 'p',
        'Q' => 'q',
        'R' => 'r',
        'S' => 's',
        'T' => 't',
        'U' => 'u',
        'V' => 'v',
        'W' => 'w',
        'X' => 'x',
        'Y' => 'y',
        'Z' => 'z',
        _ => c,
    }
}

/// Where the numeric run that continues at `i` ends: digits are consumed
/// freely, at most one decimal point is consumed (and none once the
/// exponent marker has been seen), one exponent marker is consumed, and a
/// sign directly after the exponent marker is consumed with it.
pub open spec fn num_end(s: Seq<char>, i: int, seen_dot: bool, seen_e: bool) -> int
    decreases s.len() - i,
    when 0 <= i <= s.len()
{
    if i >= s.len() {
        i
    } else {
        let c = s[i];
        if is_digit_char(c) {
            num_end(s, i + 1, seen_dot, seen_e)
        } else if c == '.' && !seen_dot && !seen_e {
            num_end(s, i + 1, true, seen_e)
        } else if (c == 'e' || c == 'E') && !seen_e {
            if i + 1 < s.len() && is_sign_char(s[i + 1]) {
                num_end(s, i + 2, seen_dot, true)
            } else {
                num_end(s, i + 1, seen_dot, true)
            }
        } else {
            i
        }
    }
}

proof fn lemma_num_end_bounds(s: Seq<char>, i: int, seen_dot: bool, seen_e: bool)
    requires
        0 <= i <= s.len(),
    ensures
        i <= num_end(s, i, seen_dot, seen_e) <= s.len(),
    decreases s.len() - i,
{
    if i < s.len() {
        let c = s[i];
        if is_digit_char(c) {
            lemma_num_end_bounds(s, i + 1, seen_dot, seen_e);
        } else if c == '.' && !seen_dot && !seen_e {
            lemma_num_end_bounds(s, i + 1, true, seen_e);
        } else if (c == 'e' || c == 'E') && !seen_e {
            if i + 1 < s.len() && is_sign_char(s[i + 1]) {
                lemma_num_end_bounds(s, i + 2, seen_dot, true);
            } else {
                lemma_num_end_bounds(s, i + 1, seen_dot, true);
            }
        }
    }
}

/// Where the identifier run that continues at `i` ends: alphanumeric
/// characters are consumed greedily.
pub open spec fn ident_end(s: Seq<char>, i: int) -> int
    decreases s.len() - i,
    when 0 <= i <= s.len()
{
    if i >= s.len() {
        i
    } else if unicode_alphanumeric(s[i]) {
        ident_end(s, i + 1)
    } else {
        i
    }
}

proof fn lemma_ident_end_bounds(s: Seq<char>, i: int)
    requires
        0 <= i <= s.len(),
    ensures
        i <= ident_end(s, i) <= s.len(),
    decreases s.len() - i,
{
    if i < s.len() && unicode_alphanumeric(s[i]) {
        lemma_ident_end_bounds(s, i + 1);
    }
}

/// The token sequence of the text from position `i` on, or the first
/// lexical failure.
pub open spec fn spec_tokenize_from(s: Seq<char>, i: int) -> Result<Seq<TokenV>, LexErrorV>
    decreases s.len() - i,
    when 0 <= i <= s.len()
    via spec_tokenize_from_dec
{
    if i >= s.len() {
        Ok(Seq::empty())
    } else {
        let c = s[i];
        if c == '(' || c == ')' {
            let t = if c == '(' {
                TokenV::LParenthesis
            } else {
                TokenV::RParenthesis
            };
            match spec_tokenize_from(s, i + 1) {
                Ok(rest) => Ok(seq![t] + rest),
                Err(e) => Err(e),
            }
        } else if unicode_whitespace(c) {
            spec_tokenize_from(s, i + 1)
        } else if is_op_char(c) {
            match spec_tokenize_from(s, i + 1) {
                Ok(rest) => Ok(seq![TokenV::Op(spec_op_of_char(c))] + rest),
                Err(e) => Err(e),
            }
        } else if is_digit_char(c) {
            let j = num_end(s, i + 1, false, false);
            let lit = s.subrange(i, j);
            match dec_parse(lit) {
                None => Err(LexErrorV::InvalidNumber(lit)),
                Some(repr) => match spec_tokenize_from(s, j) {
                    Ok(rest) => Ok(seq![TokenV::Number(repr)] + rest),
                    Err(e) => Err(e),
                },
            }
        } else if is_alpha_char(c) {
            let j = ident_end(s, i + 1);
            let lit = s.subrange(i, j);
            match const_of_name(lower_seq(lit)) {
                None => Err(LexErrorV::UnknownIdentifier(lit)),
                Some(m) => match spec_tokenize_from(s, j) {
                    Ok(rest) => Ok(seq![TokenV::Ident(m)] + rest),
                    Err(e) => Err(e),
                },
            }
        } else {
            Err(LexErrorV::UnexpectedCharacter(c))
        }
    }
}

#[via_fn]
proof fn spec_tokenize_from_dec(s: Seq<char>, i: int) {
    if 0 <= i < s.len() {
        lemma_num_end_bounds(s, i + 1, false, false);
        lemma_ident_end_bounds(s, i + 1);
    }
}

/// The token sequence of the whole text, or the first lexical failure.
pub open spec fn spec_tokenize(s: Seq<char>) -> Result<Seq<TokenV>, LexErrorV> {
    spec_tokenize_from(s, 0)
}

/// The views of a lexer result.
pub open spec fn lex_view(r: Result<Vec<Token>, LexError>) -> Result<Seq<TokenV>, LexErrorV> {
    match r {
        Ok(v) => Ok(token_views(v@)),
        Err(e) => Err(e@),
    }
}

/// Scans the input into tokens: parentheses, operator symbols, numeric
/// literals (with at most one decimal point and scientific notation), and identifiers
/// resolved case-insensitively against the constant table; whitespace is
/// skipped. The whole input is consumed or the first failure is returned.
pub fn tokenize(input: &str) -> (r: Result<Vec<Token>, LexError>)
    ensures
        lex_view(r) == spec_tokenize(input@),
{
    let chars = str_chars(input);
    let ghost s = input@;
    let n = chars.len();
    let mut tokens: Vec<Token> = Vec::new();
    let mut i: usize = 0;
    while i < n
        invariant
            s == input@,
            chars@ == s,
            n == s.len(),
            0 <= i <= n,
            spec_tokenize_from(s, 0) == (match spec_tokenize_from(s, i as int) {
                Ok(rest) => Ok::<Seq<TokenV>, LexErrorV>(token_views(tokens@) + rest),
                Err(e) => Err::<Seq<TokenV>, LexErrorV>(e),
            }),
        decreases n - i,
    {
        let ghost i0 = i as int;
        let ghost tokens0 = tokens@;
        let c = chars[i];
        if is_paren(c) {
            let t = to_paren(c);
            tokens.push(t);
            i = i + 1;
            proof {
                assert(token_views(tokens@) =~= token_views(tokens0).push(
                    if c == '(' {
                        TokenV::LParenthesis
                    } else {
                        TokenV::RParenthesis
                    },
                ));
                if let Ok(rest) = spec_tokenize_from(s, i as int) {
                    assert(token_views(tokens@) + rest =~= token_views(tokens0) + (seq![
                        if c == '(' {
                            TokenV::LParenthesis
                        } else {
                            TokenV::RParenthesis
                        },
                    ] + rest));
                }
            }
        } else if is_whitespace_char(c) {
            i = i + 1;
        } else if is_op(c) {
            tokens.push(Token::Op(op_of_char(c)));
            i = i + 1;
            proof {
                assert(token_views(tokens@) =~= token_views(tokens0).push(
                    TokenV::Op(spec_op_of_char(c)),
                ));
                if let Ok(rest) = spec_tokenize_from(s, i as int) {
                    assert(token_views(tokens@) + rest =~= token_views(tokens0) + (seq![
                        TokenV::Op(spec_op_of_char(c)),
                    ] + rest));
                }
            }
        } else if is_digit_exec(c) {
            let ghost start = i as int;
            let mut buf: Vec<char> = Vec::new();
            buf.push(c);
            i = i + 1;
            let mut seen_dot: bool = false;
            let mut seen_e: bool = false;
            proof {
                assert(buf@ =~= s.subrange(start, i as int));
            }
            loop
                invariant
                    chars@ == s,
                    n == s.len(),
                    0 <= start < n,
                    start + 1 <= i as int <= n,
                    buf@ == s.subrange(start, i as int),
                    num_end(s, start + 1, false, false) == num_end(s, i as int, seen_dot, seen_e),
                ensures
                    start + 1 <= i as int <= n,
                    buf@ == s.subrange(start, i as int),
                    num_end(s, start + 1, false, false) == i as int,
                decreases n - i,
            {
                let ghost ii = i as int;
                let ghost dot0 = seen_dot;
                let ghost seen0 = seen_e;
                if i >= n {
                    proof {
                        assert(num_end(s, ii, dot0, seen0) == ii);
                    }
                    break ;
                }
                let nc = chars[i];
                if is_digit_exec(nc) {
                    buf.push(nc);
                    i = i + 1;
                    proof {
                        assert(buf@ =~= s.subrange(start, i as int));
                        assert(num_end(s, ii, dot0, seen0) == num_end(s, i as int, seen_dot, seen_e));
                    }
                } else if nc == '.' && !seen_dot && !seen_e {
                    buf.push(nc);
                    i = i + 1;
                    seen_dot = true;
                    proof {
                        assert(buf@ =~= s.subrange(start, i as int));
                        assert(num_end(s, ii, dot0, seen0) == num_end(s, i as int, seen_dot, seen_e));
                    }
                } else if (nc == 'e' || nc == 'E') && !seen_e {
                    buf.push(nc);
                    i = i + 1;
                    seen_e = true;
                    proof {
                        assert(buf@ =~= s.subrange(start, i as int));
                    }
                    if i < n {
                        let sc = chars[i];
                        if sc == '+' || sc == '-' {
                            buf.push(sc);
                            i = i + 1;
                            proof {
                                assert(buf@ =~= s.subrange(start, i as int));
                            }
                        }
                    }
                    proof {
                        assert(num_end(s, ii, dot0, seen0) == num_end(s, i as int, seen_dot, seen_e));
                    }
                } else {
                    proof {
                        assert(num_end(s, ii, dot0, seen0) == ii);
                    }
                    break ;
                }
            }
            let ghost j = num_end(s, start + 1, false, false);
            let ghost lit = s.subrange(start, j);
            proof {
                assert(j == i as int);
                assert(lit == buf@);
            }
            let text = chars_to_string(&buf);
            let parsed = dec_from_literal(text.as_str());
            proof {
                assert(spec_tokenize_from(s, start) == (match dec_parse(lit) {
                    None => Err::<Seq<TokenV>, LexErrorV>(LexErrorV::InvalidNumber(lit)),
                    Some(repr) => match spec_tokenize_from(s, j) {
                        Ok(rest) => Ok::<Seq<TokenV>, LexErrorV>(
                            seq![TokenV::Number(repr)] + rest,
                        ),
                        Err(e) => Err::<Seq<TokenV>, LexErrorV>(e),
                    },
                }));
            }
            match parsed {
                None => {
                    return Err(LexError::InvalidNumber(text));
                },
                Some(d) => {
                    tokens.push(Token::Number(d));
                    proof {
                        assert(token_views(tokens@) =~= token_views(tokens0).push(
                            TokenV::Number(d@),
                        ));
                        if let Ok(rest) = spec_tokenize_from(s, i as int) {
                            assert(token_views(tokens@) + rest =~= token_views(tokens0) + (seq![
                                TokenV::Number(d@),
                            ] + rest));
                        }
                    }
                },
            }
        } else if is_alpha_exec(c) {
            let ghost start = i as int;
            let mut buf: Vec<char> = Vec::new();
            buf.push(c);
            i = i + 1;
            proof {
                assert(buf@ =~= s.subrange(start, i as int));
            }
            loop
                invariant
                    chars@ == s,
                    n == s.len(),
                    0 <= start < n,
                    start + 1 <= i as int <= n,
                    buf@ == s.subrange(start, i as int),
                    ident_end(s, start + 1) == ident_end(s, i as int),
                ensures
                    start + 1 <= i as int <= n,
                    buf@ == s.subrange(start, i as int),
                    ident_end(s, start + 1) == i as int,
                decreases n - i,
            {
                let ghost ii = i as int;
                if i >= n {
                    proof {
                        assert(ident_end(s, ii) == ii);
                    }
                    break ;
                }
                let nc = chars[i];
                if !is_alphanumeric_char(nc) {
                    proof {
                        assert(ident_end(s, ii) == ii);
                    }
                    break ;
                }
                buf.push(nc);
                i = i + 1;
                proof {
                    assert(buf@ =~= s.subrange(start, i as int));
                    assert(ident_end(s, ii) == ident_end(s, i as int));
                }
            }
            let ghost j = ident_end(s, start + 1);
            let ghost lit = s.subrange(start, j);
            proof {
                assert(j == i as int);
                assert(lit == buf@);
            }
            let mut low: Vec<char> = Vec::new();
            let mut k: usize = 0;
            while k < buf.len()
                invariant
                    0 <= k <= buf.len(),
                    low@ == lower_seq(buf@.take(k as int)),
                decreases buf.len() - k,
            {
                low.push(lower_char(buf[k]));
                k = k + 1;
                proof {
                    assert(low@ =~= lower_seq(buf@.take(k as int)));
                }
            }
            proof {
                assert(buf@.take(buf@.len() as int) =~= buf@);
                assert(spec_tokenize_from(s, start) == (match const_of_name(lower_seq(lit)) {
                    None => Err::<Seq<TokenV>, LexErrorV>(LexErrorV::UnknownIdentifier(lit)),
                    Some(m) => match spec_tokenize_from(s, j) {
                        Ok(rest) => Ok::<Seq<TokenV>, LexErrorV>(seq![TokenV::Ident(m)] + rest),
                        Err(e) => Err::<Seq<TokenV>, LexErrorV>(e),
                    },
                }));
            }
            match crate::tokens::lookup_const(&low) {
                None => {
                    return Err(LexError::UnknownIdentifier(chars_to_string(&buf)));
                },
                Some(m) => {
                    tokens.push(Token::Ident(m));
                    proof {
                        assert(token_views(tokens@) =~= token_views(tokens0).push(
                            TokenV::Ident(m),
                        ));
                        if let Ok(rest) = spec_tokenize_from(s, i as int) {
                            assert(token_views(tokens@) + rest =~= token_views(tokens0) + (seq![
                                TokenV::Ident(m),
                            ] + rest));
                        }
                    }
                },
            }
        } else {
            proof {
                assert(spec_tokenize_from(s, i as int) == Err::<Seq<TokenV>, LexErrorV>(
                    LexErrorV::UnexpectedCharacter(c),
                ));
            }
            return Err(LexError::UnexpectedCharacter(c));
        }
    }
    proof {
        if let Ok(rest) = spec_tokenize_from(s, i as int) {
            assert(token_views(tokens@) + rest =~= token_views(tokens@));
        }
    }
    Ok(tokens)
}

} // verus!
