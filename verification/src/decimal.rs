use vstd::prelude::*;

use std::str::FromStr;

use crate::tokens::MathConst;

verus! {

// An arbitrary-precision signed decimal value. The value is held as the
// canonical scientific-notation text that the backing bigdecimal library
// prints (sign, one leading digit, the remaining mantissa digits, and a
// decimal exponent; zero prints as 0e0), so that a value is determined by
// its text, its size stays proportional to the mantissa even for extreme
// exponents, and two runs over the same input produce identical results.
//
// The arithmetic itself is the bigdecimal library's; each operation below is
// a trusted wrapper whose result is named by an uninterpreted spec function
// over the operands' text, except the zero test, which canonical text makes
// exact: zero prints as `0e0` and nothing else does. Division and integer
// powers are computed at the library's default precision (one hundred
// significant digits unless the build configures otherwise), which is a
// fixed function of the operands.

/// The canonical text of the decimal parsed from `s`, or `None` where `s`
/// is not a decimal literal the library accepts.
pub uninterp spec fn dec_parse(s: Seq<char>) -> Option<Seq<char>>;

/// The canonical text of the exact sum of the decimals written `a` and `b`.
pub uninterp spec fn dec_add(a: Seq<char>, b: Seq<char>) -> Seq<char>;

/// The canonical text of the exact difference of the decimals written `a` and `b`.
pub uninterp spec fn dec_sub(a: Seq<char>, b: Seq<char>) -> Seq<char>;

/// The canonical text of the exact product of the decimals written `a` and `b`.
pub uninterp spec fn dec_mul(a: Seq<char>, b: Seq<char>) -> Seq<char>;

/// The canonical text of the quotient of the decimals written `a` and `b`,
/// at the library's default division precision.
pub uninterp spec fn dec_div(a: Seq<char>, b: Seq<char>) -> Seq<char>;

/// The canonical text of the remainder of the decimals written `a` and `b`.
pub uninterp spec fn dec_rem(a: Seq<char>, b: Seq<char>) -> Seq<char>;

/// The canonical text of the negation of the decimal written `a`.
pub uninterp spec fn dec_neg(a: Seq<char>) -> Seq<char>;

/// The canonical text of the decimal written `a` raised to the signed
/// integer power `e`, at the library's default precision (a negative `e`
/// yields the reciprocal power, and zero raised to any power is zero).
pub uninterp spec fn dec_powi(a: Seq<char>, e: i64) -> Seq<char>;

/// Whether the decimal written `a` equals zero: the canonical text of a
/// zero value is exactly `0e0`, whatever its scale, and a nonzero value
/// prints a nonzero leading digit.
pub open spec fn dec_is_zero(a: Seq<char>) -> bool {
    a == "0e0"@
}

/// Whether the decimal written `a` has no fractional part.
pub uninterp spec fn dec_is_integer(a: Seq<char>) -> bool;

/// The decimal written `a`, truncated toward zero, as a 64-bit signed
/// integer, or `None` where that integer does not fit.
pub uninterp spec fn dec_to_i64(a: Seq<char>) -> Option<i64>;

/// An arbitrary-precision signed decimal value, stored in canonical
/// scientific notation.
#[derive(Debug)]
pub struct Dec {
    repr: String,
}

impl View for Dec {
    type V = Seq<char>;

    closed spec fn view(&self) -> Seq<char> {
        self.repr@
    }
}

impl Dec {
    /// Every value holds canonical text: parsing it and printing the result
    /// reproduces it. The field is private, and every constructor stores
    /// the library's own canonical print, which round-trips exactly.
    #[verifier::type_invariant]
    spec fn wf(self) -> bool {
        dec_parse(self.repr@) == Some(self.repr@)
    }

    /// The canonical scientific-notation text of this value.
    pub fn to_scientific_notation(&self) -> (r: String)
        ensures
            r@ == self@,
    {
        self.repr.clone()
    }
}

impl Clone for Dec {
    fn clone(&self) -> (r: Self)
        ensures
            r@ == self@,
    {
        proof {
            use_type_invariant(&*self);
        }
        Dec { repr: self.repr.clone() }
    }
}

/// Relies on bigdecimal::BigDecimal::from_str and
/// BigDecimal::to_scientific_notation: each fixed literal below parses to
/// the mantissa and exponent that the canonical text stated for its tag in
/// `MathConst::spec_value` renders. The unwrap parses a fixed literal and
/// cannot fail.
#[verifier::external_body]
pub(crate) fn const_dec(c: MathConst) -> (r: Dec)
    ensures
        r@ == c.spec_value(),
{
    let lit = match c {
        MathConst::Pi => "3.1415926535897932384626433832795028841971",
        MathConst::Tau => "6.2831853071795864769252867665590057683942",
        MathConst::E => "2.7182818284590452353602874713526624977572",
        MathConst::Phi => "1.6180339887498948482045868343656381177203",
        MathConst::C => "299792458",
        MathConst::H => "6.62607015e-34",
        MathConst::G => "6.67430e-11",
        MathConst::R => "8.314462618",
        MathConst::Na => "6.02214076e23",
        MathConst::Kb => "1.380649e-23",
        MathConst::Ec => "1.602176634e-19",
    };
    Dec { repr: bigdecimal::BigDecimal::from_str(lit).unwrap().to_scientific_notation() }
}

/// Relies on bigdecimal::BigDecimal::from_str, which accepts a decimal
/// literal (optional sign, digits, optional fraction, optional exponent) and
/// rejects any other text, and on BigDecimal::to_scientific_notation, which
/// prints the exact value canonically.
#[verifier::external_body]
pub(crate) fn dec_from_literal(s: &str) -> (r: Option<Dec>)
    ensures
        r matches Some(d) ==> dec_parse(s@) == Some(d@),
        r is None <==> dec_parse(s@) is None,
{
    match bigdecimal::BigDecimal::from_str(s) {
        Ok(d) => Some(Dec { repr: d.to_scientific_notation() }),
        Err(_) => None,
    }
}

/// Relies on the `+` of bigdecimal::BigDecimal: exact decimal addition.
/// The unwraps reparse this type's own canonical text and cannot fail.
#[verifier::external_body]
pub(crate) fn dec_add_exec(a: &Dec, b: &Dec) -> (r: Dec)
    ensures
        r@ == dec_add(a@, b@),
{
    let x = bigdecimal::BigDecimal::from_str(&a.repr).unwrap();
    let y = bigdecimal::BigDecimal::from_str(&b.repr).unwrap();
    Dec { repr: (x + y).to_scientific_notation() }
}

/// Relies on the `-` of bigdecimal::BigDecimal: exact decimal subtraction.
#[verifier::external_body]
pub(crate) fn dec_sub_exec(a: &Dec, b: &Dec) -> (r: Dec)
    ensures
        r@ == dec_sub(a@, b@),
{
    let x = bigdecimal::BigDecimal::from_str(&a.repr).unwrap();
    let y = bigdecimal::BigDecimal::from_str(&b.repr).unwrap();
    Dec { repr: (x - y).to_scientific_notation() }
}

/// Relies on the `*` of bigdecimal::BigDecimal: exact decimal multiplication.
#[verifier::external_body]
pub(crate) fn dec_mul_exec(a: &Dec, b: &Dec) -> (r: Dec)
    ensures
        r@ == dec_mul(a@, b@),
{
    let x = bigdecimal::BigDecimal::from_str(&a.repr).unwrap();
    let y = bigdecimal::BigDecimal::from_str(&b.repr).unwrap();
    Dec { repr: (x * y).to_scientific_notation() }
}

/// Relies on the `/` of bigdecimal::BigDecimal, which divides at the
/// library's default precision and panics on a zero divisor, so a zero
/// divisor is excluded here.
#[verifier::external_body]
pub(crate) fn dec_div_exec(a: &Dec, b: &Dec) -> (r: Dec)
    requires
        !dec_is_zero(b@),
    ensures
        r@ == dec_div(a@, b@),
{
    let x = bigdecimal::BigDecimal::from_str(&a.repr).unwrap();
    let y = bigdecimal::BigDecimal::from_str(&b.repr).unwrap();
    Dec { repr: (x / y).to_scientific_notation() }
}

/// Relies on the `%` of bigdecimal::BigDecimal, which panics on a zero
/// divisor, so a zero divisor is excluded here.
#[verifier::external_body]
pub(crate) fn dec_rem_exec(a: &Dec, b: &Dec) -> (r: Dec)
    requires
        !dec_is_zero(b@),
    ensures
        r@ == dec_rem(a@, b@),
{
    let x = bigdecimal::BigDecimal::from_str(&a.repr).unwrap();
    let y = bigdecimal::BigDecimal::from_str(&b.repr).unwrap();
    Dec { repr: (x % y).to_scientific_notation() }
}

/// Relies on the unary `-` of bigdecimal::BigDecimal: exact negation (the
/// mantissa's sign flips, the scale is kept). Negation is an involution,
/// so negating the canonical result prints this value's own text back.
#[verifier::external_body]
pub(crate) fn dec_neg_exec(a: &Dec) -> (r: Dec)
    ensures
        r@ == dec_neg(a@),
        dec_neg(r@) == a@,
{
    let x = bigdecimal::BigDecimal::from_str(&a.repr).unwrap();
    Dec { repr: (-x).to_scientific_notation() }
}

/// Relies on bigdecimal::BigDecimal::powi: the signed integer power at the
/// library's default precision; it returns for every exponent.
#[verifier::external_body]
pub(crate) fn dec_powi_exec(a: &Dec, e: i64) -> (r: Dec)
    ensures
        r@ == dec_powi(a@, e),
{
    let x = bigdecimal::BigDecimal::from_str(&a.repr).unwrap();
    Dec { repr: x.powi(e).to_scientific_notation() }
}

/// Relies on num_traits::Zero::is_zero as bigdecimal implements it (true
/// exactly of a zero mantissa) and on the canonical text stored here:
/// zero prints exactly `0e0`, and nothing else does.
#[verifier::external_body]
pub(crate) fn dec_is_zero_exec(a: &Dec) -> (r: bool)
    ensures
        r == dec_is_zero(a@),
{
    let x = bigdecimal::BigDecimal::from_str(&a.repr).unwrap();
    num_traits::Zero::is_zero(&x)
}

/// Relies on bigdecimal::BigDecimal::is_integer: true exactly of a value
/// with zero fractional part.
#[verifier::external_body]
pub(crate) fn dec_is_integer_exec(a: &Dec) -> (r: bool)
    ensures
        r == dec_is_integer(a@),
{
    let x = bigdecimal::BigDecimal::from_str(&a.repr).unwrap();
    x.is_integer()
}

/// Relies on num_traits::ToPrimitive::to_i64 as bigdecimal implements it:
/// the value truncated toward zero as an i64, or None where that integer
/// is not representable.
#[verifier::external_body]
pub(crate) fn dec_to_i64_exec(a: &Dec) -> (r: Option<i64>)
    ensures
        r == dec_to_i64(a@),
{
    let x = bigdecimal::BigDecimal::from_str(&a.repr).unwrap();
    num_traits::ToPrimitive::to_i64(&x)
}

} // verus!
