//! Arbitrary-precision real numbers for the attractor pipeline.
//!
//! A [`BigReal`] carries the exact representation of an arbitrary-precision
//! binary floating-point value as plain data: little-endian mantissa words
//! (the most significant word last), a significant-bit count, a sign and a
//! binary exponent, so that a finite value is
//! `(-1)^neg * (sum of words[i] * 2^(64*i) / 2^(64*len)) * 2^exp`.
//! Non-finite values (infinities, not-a-number) are separate variants.
//!
//! Arithmetic on `BigReal` values is delegated to the `astro-float` crate, whose
//! operations are correctly rounded at a caller-chosen bit precision. Each
//! correctly rounded operation's result is named by an uninterpreted spec
//! function of the operand models and the precision (negation, a pure sign
//! flip, has a defined one): the value returned is a pure function of its
//! arguments, so contracts downstream can speak of the composed results.

use vstd::prelude::*;

use crate::wordsum::{fits_i32, real_int_value, wsum};
use vstd::arithmetic::power2::pow2;

verus! {

/// Default working precision, in bits, for arbitrary-precision renders.
pub const PRECISION: usize = 256;

/// Declares the `astro-float` number type so that the trusted conversion
/// helpers below can pass it around; the type stays opaque to the verifier.
#[verifier::external_type_specification]
#[verifier::external_body]
pub struct ExBigFloat(astro_float::BigFloat);

/// Mathematical model of a [`BigReal`]: the same data with mathematical types.
pub enum BigRealModel {
    /// A finite value `(-1)^neg * wsum(words) / 2^(64*words.len()) * 2^exp`.
    Num { words: Seq<u64>, nbits: int, neg: bool, exp: int },
    /// Positive (`neg == false`) or negative infinity.
    Inf { neg: bool },
    /// Not-a-number: absorbs every operation.
    NaN,
}

/// An arbitrary-precision binary floating-point value, held as plain data.
#[derive(Clone)]
pub enum BigReal {
    /// A finite value; `words` is the mantissa, least significant word first,
    /// `nbits` the number of significant mantissa bits, `exp` the exponent.
    Num { words: Vec<u64>, nbits: usize, neg: bool, exp: i32 },
    /// Positive (`neg == false`) or negative infinity.
    Inf { neg: bool },
    /// Not-a-number.
    NaN,
}

impl View for BigReal {
    type V = BigRealModel;

    open spec fn view(&self) -> BigRealModel {
        match self {
            BigReal::Num { words, nbits, neg, exp } => BigRealModel::Num {
                words: words@,
                nbits: *nbits as int,
                neg: *neg,
                exp: *exp as int,
            },
            BigReal::Inf { neg } => BigRealModel::Inf { neg: *neg },
            BigReal::NaN => BigRealModel::NaN,
        }
    }
}

/// The value that parsing a decimal literal at `prec` bits yields.
pub uninterp spec fn real_dec(s: Seq<char>, prec: usize) -> BigRealModel;

/// The correctly rounded sum of two values at `prec` bits.
pub uninterp spec fn real_sum(a: BigRealModel, b: BigRealModel, prec: usize) -> BigRealModel;

/// The correctly rounded product of two values at `prec` bits.
pub uninterp spec fn real_prod(a: BigRealModel, b: BigRealModel, prec: usize) -> BigRealModel;

/// The correctly rounded sine of a value at `prec` bits.
pub uninterp spec fn real_sine(a: BigRealModel, prec: usize) -> BigRealModel;

/// The correctly rounded cosine of a value at `prec` bits.
pub uninterp spec fn real_cosine(a: BigRealModel, prec: usize) -> BigRealModel;

/// `nbits` is the exact significant-bit count of the words' value: zero for
/// zero, else the unique `n` with `2^(n-1) <= wsum(words) < 2^n`.
pub open spec fn has_bit_len(words: Seq<u64>, nbits: int) -> bool {
    if wsum(words) == 0 {
        nbits == 0
    } else {
        nbits >= 1 && pow2((nbits - 1) as nat) <= wsum(words) < pow2(nbits as nat)
    }
}

/// A representation `astro-float` itself produces and accepts back: the
/// stored bit count is the words' true significant-bit count, the mantissa
/// fills its words unless the value is zero or the exponent is the minimum
/// (a subnormal), and the bit width stays below the library's precision cap.
/// Infinities and NaN are always well-formed. A `Num` built by hand with
/// inconsistent parts denotes a value to the model but is NaN to the library,
/// so the value clauses of the arithmetic below hold only of well-formed
/// operands; every wrapper ensures well-formedness of its result.
pub open spec fn wf_real(m: BigRealModel) -> bool {
    match m {
        BigRealModel::Num { words, nbits, neg, exp } => {
            &&& 64 * words.len() < 4611686016279904255
            &&& 0 <= nbits <= 64 * words.len()
            &&& has_bit_len(words, nbits)
            &&& (nbits == 0 || nbits == 64 * words.len() || exp == i32::MIN)
        },
        BigRealModel::Inf { neg } => true,
        BigRealModel::NaN => true,
    }
}

/// A finite representation of the value zero: all mantissa words clear.
pub open spec fn is_zero_value(m: BigRealModel) -> bool {
    match m {
        BigRealModel::Num { words, nbits, neg, exp } => wsum(words) == 0,
        BigRealModel::Inf { neg } => false,
        BigRealModel::NaN => false,
    }
}

/// The model with its sign flipped and everything else unchanged.
pub open spec fn flip_sign(a: BigRealModel) -> BigRealModel {
    match a {
        BigRealModel::Num { words, nbits, neg, exp } => BigRealModel::Num {
            words,
            nbits,
            neg: !neg,
            exp,
        },
        BigRealModel::Inf { neg } => BigRealModel::Inf { neg: !neg },
        BigRealModel::NaN => BigRealModel::NaN,
    }
}

/// What negation returns, for every representation: a well-formed operand
/// keeps its magnitude with the sign flipped, a zero re-canonicalized to
/// exponent zero on the way; a representation the library rejects
/// degenerates to NaN.
pub open spec fn real_negated(a: BigRealModel) -> BigRealModel {
    match a {
        BigRealModel::Num { words, nbits, neg, exp } => {
            if wf_real(a) {
                if wsum(words) == 0 {
                    BigRealModel::Num { words, nbits, neg: !neg, exp: 0 }
                } else {
                    BigRealModel::Num { words, nbits, neg: !neg, exp }
                }
            } else {
                BigRealModel::NaN
            }
        },
        BigRealModel::Inf { neg } => BigRealModel::Inf { neg: !neg },
        BigRealModel::NaN => BigRealModel::NaN,
    }
}

/// A decimal digit.
pub open spec fn is_dec_digit(c: char) -> bool {
    '0' <= c && c <= '9'
}

/// One or more decimal digits.
pub open spec fn all_dec_digits(s: Seq<char>) -> bool {
    s.len() >= 1 && forall|i: int| 0 <= i < s.len() ==> is_dec_digit(#[trigger] s[i])
}

/// A plain decimal literal: an optional leading minus sign, one or more
/// digits, and optionally a point followed by one or more digits. The length
/// bound keeps the denoted value far inside the library's exponent range.
pub open spec fn plain_decimal(s: Seq<char>) -> bool {
    let t = if s.len() > 0 && s[0] == '-' {
        s.skip(1)
    } else {
        s
    };
    &&& s.len() <= 1000
    &&& (all_dec_digits(t) || exists|d: int|
        0 < d < t.len() && #[trigger] t[d] == '.' && all_dec_digits(t.take(d)) && all_dec_digits(
            t.skip(d + 1),
        ))
}

/// Rebuilds the `astro_float` value that a `BigReal` stands for.
/// Relies on `astro_float::BigFloat::from_raw_parts`, which reconstructs a
/// number from mantissa words, significant-bit count, sign and exponent, and
/// yields NaN for parts that denote no valid number.
#[verifier::external_body]
pub(crate) fn to_big(r: &BigReal) -> astro_float::BigFloat {
    match r {
        BigReal::Num { words, nbits, neg, exp } => astro_float::BigFloat::from_raw_parts(
            words.as_slice(),
            *nbits,
            if *neg { astro_float::Sign::Neg } else { astro_float::Sign::Pos },
            *exp,
            false,
        ),
        BigReal::Inf { neg } => if *neg { astro_float::INF_NEG } else { astro_float::INF_POS },
        BigReal::NaN => astro_float::NAN,
    }
}

/// Captures an `astro_float` result as plain data.
/// Relies on `astro_float::BigFloat::as_raw_parts`, which exposes the
/// mantissa words, significant-bit count, sign and exponent of a finite
/// value and `None` for infinities and NaN.
#[verifier::external_body]
pub(crate) fn from_big(b: &astro_float::BigFloat) -> BigReal {
    if b.is_nan() {
        BigReal::NaN
    } else if b.is_inf() {
        BigReal::Inf { neg: b.is_inf_neg() }
    } else {
        match b.as_raw_parts() {
            Some((m, n, s, e, _)) => BigReal::Num {
                words: m.to_vec(),
                nbits: n,
                neg: matches!(s, astro_float::Sign::Neg),
                exp: e,
            },
            None => BigReal::NaN,
        }
    }
}

/// Reads a decimal literal such as `-1.7` into a `BigReal` at `prec` bits.
/// Relies on `astro_float::BigFloat::parse` with decimal radix, which rounds
/// the denoted value correctly to `prec` bits (ties to even) and depends on
/// nothing but the text and the precision; an unparsable text or a failed
/// allocation of the constants cache yields the NaN variant. A plain decimal
/// literal of at most a thousand characters denotes a value far inside the
/// library's exponent range, so at a valid working precision it parses to a
/// finite number.
#[verifier::external_body]
pub fn real_from_decimal(s: &str, prec: usize) -> (r: BigReal)
    ensures
        r@ == real_dec(s@, prec),
        wf_real(r@),
        64 <= prec <= u32::MAX as usize && plain_decimal(s@) ==> r@ is Num,
{
    match astro_float::Consts::new() {
        Ok(mut cc) => from_big(
            &astro_float::BigFloat::parse(
                s,
                astro_float::Radix::Dec,
                prec,
                astro_float::RoundingMode::ToEven,
                &mut cc,
            ),
        ),
        Err(_) => BigReal::NaN,
    }
}

/// Relies on `astro_float::BigFloat::add`: the sum, correctly rounded to
/// `prec` bits (ties to even), a pure function of the operand values.
/// A sum of two well-formed integer values of `i32` size is exact at working
/// precisions of 64 bits and more, and NaN absorbs the operation.
#[verifier::external_body]
pub(crate) fn real_add(a: &BigReal, b: &BigReal, prec: usize) -> (r: BigReal)
    ensures
        r@ == real_sum(a@, b@, prec),
        wf_real(r@),
        64 <= prec <= u32::MAX as usize && wf_real(a@) && wf_real(b@) && real_int_value(a@)
            is Some && real_int_value(b@) is Some && fits_i32(
            real_int_value(a@).unwrap() + real_int_value(b@).unwrap(),
        ) ==> real_int_value(r@) == Some(
            real_int_value(a@).unwrap() + real_int_value(b@).unwrap(),
        ),
        a@ is NaN || b@ is NaN ==> r@ is NaN,
{
    from_big(&to_big(a).add(&to_big(b), prec, astro_float::RoundingMode::ToEven))
}

/// Relies on `astro_float::BigFloat::mul`: the product, correctly rounded to
/// `prec` bits (ties to even), a pure function of the operand values.
/// For well-formed operands, an exact zero times any finite value is an
/// exact zero and an exact one times an integer value of `i32` size leaves
/// it unchanged at working precisions of 64 bits and more; NaN absorbs the
/// operation.
#[verifier::external_body]
pub(crate) fn real_mul(a: &BigReal, b: &BigReal, prec: usize) -> (r: BigReal)
    ensures
        r@ == real_prod(a@, b@, prec),
        wf_real(r@),
        64 <= prec <= u32::MAX as usize && wf_real(a@) && wf_real(b@) && real_int_value(a@)
            == Some(0int) && b@ is Num ==> real_int_value(r@) == Some(0int),
        64 <= prec <= u32::MAX as usize && wf_real(a@) && wf_real(b@) && real_int_value(a@)
            == Some(1int) && real_int_value(b@) is Some ==> real_int_value(r@) == real_int_value(
            b@,
        ),
        a@ is NaN || b@ is NaN ==> r@ is NaN,
{
    from_big(&to_big(a).mul(&to_big(b), prec, astro_float::RoundingMode::ToEven))
}

/// The correctly rounded difference of two values at `prec` bits.
pub uninterp spec fn real_diff(a: BigRealModel, b: BigRealModel, prec: usize) -> BigRealModel;

/// The correctly rounded quotient of two values at `prec` bits.
pub uninterp spec fn real_quot(a: BigRealModel, b: BigRealModel, prec: usize) -> BigRealModel;

/// The integer part of a value: truncation toward zero.
pub uninterp spec fn real_intpart(a: BigRealModel) -> BigRealModel;

/// The value rounded to the nearest integer, ties to even.
pub uninterp spec fn real_rounded(a: BigRealModel) -> BigRealModel;

/// The exact value of a 32-bit unsigned integer at `prec` bits.
pub uninterp spec fn real_of_u32(b: u32, prec: usize) -> BigRealModel;

/// Relies on `astro_float::BigFloat::sub`: the difference, correctly rounded
/// to `prec` bits (ties to even), a pure function of the operand values.
/// Subtracting a value from itself gives an exact zero (or NaN, from
/// non-finite or ill-formed operands), a difference of two well-formed
/// integer values of `i32` size is exact at working precisions of 64 bits
/// and more, and NaN absorbs the operation.
#[verifier::external_body]
pub(crate) fn real_sub(a: &BigReal, b: &BigReal, prec: usize) -> (r: BigReal)
    ensures
        r@ == real_diff(a@, b@, prec),
        wf_real(r@),
        a@ == b@ ==> (real_int_value(r@) == Some(0int) || r@ is NaN),
        64 <= prec <= u32::MAX as usize && a@ == b@ && a@ is Num && wf_real(a@)
            ==> real_int_value(r@) == Some(0int),
        64 <= prec <= u32::MAX as usize && wf_real(a@) && wf_real(b@) && real_int_value(a@)
            is Some && real_int_value(b@) is Some && fits_i32(
            real_int_value(a@).unwrap() - real_int_value(b@).unwrap(),
        ) ==> real_int_value(r@) == Some(
            real_int_value(a@).unwrap() - real_int_value(b@).unwrap(),
        ),
        a@ is NaN || b@ is NaN ==> r@ is NaN,
{
    from_big(&to_big(a).sub(&to_big(b), prec, astro_float::RoundingMode::ToEven))
}

/// Relies on `astro_float::BigFloat::div`: the quotient, correctly rounded
/// to `prec` bits (ties to even), a pure function of the operand values. At
/// a valid working precision, an exact zero divided by anything is an exact
/// zero or NaN, and dividing by a finite nonzero value never gives NaN; a
/// value divided by itself is an exact one or NaN (zeroes, infinities), one
/// exactly when the value is finite, nonzero and well-formed; NaN absorbs
/// the operation.
#[verifier::external_body]
pub(crate) fn real_div(a: &BigReal, b: &BigReal, prec: usize) -> (r: BigReal)
    ensures
        r@ == real_quot(a@, b@, prec),
        wf_real(r@),
        64 <= prec <= u32::MAX as usize && real_int_value(a@) == Some(0int) ==> (real_int_value(
            r@,
        ) == Some(0int) || r@ is NaN),
        64 <= prec <= u32::MAX as usize && a@ == b@ ==> (real_int_value(r@) == Some(1int) || r@
            is NaN),
        64 <= prec <= u32::MAX as usize && wf_real(a@) && real_int_value(a@) == Some(0int)
            && wf_real(b@) && b@ is Num && !is_zero_value(b@) ==> real_int_value(r@) == Some(0int),
        64 <= prec <= u32::MAX as usize && a@ == b@ && a@ is Num && wf_real(a@) && !is_zero_value(
            a@,
        ) ==> real_int_value(r@) == Some(1int),
        a@ is NaN || b@ is NaN ==> r@ is NaN,
{
    from_big(&to_big(a).div(&to_big(b), prec, astro_float::RoundingMode::ToEven))
}

/// Relies on `astro_float::BigFloat::int`: the integer part of a value,
/// truncated toward zero, so a well-formed integer value is left unchanged
/// and NaN absorbs the operation.
#[verifier::external_body]
pub(crate) fn real_trunc(a: &BigReal) -> (r: BigReal)
    ensures
        r@ == real_intpart(a@),
        wf_real(r@),
        wf_real(a@) && real_int_value(a@) is Some ==> real_int_value(r@) == real_int_value(a@),
        a@ is NaN ==> r@ is NaN,
{
    from_big(&to_big(a).int())
}

/// Relies on `astro_float::BigFloat::round` with zero fractional binary
/// places: the value rounded to the nearest integer, ties to even.
#[verifier::external_body]
pub(crate) fn real_round(a: &BigReal) -> (r: BigReal)
    ensures
        r@ == real_rounded(a@),
        wf_real(r@),
{
    from_big(&to_big(a).round(0, astro_float::RoundingMode::ToEven))
}

/// Relies on `astro_float::BigFloat::from_u32`: the exact value of a 32-bit
/// unsigned integer, finite at working precisions between 64 bits and the
/// library's precision cap.
#[verifier::external_body]
pub(crate) fn real_from_u32(b: u32, prec: usize) -> (r: BigReal)
    ensures
        r@ == real_of_u32(b, prec),
        wf_real(r@),
        64 <= prec <= u32::MAX as usize && b <= i32::MAX as u32 ==> real_int_value(r@) == Some(
            b as int,
        ),
        64 <= prec <= u32::MAX as usize ==> r@ is Num,
{
    from_big(&astro_float::BigFloat::from_u32(b, prec))
}

/// Relies on `astro_float::BigFloat::sin`: the sine, correctly rounded to
/// `prec` bits (ties to even), a pure function of the operand value; a failed
/// allocation of the constants cache yields the NaN variant.
#[verifier::external_body]
pub(crate) fn real_sin(a: &BigReal, prec: usize) -> (r: BigReal)
    ensures
        r@ == real_sine(a@, prec),
        wf_real(r@),
{
    match astro_float::Consts::new() {
        Ok(mut cc) => from_big(&to_big(a).sin(prec, astro_float::RoundingMode::ToEven, &mut cc)),
        Err(_) => BigReal::NaN,
    }
}

/// Relies on `astro_float::BigFloat::cos`: the cosine, correctly rounded to
/// `prec` bits (ties to even), a pure function of the operand value; a failed
/// allocation of the constants cache yields the NaN variant.
#[verifier::external_body]
pub(crate) fn real_cos(a: &BigReal, prec: usize) -> (r: BigReal)
    ensures
        r@ == real_cosine(a@, prec),
        wf_real(r@),
{
    match astro_float::Consts::new() {
        Ok(mut cc) => from_big(&to_big(a).cos(prec, astro_float::RoundingMode::ToEven, &mut cc)),
        Err(_) => BigReal::NaN,
    }
}

/// Relies on `astro_float::BigFloat::neg` (via `inv_sign`), which flips the
/// sign and leaves mantissa and exponent untouched, after the usual
/// round-trip through `from_raw_parts` (which rejects ill-formed parts as
/// NaN and stores a zero with exponent zero) and `as_raw_parts`: exactly
/// [`real_negated`] of the operand.
#[verifier::external_body]
pub(crate) fn real_neg(a: &BigReal) -> (r: BigReal)
    ensures
        r@ == real_negated(a@),
        wf_real(r@),
{
    from_big(&to_big(a).neg())
}

impl BigReal {
    /// A copy that provably carries the same representation.
    pub fn duplicate(&self) -> (r: BigReal)
        ensures
            r@ == self@,
    {
        match self {
            BigReal::Num { words, nbits, neg, exp } => {
                let mut w: Vec<u64> = Vec::new();
                let n = words.len();
                let mut i: usize = 0;
                while i < n
                    invariant
                        n == words@.len(),
                        i <= n,
                        w@ =~= words@.take(i as int),
                    decreases n - i,
                {
                    w.push(words[i]);
                    i = i + 1;
                }
                proof {
                    assert(w@ =~= words@);
                }
                BigReal::Num { words: w, nbits: *nbits, neg: *neg, exp: *exp }
            },
            BigReal::Inf { neg } => BigReal::Inf { neg: *neg },
            BigReal::NaN => BigReal::NaN,
        }
    }
}

/// Structural equality of two `BigReal` values, decided in verified code.
/// Equal representations always denote the same value.
pub fn real_eq(a: &BigReal, b: &BigReal) -> (r: bool)
    ensures
        r == (a@ == b@),
{
    match (a, b) {
        (
            BigReal::Num { words: wa, nbits: na, neg: sa, exp: ea },
            BigReal::Num { words: wb, nbits: nb, neg: sb, exp: eb },
        ) => {
            if *na != *nb || *sa != *sb || *ea != *eb || wa.len() != wb.len() {
                return false;
            }
            let n = wa.len();
            let mut i: usize = 0;
            while i < n
                invariant
                    n == wa@.len(),
                    n == wb@.len(),
                    i <= n,
                    forall|j: int| 0 <= j < i ==> wa@[j] == wb@[j],
                    a@ == (BigRealModel::Num {
                        words: wa@,
                        nbits: *na as int,
                        neg: *sa,
                        exp: *ea as int,
                    }),
                    b@ == (BigRealModel::Num {
                        words: wb@,
                        nbits: *nb as int,
                        neg: *sb,
                        exp: *eb as int,
                    }),
                decreases n - i,
            {
                if wa[i] != wb[i] {
                    proof {
                        assert(wa@[i as int] != wb@[i as int]);
                    }
                    return false;
                }
                i = i + 1;
            }
            proof {
                assert(wa@ =~= wb@);
            }
            true
        },
        (BigReal::Inf { neg: sa }, BigReal::Inf { neg: sb }) => *sa == *sb,
        (BigReal::NaN, BigReal::NaN) => true,
        _ => false,
    }
}

} // verus!
