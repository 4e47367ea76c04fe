//! Mapping real-valued coordinates to integer pixel coordinates, and the
//! inclusion test that callers run before using a scaled coordinate as an
//! array index.

use vstd::prelude::*;

use crate::numeric::{
    is_zero_value,
    real_add,
    real_diff,
    real_div,
    real_from_u32,
    real_intpart,
    real_mul,
    real_of_u32,
    real_prod,
    real_quot,
    real_round,
    real_rounded,
    real_sub,
    real_sum,
    real_trunc,
    wf_real,
    BigReal,
    BigRealModel,
};
use crate::wordsum::{opt_val, real_int_value, real_to_i32};

verus! {

/// The value of the scaling formula
/// `b_min + trunc((b_max - b_min) * (x - a_min) / (a_max - a_min))`
/// at `prec` bits: every step correctly rounded, the truncation toward zero.
pub open spec fn scale_val(
    a_min: BigRealModel,
    a_max: BigRealModel,
    b_min: u32,
    b_max: u32,
    x: BigRealModel,
    prec: usize,
) -> BigRealModel {
    let width = real_diff(a_max, a_min, prec);
    let rel = real_quot(real_diff(x, a_min, prec), width, prec);
    let span = real_diff(real_of_u32(b_max, prec), real_of_u32(b_min, prec), prec);
    real_sum(real_intpart(real_prod(rel, span, prec)), real_of_u32(b_min, prec), prec)
}

/// The scaled pixel coordinate: the integer the scaling formula denotes, if
/// it is finite and fits an `i32`.
pub open spec fn scale_spec(
    a_min: BigRealModel,
    a_max: BigRealModel,
    b_min: u32,
    b_max: u32,
    x: BigRealModel,
    prec: usize,
) -> Option<int> {
    real_int_value(scale_val(a_min, a_max, b_min, b_max, x, prec))
}

/// Maps `x` from the real interval `[a_min, a_max]` to the integer range
/// `[b_min, b_max]`: `b_min + trunc((b_max - b_min) * (x - a_min) /
/// (a_max - a_min))`, truncated toward zero. No clamping is performed: an
/// input outside the interval scales to a coordinate outside the range, which
/// callers must reject with [`is_between`]. `None` when the formula has no
/// finite `i32` result, as with a degenerate interval `a_min == a_max`, a
/// non-finite input, or a result out of `i32` range. When `x` equals an
/// endpoint of a non-degenerate interval, the result is that endpoint's pixel
/// coordinate.
pub fn scale(
    a_min: &BigReal,
    a_max: &BigReal,
    b_min: u32,
    b_max: u32,
    x: &BigReal,
    prec: usize,
) -> (r: Option<i32>)
    ensures
        opt_val(r) == scale_spec(a_min@, a_max@, b_min, b_max, x@, prec),
        64 <= prec <= u32::MAX as usize && x@ == a_min@ && b_min <= i32::MAX as u32 && b_max
            <= i32::MAX as u32 ==> (r == Some(b_min as i32) || r == None::<i32>),
        64 <= prec <= u32::MAX as usize && x@ == a_max@ && b_min <= i32::MAX as u32 && b_max
            <= i32::MAX as u32 ==> (r == Some(b_max as i32) || r == None::<i32>),
        64 <= prec <= u32::MAX as usize && x@ == a_min@ && b_min <= i32::MAX as u32 && b_max
            <= i32::MAX as u32 && a_min@ is Num && wf_real(a_min@) && real_diff(
            a_max@,
            a_min@,
            prec,
        ) is Num && !is_zero_value(real_diff(a_max@, a_min@, prec)) ==> r == Some(b_min as i32),
        64 <= prec <= u32::MAX as usize && x@ == a_max@ && b_min <= i32::MAX as u32 && b_max
            <= i32::MAX as u32 && real_diff(a_max@, a_min@, prec) is Num && !is_zero_value(
            real_diff(a_max@, a_min@, prec),
        ) ==> r == Some(b_max as i32),
{
    let width = real_sub(a_max, a_min, prec);
    let offset = real_sub(x, a_min, prec);
    let rel = real_div(&offset, &width, prec);
    let top = real_from_u32(b_max, prec);
    let bottom = real_from_u32(b_min, prec);
    let span = real_sub(&top, &bottom, prec);
    let pos = real_trunc(&real_mul(&rel, &span, prec));
    let shifted = real_add(&pos, &bottom, prec);
    let r = real_to_i32(&shifted);
    proof {
        let ghost bounded = b_min <= i32::MAX as u32 && b_max <= i32::MAX as u32;
        if 64 <= prec <= u32::MAX as usize && bounded && (x@ == a_min@ || x@ == a_max@) {
            // The span of the output range is an exact small integer.
            assert(real_int_value(span@) == Some(b_max - b_min));
            if x@ == a_min@ {
                // x - a_min is an exact zero or NaN; either way the chain
                // ends on b_min or on no finite value at all.
                if offset@ is NaN {
                    assert(shifted@ is NaN);
                } else {
                    assert(real_int_value(offset@) == Some(0int));
                    if rel@ is NaN {
                        assert(shifted@ is NaN);
                    } else {
                        assert(real_int_value(rel@) == Some(0int));
                        assert(real_int_value(shifted@) == Some(b_min as int));
                    }
                }
            } else {
                // x - a_min and a_max - a_min are the same value, so their
                // quotient is an exact one or NaN.
                assert(offset@ == width@);
                if rel@ is NaN {
                    assert(shifted@ is NaN);
                } else {
                    assert(real_int_value(rel@) == Some(1int));
                    assert(real_int_value(shifted@) == Some(b_max as int));
                }
            }
            if r is Some {
                if x@ == a_min@ {
                    assert(r->0 as int == b_min as int);
                } else {
                    assert(r->0 as int == b_max as int);
                }
            }
            // With finite operands and a nonzero finite width, no step of
            // the chain can degenerate, and the endpoint value is definite.
            if width@ is Num && !is_zero_value(width@) {
                if x@ == a_min@ && a_min@ is Num && wf_real(a_min@) {
                    assert(real_int_value(offset@) == Some(0int));
                    assert(real_int_value(rel@) == Some(0int));
                    assert(real_int_value(shifted@) == Some(b_min as int));
                    assert(r is Some && r->0 as int == b_min as int);
                    assert(r == Some(b_min as i32));
                }
                if x@ == a_max@ {
                    assert(offset@ == width@);
                    assert(real_int_value(rel@) == Some(1int));
                    assert(real_int_value(shifted@) == Some(b_max as int));
                    assert(r is Some && r->0 as int == b_max as int);
                    assert(r == Some(b_max as i32));
                }
            }
        }
    }
    r
}

/// The value of `(hi - lo) * ppu` rounded to the nearest integer at `prec`
/// bits: the pixel extent a coordinate window spans at a pixel density.
pub open spec fn extent_val(
    lo: BigRealModel,
    hi: BigRealModel,
    ppu: BigRealModel,
    prec: usize,
) -> BigRealModel {
    real_rounded(real_prod(real_diff(hi, lo, prec), ppu, prec))
}

/// Derives one image dimension from a coordinate window and a pixel density:
/// `(hi - lo) * ppu`, rounded to the nearest integer, if that is finite and
/// fits an `i32`.
pub fn derive_extent(lo: &BigReal, hi: &BigReal, ppu: &BigReal, prec: usize) -> (r: Option<i32>)
    ensures
        opt_val(r) == real_int_value(extent_val(lo@, hi@, ppu@, prec)),
{
    let raw = real_round(&real_mul(&real_sub(hi, lo, prec), ppu, prec));
    real_to_i32(&raw)
}

/// Inclusive-on-both-ends bounds test. A scaled coordinate may fall outside
/// the pixel range (the map wanders outside the visible window); callers must
/// test it with `is_between` before indexing, and must not clamp it.
pub fn is_between(min: i32, max: i32, x: i32) -> (r: bool)
    ensures
        r == (min <= x && x <= max),
{
    (x >= min) && (x <= max)
}

} // verus!
