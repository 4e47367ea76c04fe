//! Tone mapping: from raw visit counts to 16-bit luminance.
//!
//! The pipeline is exactly: log-compression with base 3/2 (zero counts kept
//! as the lowest compressed value), rank normalization over the distinct
//! compressed values, scaling of the ranks to `[0, 65535]` with rounding,
//! and inversion, so that rarely visited background renders near-white and
//! dense attractor structure near-black.
//!
//! The compression step computes `floor(log_{3/2}(v))` exactly for every
//! `u64`: `k` is the answer precisely when `3^k <= v * 2^k` and
//! `3^(k+1) > v * 2^(k+1)`. The comparisons run in verified 192-bit
//! arithmetic, so no approximation is involved.

use vstd::prelude::*;
use crate::histogram::Histogram;
use vstd::arithmetic::power::{pow, lemma_pow_adds, lemma_pow_positive, lemma_pow1};
use vstd::arithmetic::power2::{pow2, lemma_pow2, lemma_pow2_adds, lemma2_to64, lemma2_to64_rest};

verus! {

/// A 192-bit unsigned value: `lo + 2^64 * mid + 2^128 * hi`.
struct Wide {
    lo: u64,
    mid: u64,
    hi: u64,
}

/// The integer a [`Wide`] denotes.
spec fn wide_val(w: Wide) -> int {
    w.lo + pow2(64) * w.mid + pow2(128) * w.hi
}

/// The base powers the 192-bit proofs turn on.
proof fn lemma_bases()
    ensures
        pow2(64) == 0x10000000000000000,
        pow2(128) == pow2(64) * pow2(64),
        pow2(192) == pow2(128) * pow2(64),
{
    lemma2_to64_rest();
    lemma_pow2_adds(64, 64);
    lemma_pow2_adds(128, 64);
}

proof fn lemma_wide_val_bounds(w: Wide)
    ensures
        0 <= wide_val(w) < pow2(192),
{
    lemma_bases();
    let b = pow2(64) as int;
    let b2 = pow2(128) as int;
    let b3 = pow2(192) as int;
    assert(0 <= wide_val(w) && wide_val(w) < b3) by (nonlinear_arith)
        requires
            wide_val(w) == w.lo + b * w.mid + b2 * w.hi,
            0 <= w.lo < b,
            0 <= w.mid < b,
            0 <= w.hi < b,
            b2 == b * b,
            b3 == b2 * b,
            b == 0x10000000000000000,
    ;
}

/// Multiplies a 192-bit value by a small factor, exactly.
fn wide_mul_small(w: &Wide, c: u64) -> (r: Wide)
    requires
        1 <= c <= 3,
        wide_val(*w) * c < pow2(192),
    ensures
        wide_val(r) == wide_val(*w) * c,
{
    proof {
        assert((w.lo as int) * (c as int) <= 0xffffffffffffffffint * 3) by (nonlinear_arith)
            requires
                w.lo <= 0xffffffffffffffff,
                0 <= c <= 3,
        ;
    }
    let t0: u128 = (w.lo as u128) * (c as u128);
    let lo: u64 = (t0 % 0x10000000000000000u128) as u64;
    let carry0: u64 = (t0 / 0x10000000000000000u128) as u64;
    proof {
        assert((w.mid as int) * (c as int) <= 0xffffffffffffffffint * 3) by (nonlinear_arith)
            requires
                w.mid <= 0xffffffffffffffff,
                0 <= c <= 3,
        ;
    }
    let t1: u128 = (w.mid as u128) * (c as u128) + (carry0 as u128);
    let mid: u64 = (t1 % 0x10000000000000000u128) as u64;
    let carry1: u64 = (t1 / 0x10000000000000000u128) as u64;
    proof {
        assert((w.hi as int) * (c as int) <= 0xffffffffffffffffint * 3) by (nonlinear_arith)
            requires
                w.hi <= 0xffffffffffffffff,
                0 <= c <= 3,
        ;
    }
    let t2: u128 = (w.hi as u128) * (c as u128) + (carry1 as u128);
    proof {
        lemma_bases();
        let b: int = pow2(64) as int;
        let b2: int = pow2(128) as int;
        let b3: int = pow2(192) as int;
        let v = wide_val(*w);
        assert(t0 as int == w.lo * c && t0 as int == lo + b * carry0 && t1 as int == w.mid * c
            + carry0 && t1 as int == mid + b * carry1);
        assert(v * c == lo + b * mid + b2 * (t2 as int)) by (nonlinear_arith)
            requires
                v == w.lo + b * w.mid + b2 * w.hi,
                w.lo * c == lo + b * carry0,
                w.mid * c + carry0 == mid + b * carry1,
                t2 as int == w.hi * c + carry1,
                b2 == b * b,
        ;
        assert((t2 as int) < b) by (nonlinear_arith)
            requires
                v * c == lo + b * mid + b2 * (t2 as int),
                v * c < b3,
                b3 == b2 * b,
                0 <= lo < b,
                0 <= mid < b,
                b >= 1,
                b2 >= 1,
                (t2 as int) >= 0,
        ;
        assert((t2 as int) < 0x10000000000000000);
    }
    let hi: u64 = t2 as u64;
    Wide { lo, mid, hi }
}

/// Compares two 192-bit values.
fn wide_le(a: &Wide, b: &Wide) -> (r: bool)
    ensures
        r == (wide_val(*a) <= wide_val(*b)),
{
    proof {
        lemma_bases();
        let base: int = pow2(64) as int;
        let b2: int = pow2(128) as int;
        if a.hi != b.hi {
            assert((a.hi < b.hi ==> wide_val(*a) < wide_val(*b)) && (b.hi < a.hi ==> wide_val(*b)
                < wide_val(*a))) by (nonlinear_arith)
                requires
                    wide_val(*a) == a.lo + base * a.mid + b2 * a.hi,
                    wide_val(*b) == b.lo + base * b.mid + b2 * b.hi,
                    0 <= a.lo < base,
                    0 <= b.lo < base,
                    0 <= a.mid < base,
                    0 <= b.mid < base,
                    b2 == base * base,
            ;
        } else if a.mid != b.mid {
            assert((a.mid < b.mid ==> wide_val(*a) < wide_val(*b)) && (b.mid < a.mid ==> wide_val(
                *b) < wide_val(*a))) by (nonlinear_arith)
                requires
                    wide_val(*a) == a.lo + base * a.mid + b2 * a.hi,
                    wide_val(*b) == b.lo + base * b.mid + b2 * b.hi,
                    a.hi == b.hi,
                    0 <= a.lo < base,
                    0 <= b.lo < base,
                    b2 == base * base,
            ;
        }
    }
    if a.hi != b.hi {
        a.hi < b.hi
    } else if a.mid != b.mid {
        a.mid < b.mid
    } else {
        a.lo <= b.lo
    }
}

/// `k` is the floor of the base-3/2 logarithm of `v`:
/// `(3/2)^k <= v < (3/2)^(k+1)`, written over integers.
pub open spec fn is_log_floor_3_2(v: int, k: nat) -> bool {
    pow(3, k) <= v * pow(2, k) && pow(3, k + 1) > v * pow(2, k + 1)
}

/// The condition `(3/2)^k <= v` is downward closed in `k`.
proof fn lemma_cond_step_down(v: int, k: nat)
    requires
        v >= 0,
        k >= 1,
        pow(3, k) <= v * pow(2, k),
    ensures
        pow(3, (k - 1) as nat) <= v * pow(2, (k - 1) as nat),
{
    let k1 = (k - 1) as nat;
    lemma_pow1(3);
    lemma_pow1(2);
    lemma_pow_adds(3, 1, k1);
    lemma_pow_adds(2, 1, k1);
    assert(pow(3, k) == 3 * pow(3, k1));
    assert(pow(2, k) == 2 * pow(2, k1));
    lemma_pow_positive(3, k1);
    lemma_pow_positive(2, k1);
    assert(pow(3, k1) <= v * pow(2, k1)) by (nonlinear_arith)
        requires
            3 * pow(3, k1) <= v * (2 * pow(2, k1)),
            pow(3, k1) > 0,
            pow(2, k1) > 0,
            v >= 0,
    ;
}

proof fn lemma_cond_monotone(v: int, j: nat, k: nat)
    requires
        v >= 0,
        j <= k,
        pow(3, k) <= v * pow(2, k),
    ensures
        pow(3, j) <= v * pow(2, j),
    decreases k - j,
{
    if j < k {
        lemma_cond_step_down(v, k);
        lemma_cond_monotone(v, j, (k - 1) as nat);
    }
}

/// The floor of the base-3/2 logarithm is unique.
pub proof fn lemma_log_floor_unique(v: int, k1: nat, k2: nat)
    requires
        v >= 1,
        is_log_floor_3_2(v, k1),
        is_log_floor_3_2(v, k2),
    ensures
        k1 == k2,
{
    if k1 < k2 {
        lemma_cond_monotone(v, k1 + 1, k2);
    } else if k2 < k1 {
        lemma_cond_monotone(v, k2 + 1, k1);
    }
}

/// `3^55` exceeds `2^87`, by a squaring ladder of word-sized constants.
proof fn lemma_pow3_55()
    ensures
        pow(3, 55) > pow(2, 87),
{
    lemma_pow1(3);
    lemma_pow_adds(3, 1, 1);
    assert(pow(3, 2) == 9);
    lemma_pow_adds(3, 2, 2);
    assert(pow(3, 4) == 81);
    lemma_pow_adds(3, 4, 4);
    assert(pow(3, 8) == 6561);
    lemma_pow_adds(3, 8, 8);
    assert(pow(3, 16) == 43046721);
    lemma_pow_adds(3, 16, 16);
    assert(pow(3, 32) == 1853020188851841);
    lemma_pow_adds(3, 32, 16);
    assert(pow(3, 48) == 79766443076872509863361);
    lemma_pow_adds(3, 48, 4);
    assert(pow(3, 52) == 6461081889226673298932241);
    lemma_pow_adds(3, 52, 2);
    assert(pow(3, 54) == 58149737003040059690390169);
    lemma_pow_adds(3, 54, 1);
    assert(pow(3, 55) == 174449211009120179071170507);
    lemma2_to64_rest();
    lemma_pow2_adds(64, 23);
    lemma2_to64();
    lemma_pow2(87);
    assert(pow(2, 87) == 0x8000000000000000000000);
}

/// `3^110` exceeds `2^174`: squaring the previous bound.
proof fn lemma_pow3_110_beats()
    ensures
        pow(3, 110) > pow(2, 174),
{
    lemma_pow3_55();
    lemma_pow_adds(3, 55, 55);
    lemma_pow_adds(2, 87, 87);
    lemma_pow_positive(2, 87);
    assert(pow(3, 55) * pow(3, 55) > pow(2, 87) * pow(2, 87)) by (nonlinear_arith)
        requires
            pow(3, 55) > pow(2, 87),
            pow(2, 87) > 0,
    ;
}

/// For `k >= 110`, `3^k` outgrows `2^(k+64)`: the floor log of any `u64` is
/// at most 109.
proof fn lemma_pow3_beats(k: nat)
    requires
        k >= 110,
    ensures
        pow(3, k) > pow(2, (k + 64) as nat),
    decreases k,
{
    if k == 110 {
        lemma_pow3_110_beats();
    } else {
        lemma_pow3_beats((k - 1) as nat);
        lemma_pow1(3);
        lemma_pow1(2);
        lemma_pow_adds(3, 1, (k - 1) as nat);
        lemma_pow_adds(2, 1, (k + 63) as nat);
        assert(pow(3, k) == 3 * pow(3, (k - 1) as nat));
        assert(pow(2, (k + 64) as nat) == 2 * pow(2, (k + 63) as nat));
        lemma_pow_positive(2, (k + 63) as nat);
        assert(3 * pow(3, (k - 1) as nat) > 2 * pow(2, (k + 63) as nat)) by (nonlinear_arith)
            requires
                pow(3, (k - 1) as nat) > pow(2, (k + 63) as nat),
                pow(2, (k + 63) as nat) > 0,
        ;
    }
}

/// If `(3/2)^k <= v` for a `u64` value `v`, then `k <= 109`.
proof fn lemma_log_floor_bound(v: int, k: nat)
    requires
        1 <= v < 0x10000000000000000,
        pow(3, k) <= v * pow(2, k),
    ensures
        k <= 109,
{
    if k >= 110 {
        lemma_pow3_beats(k);
        lemma_pow_adds(2, 64, k);
        lemma2_to64_rest();
        lemma_pow2(64);
        lemma_pow_positive(2, k);
        assert(pow(2, 64) == 0x10000000000000000);
        assert(v * pow(2, k) < 0x10000000000000000 * pow(2, k)) by (nonlinear_arith)
            requires
                v < 0x10000000000000000,
                pow(2, k) > 0,
        ;
        lemma_pow_positive(2, k);
        assert(pow(3, k) > pow(2, (k + 64) as nat));
        assert(false);
    }
}

/// Computes `floor(log_{3/2}(v))` exactly.
pub fn log_floor_3_2(v: u64) -> (k: u32)
    requires
        v >= 1,
    ensures
        is_log_floor_3_2(v as int, k as nat),
        k <= 109,
{
    let mut k: u32 = 0;
    // a holds 3^(k+1), b holds v * 2^(k+1).
    proof {
        lemma_bases();
        lemma_pow1(3);
        lemma_pow1(2);
        vstd::arithmetic::power::lemma_pow0(3);
        vstd::arithmetic::power::lemma_pow0(2);
        let w3 = Wide { lo: 3, mid: 0, hi: 0 };
        let wv = Wide { lo: v, mid: 0, hi: 0 };
        assert(wide_val(w3) == 3 && wide_val(wv) == v) by (nonlinear_arith)
            requires
                wide_val(w3) == w3.lo + pow2(64) * w3.mid + pow2(128) * w3.hi,
                wide_val(wv) == wv.lo + pow2(64) * wv.mid + pow2(128) * wv.hi,
                w3.lo == 3 && w3.mid == 0 && w3.hi == 0,
                wv.lo == v && wv.mid == 0 && wv.hi == 0,
        ;
        lemma_wide_val_bounds(wv);
        assert((v as int) * 2 < pow2(192)) by (nonlinear_arith)
            requires
                v < 0x10000000000000000,
                pow2(192) == (0x10000000000000000int * 0x10000000000000000int)
                    * 0x10000000000000000int,
        ;
    }
    let mut a = Wide { lo: 3, mid: 0, hi: 0 };
    let mut bw = wide_mul_small(&Wide { lo: v, mid: 0, hi: 0 }, 2);
    loop
        invariant
            1 <= v < 0x10000000000000000,
            k <= 109,
            wide_val(a) == pow(3, (k + 1) as nat),
            wide_val(bw) == v * pow(2, (k + 1) as nat),
            pow(3, k as nat) <= v * pow(2, k as nat),
        ensures
            is_log_floor_3_2(v as int, k as nat),
            k <= 109,
        decreases 110 - k,
    {
        if !wide_le(&a, &bw) {
            break;
        }
        proof {
            lemma_log_floor_bound(v as int, (k + 1) as nat);
            lemma_wide_val_bounds(a);
            lemma_wide_val_bounds(bw);
            lemma_bases();
            // 3^(k+2) <= 3 * v * 2^(k+1) < 3 * 2^64 * 2^110 < 2^192.
            assert(pow(2, (k + 1) as nat) <= pow2(110)) by {
                if ((k + 1) as nat) < 110 {
                    vstd::arithmetic::power::lemma_pow_increases(2, (k + 1) as nat, 110);
                }
                lemma_pow2(110);
                lemma_pow2((k + 1) as nat);
            }
            lemma_pow_positive(2, (k + 1) as nat);
            vstd::arithmetic::power2::lemma_pow2_pos(110);
            assert(pow2(110) * pow2(64) * 4 <= pow2(192)) by {
                lemma_pow2_adds(110, 64);
                lemma_pow2_adds(174, 2);
                lemma_pow2_adds(174, 18);
                lemma_pow2(2);
                lemma2_to64();
                assert(pow2(174) * 4 == pow2(176));
                vstd::arithmetic::power2::lemma_pow2_strictly_increases(176, 192);
            }
            assert(wide_val(bw) * 3 < pow2(192)) by (nonlinear_arith)
                requires
                    wide_val(bw) == v * pow(2, (k + 1) as nat),
                    1 <= v < 0x10000000000000000,
                    pow2(64) == 0x10000000000000000,
                    0 < pow(2, (k + 1) as nat) <= pow2(110),
                    pow2(110) * pow2(64) * 4 <= pow2(192),
                    pow2(110) >= 1,
            ;
            assert(wide_val(a) * 3 <= wide_val(bw) * 3) by (nonlinear_arith)
                requires
                    wide_val(a) <= wide_val(bw),
            ;
            assert(wide_val(bw) * 2 <= wide_val(bw) * 3) by (nonlinear_arith)
                requires
                    wide_val(bw) >= 0,
            ;
            lemma_pow1(3);
            lemma_pow1(2);
            lemma_pow_adds(3, 1, (k + 1) as nat);
            lemma_pow_adds(2, 1, (k + 1) as nat);
            assert(pow(3, (k + 2) as nat) == 3 * pow(3, (k + 1) as nat));
            assert(pow(2, (k + 2) as nat) == 2 * pow(2, (k + 1) as nat));
            assert((v * pow(2, (k + 1) as nat)) * 2 == v * (2 * pow(2, (k + 1) as nat)))
                by (nonlinear_arith);
            assert(pow(3, (k + 1) as nat) * 3 == 3 * pow(3, (k + 1) as nat)) by (nonlinear_arith);
        }
        k = k + 1;
        a = wide_mul_small(&a, 3);
        bw = wide_mul_small(&bw, 2);
    }
    proof {
        lemma_pow_positive(2, (k + 1) as nat);
    }
    k
}

/// The compressed value of one histogram cell: `0` for an empty cell, else
/// `floor(log_{3/2}(v))`. An empty cell thus shares the lowest compressed
/// value with a once-visited cell: neither carries ink of its own.
pub open spec fn compress_spec(v: u64) -> u64 {
    if v == 0 {
        0
    } else {
        (choose|k: nat| is_log_floor_3_2(v as int, k)) as u64
    }
}

/// Compresses one cell.
pub fn compress_cell(v: u64) -> (r: u64)
    ensures
        r == compress_spec(v),
        r <= 109,
{
    if v == 0 {
        0
    } else {
        let k = log_floor_3_2(v);
        proof {
            let kk = choose|k2: nat| is_log_floor_3_2(v as int, k2);
            assert(is_log_floor_3_2(v as int, k as nat));
            assert(is_log_floor_3_2(v as int, kk));
            lemma_log_floor_unique(v as int, k as nat, kk);
        }
        k as u64
    }
}

/// Number of distinct values strictly below `v` that occur in `s`. For
/// values of `s` below 110 (every compressed value is at most 109), this is
/// the 0-based position of `v` in the ascending list of distinct values of
/// `s`: its rank.
pub open spec fn count_below(s: Seq<u64>, v: int) -> nat
    decreases v,
{
    if v <= 0 {
        0
    } else {
        count_below(s, v - 1) + if s.contains((v - 1) as u64) {
            1nat
        } else {
            0nat
        }
    }
}

/// The rank of compressed value `v` among the distinct values of `s`.
pub open spec fn rank_spec(s: Seq<u64>, v: u64) -> nat {
    count_below(s, v as int)
}

/// The number of distinct compressed values present in `s`.
pub open spec fn distinct_count(s: Seq<u64>) -> nat {
    count_below(s, 110)
}

/// The highest rank present: one less than the number of distinct values.
pub open spec fn max_rank_spec(s: Seq<u64>) -> nat {
    if distinct_count(s) == 0 {
        0
    } else {
        (distinct_count(s) - 1) as nat
    }
}

/// One output pixel: `round(rank * 65535 / maxr)` clamped to `[0, 65535]`,
/// then inverted; a degenerate image with a single distinct value maps to
/// full white.
pub open spec fn tone_pixel_spec(rank: nat, maxr: nat) -> nat {
    if maxr == 0 {
        65535
    } else {
        let scaled = (2 * rank * 65535 + maxr) / (2 * maxr);
        let clamped = if scaled > 65535 {
            65535nat
        } else {
            scaled
        };
        (65535 - clamped) as nat
    }
}

/// The compressed image of a histogram.
pub open spec fn compress_seq(counts: Seq<u64>) -> Seq<u64> {
    counts.map_values(|v: u64| compress_spec(v))
}

/// The final luminance of cell `i`: compress, rank, scale with rounding,
/// invert.
pub open spec fn pixel_spec(counts: Seq<u64>, i: int) -> nat {
    let c = compress_seq(counts);
    tone_pixel_spec(rank_spec(c, c[i]), max_rank_spec(c))
}

pub proof fn lemma_count_below_mono(s: Seq<u64>, v1: int, v2: int)
    requires
        v1 <= v2,
    ensures
        count_below(s, v1) <= count_below(s, v2),
    decreases v2 - v1,
{
    if v1 < v2 {
        lemma_count_below_mono(s, v1, v2 - 1);
    }
}

pub proof fn lemma_count_below_le(s: Seq<u64>, v: int)
    ensures
        count_below(s, v) <= if v <= 0 {
            0int
        } else {
            v
        },
    decreases v,
{
    if v > 0 {
        lemma_count_below_le(s, v - 1);
    }
}

/// A value present in `s` has a rank strictly below the distinct count.
pub proof fn lemma_rank_lt_distinct(s: Seq<u64>, u: u64)
    requires
        s.contains(u),
        u < 110,
    ensures
        rank_spec(s, u) < distinct_count(s),
{
    assert(count_below(s, u as int + 1) == count_below(s, u as int) + 1);
    lemma_count_below_mono(s, u as int + 1, 110);
}

/// Every rank below the distinct count is attained by some present value
/// below `v`.
proof fn lemma_rank_attained(s: Seq<u64>, j: nat, v: int)
    requires
        v <= 110,
        j < count_below(s, v),
    ensures
        exists|u: u64|
            (u as int) < v && s.contains(u) && #[trigger] count_below(s, u as int) == j,
    decreases v,
{
    if v > 0 {
        if j < count_below(s, v - 1) {
            lemma_rank_attained(s, j, v - 1);
            let u = choose|u: u64|
                (u as int) < v - 1 && s.contains(u) && #[trigger] count_below(s, u as int) == j;
            assert((u as int) < v && s.contains(u) && count_below(s, u as int) == j);
        } else {
            assert(s.contains((v - 1) as u64) && count_below(s, v - 1) == j);
            let u = (v - 1) as u64;
            assert((u as int) < v && s.contains(u) && count_below(s, u as int) == j);
        }
    }
}

/// If `s` contains exactly the values `0 ..= m`, the rank of each value is
/// the value itself.
pub proof fn lemma_count_below_contiguous(s: Seq<u64>, m: int, v: int)
    requires
        0 <= m < 110,
        forall|u: u64| #[trigger] s.contains(u) <==> (u as int) <= m,
        0 <= v <= m + 1,
    ensures
        count_below(s, v) == v,
    decreases v,
{
    if v > 0 {
        lemma_count_below_contiguous(s, m, v - 1);
        assert(s.contains((v - 1) as u64));
    }
}

/// Rank normalization is idempotent: the sequence of ranks of an already
/// rank-normalized sequence is that sequence itself. `ranks(s)[i]` is the
/// rank of `s[i]`; applied to `ranks(s)` once more it changes nothing.
pub proof fn lemma_rank_idempotent(s: Seq<u64>, i: int)
    requires
        0 <= i < s.len(),
        forall|j: int| 0 <= j < s.len() ==> #[trigger] s[j] <= 109,
    ensures
        ({
            let r = Seq::new(s.len(), |j: int| rank_spec(s, s[j]) as u64);
            rank_spec(r, r[i]) == r[i]
        }),
{
    let r = Seq::new(s.len(), |j: int| rank_spec(s, s[j]) as u64);
    let d = distinct_count(s);
    assert(s.contains(s[i]));
    lemma_rank_lt_distinct(s, s[i]);
    lemma_count_below_le(s, 110);
    // The ranks present are exactly 0 ..= d - 1.
    assert forall|u: u64| #[trigger] r.contains(u) implies (u as int) <= d - 1 by {
        let j = choose|j: int| 0 <= j < r.len() && r[j] == u;
        assert(s.contains(s[j]));
        lemma_rank_lt_distinct(s, s[j]);
    }
    assert forall|u: u64| (u as int) <= d - 1 implies #[trigger] r.contains(u) by {
        lemma_rank_attained(s, u as nat, 110);
        let w = choose|w: u64|
            (w as int) < 110 && s.contains(w) && #[trigger] count_below(s, w as int) == u as nat;
        let j = choose|j: int| 0 <= j < s.len() && s[j] == w;
        assert(r[j] == u);
    }
    lemma_count_below_contiguous(r, d - 1, r[i] as int + 1);
    assert(count_below(r, r[i] as int + 1) == r[i] as int + 1);
    lemma_count_below_contiguous(r, d - 1, r[i] as int);
}

/// Replaces each compressed value by its 0-based rank among the distinct
/// compressed values present, in ascending order, and also yields the number
/// of distinct values present.
pub fn rank_normalize(c: &Vec<u64>) -> (out: (Vec<u64>, u64))
    requires
        forall|i: int| 0 <= i < c@.len() ==> c@[i] <= 109,
    ensures
        out.0@.len() == c@.len(),
        forall|i: int| 0 <= i < c@.len() ==> out.0@[i] as nat == rank_spec(c@, c@[i]),
        out.1 as nat == distinct_count(c@),
{
    let n = c.len();
    let mut present: Vec<bool> = Vec::new();
    let mut z: usize = 0;
    while z < 110
        invariant
            z <= 110,
            present@.len() == z,
            forall|u: int| 0 <= u < z ==> !present@[u],
        decreases 110 - z,
    {
        present.push(false);
        z = z + 1;
    }
    let mut i: usize = 0;
    while i < n
        invariant
            i <= n,
            n == c@.len(),
            present@.len() == 110,
            forall|j: int| 0 <= j < n ==> c@[j] <= 109,
            forall|u: int|
                0 <= u < 110 ==> (#[trigger] present@[u] <==> exists|j: int|
                    0 <= j < i && c@[j] == u),
        decreases n - i,
    {
        let v = c[i];
        let ghost present0 = present@;
        if !present[v as usize] {
            present.set(v as usize, true);
        }
        proof {
            assert forall|u: int|
                0 <= u < 110 implies (#[trigger] present@[u] <==> exists|j: int|
                0 <= j < i + 1 && c@[j] == u) by {
                if u == v as int {
                    assert(c@[i as int] == u as u64);
                    assert(exists|j: int| 0 <= j < i + 1 && c@[j] == u);
                } else {
                    assert(present@[u] == present0[u]);
                    if exists|j: int| 0 <= j < i + 1 && c@[j] == u {
                        let j = choose|j: int| 0 <= j < i + 1 && c@[j] == u;
                        assert(j < i || j == i);
                        if j == i {
                            assert(false);
                        }
                    }
                }
            }
        }
        i = i + 1;
    }
    proof {
        assert forall|u: u64| u < 110 implies (present@[u as int] <==> c@.contains(u)) by {
            if c@.contains(u) {
                let j = choose|j: int| 0 <= j < c@.len() && c@[j] == u;
                assert(exists|jj: int| 0 <= jj < n && c@[jj] == u as int);
            }
            if present@[u as int] {
                let j = choose|j: int| 0 <= j < n && c@[j] == u as int;
                assert(c@.contains(u));
            }
        }
    }

    let mut table: Vec<u64> = Vec::new();
    let mut running: u64 = 0;
    let mut v: usize = 0;
    while v < 110
        invariant
            v <= 110,
            table@.len() == v,
            present@.len() == 110,
            running as nat == count_below(c@, v as int),
            running <= 110,
            forall|u: int| 0 <= u < v ==> #[trigger] table@[u] as nat == count_below(c@, u),
            forall|u: u64| u < 110 ==> (present@[u as int] <==> c@.contains(u)),
        decreases 110 - v,
    {
        table.push(running);
        proof {
            lemma_count_below_le(c@, v as int + 1);
            assert(count_below(c@, v as int + 1) == count_below(c@, v as int) + if c@.contains(
                v as u64,
            ) {
                1nat
            } else {
                0nat
            });
        }
        if present[v] {
            running = running + 1;
        }
        v = v + 1;
    }

    let mut out: Vec<u64> = Vec::new();
    let mut i2: usize = 0;
    while i2 < n
        invariant
            i2 <= n,
            n == c@.len(),
            table@.len() == 110,
            out@.len() == i2,
            forall|j: int| 0 <= j < n ==> c@[j] <= 109,
            forall|u: int| 0 <= u < 110 ==> #[trigger] table@[u] as nat == count_below(c@, u),
            forall|j: int| 0 <= j < i2 ==> #[trigger] out@[j] as nat == rank_spec(c@, c@[j]),
        decreases n - i2,
    {
        let cv = c[i2];
        out.push(table[cv as usize]);
        i2 = i2 + 1;
    }
    (out, running)
}

/// Some `k` is the floor log of every positive value.
proof fn lemma_log_floor_exists(v: int, k: nat)
    requires
        1 <= v < 0x10000000000000000,
        k < 110,
        pow(3, k) <= v * pow(2, k),
    ensures
        exists|j: nat| is_log_floor_3_2(v, j),
    decreases 110 - k,
{
    if pow(3, k + 1) > v * pow(2, k + 1) {
        assert(is_log_floor_3_2(v, k));
    } else {
        lemma_log_floor_bound(v, (k + 1) as nat);
        lemma_log_floor_exists(v, k + 1);
    }
}

/// Compression is monotone: more visits never compress lower.
pub proof fn lemma_compress_monotone(v1: u64, v2: u64)
    requires
        v1 <= v2,
    ensures
        compress_spec(v1) <= compress_spec(v2),
{
    if v1 == 0 {
        // compress_spec(v1) == 0.
    } else {
        lemma_pow1(3);
        lemma_pow1(2);
        vstd::arithmetic::power::lemma_pow0(3);
        vstd::arithmetic::power::lemma_pow0(2);
        lemma_log_floor_exists(v1 as int, 0);
        lemma_log_floor_exists(v2 as int, 0);
        let k1 = choose|k: nat| is_log_floor_3_2(v1 as int, k);
        let k2 = choose|k: nat| is_log_floor_3_2(v2 as int, k);
        if k1 > k2 {
            // (3/2)^k1 <= v1 <= v2 contradicts k2 being the floor log of v2.
            assert(pow(3, k1) <= v1 * pow(2, k1));
            lemma_pow_positive(2, k1);
            assert(v1 * pow(2, k1) <= v2 * pow(2, k1)) by (nonlinear_arith)
                requires
                    v1 <= v2,
                    pow(2, k1) > 0,
            ;
            lemma_cond_monotone(v2 as int, k2 + 1, k1);
            assert(false);
        }
        lemma_log_floor_bound(v1 as int, k1);
        lemma_log_floor_bound(v2 as int, k2);
    }
}

/// The output of the tone curve is anti-monotone in the rank: a higher rank
/// gives an equal or darker pixel.
pub proof fn lemma_tone_pixel_antimonotone(r1: nat, r2: nat, maxr: nat)
    requires
        r1 <= r2,
    ensures
        tone_pixel_spec(r2, maxr) <= tone_pixel_spec(r1, maxr),
{
    if maxr != 0 {
        vstd::arithmetic::div_mod::lemma_div_is_ordered(
            (2 * r1 * 65535 + maxr) as int,
            (2 * r2 * 65535 + maxr) as int,
            (2 * maxr) as int,
        );
    }
}

/// The inversion convention: a cell visited at least as often as another
/// renders at most as bright. Unvisited background is the brightest of all.
pub proof fn lemma_darker_with_more_visits(counts: Seq<u64>, i: int, j: int)
    requires
        0 <= i < counts.len(),
        0 <= j < counts.len(),
        counts[i] <= counts[j],
    ensures
        pixel_spec(counts, j) <= pixel_spec(counts, i),
{
    let c = compress_seq(counts);
    assert(c[i] == compress_spec(counts[i]));
    assert(c[j] == compress_spec(counts[j]));
    lemma_compress_monotone(counts[i], counts[j]);
    lemma_count_below_mono(c, c[i] as int, c[j] as int);
    lemma_tone_pixel_antimonotone(rank_spec(c, c[i]), rank_spec(c, c[j]), max_rank_spec(c));
}

proof fn lemma_count_single_zero(c: Seq<u64>, v: int)
    requires
        c.contains(0u64),
        forall|u: u64| 1 <= u ==> !c.contains(u),
        1 <= v <= 110,
    ensures
        count_below(c, v) == 1,
    decreases v,
{
    if v == 1 {
        assert(count_below(c, 1) == count_below(c, 0) + 1);
    } else {
        lemma_count_single_zero(c, v - 1);
        assert(!c.contains((v - 1) as u64));
    }
}

/// An all-zero histogram has a single compressed value, so its highest rank
/// is zero and every pixel of the output is full white.
pub proof fn lemma_all_zero_white(counts: Seq<u64>, i: int)
    requires
        0 <= i < counts.len(),
        forall|j: int| 0 <= j < counts.len() ==> counts[j] == 0,
    ensures
        pixel_spec(counts, i) == 65535,
{
    let c = compress_seq(counts);
    assert(c[i] == compress_spec(counts[i]));
    assert(c.contains(0u64)) by {
        assert(counts[i] == 0 && c[i] == 0u64);
    }
    assert forall|u: u64| 1 <= u implies !c.contains(u) by {
        if c.contains(u) {
            let j = choose|j: int| 0 <= j < c.len() && c[j] == u;
            assert(c[j] == compress_spec(counts[j]));
            assert(counts[j] == 0);
        }
    }
    lemma_count_single_zero(c, 110);
    assert(distinct_count(c) == 1);
    assert(max_rank_spec(c) == 0);
}

/// Maps a histogram to the final pixel buffer: log-compression, rank
/// normalization, scaling of the ranks to `[0, 65535]` with rounding, and
/// inversion. The buffer has exactly one entry per histogram cell.
pub fn tone_map(h: &Histogram) -> (img: Vec<u16>)
    ensures
        img@.len() == h.counts@.len(),
        forall|i: int| 0 <= i < img@.len() ==> img@[i] as nat == pixel_spec(h.counts@, i),
{
    let n = h.counts.len();
    let mut c: Vec<u64> = Vec::new();
    let mut i: usize = 0;
    while i < n
        invariant
            i <= n,
            n == h.counts@.len(),
            c@.len() == i,
            forall|j: int|
                0 <= j < i ==> #[trigger] c@[j] == compress_spec(h.counts@[j]) && c@[j] <= 109,
        decreases n - i,
    {
        c.push(compress_cell(h.counts[i]));
        i = i + 1;
    }
    proof {
        assert(c@ =~= compress_seq(h.counts@));
    }
    let (ranks, distinct) = rank_normalize(&c);
    if n == 0 {
        let out: Vec<u16> = Vec::new();
        return out;
    }
    proof {
        assert(c@.contains(c@[0]));
        lemma_rank_lt_distinct(c@, c@[0]);
    }
    let maxr: u64 = distinct - 1;
    let mut out: Vec<u16> = Vec::new();
    let mut i2: usize = 0;
    while i2 < n
        invariant
            i2 <= n,
            n == h.counts@.len(),
            out@.len() == i2,
            ranks@.len() == n,
            c@ == compress_seq(h.counts@),
            maxr as nat == max_rank_spec(c@),
            forall|j: int| 0 <= j < n ==> #[trigger] ranks@[j] as nat == rank_spec(c@, c@[j]),
            forall|j: int| 0 <= j < i2 ==> #[trigger] out@[j] as nat == pixel_spec(h.counts@, j),
        decreases n - i2,
    {
        let r = ranks[i2];
        let px: u16 = if maxr == 0 {
            65535
        } else {
            proof {
                assert(2 * (r as int) * 65535 + (maxr as int) <= 2 * 0xffffffffffffffffint * 65535
                    + 0xffffffffffffffffint) by (nonlinear_arith)
                    requires
                        r <= 0xffffffffffffffff,
                        maxr <= 0xffffffffffffffff,
                ;
            }
            let num: u128 = 2 * (r as u128) * 65535 + (maxr as u128);
            let den: u128 = 2 * (maxr as u128);
            let q: u128 = num / den;
            let clamped: u128 = if q > 65535 {
                65535
            } else {
                q
            };
            (65535 - clamped) as u16
        };
        proof {
            assert(px as nat == tone_pixel_spec(rank_spec(c@, c@[i2 as int]), maxr as nat));
        }
        out.push(px);
        i2 = i2 + 1;
    }
    out
}

} // verus!
