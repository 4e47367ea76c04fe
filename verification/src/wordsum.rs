//! Interpreting a mantissa as an integer.
//!
//! A finite [`crate::numeric::BigReal`] denotes
//! `(-1)^neg * wsum(words) * 2^(exp - 64*words.len())`, where [`wsum`] is the
//! value of the little-endian word sequence. This module proves enough about
//! `wsum` to read such a value back as an `i32` exactly: [`real_to_i32`]
//! returns `Some(v)` precisely when the representation denotes the integer
//! `v` and `v` fits in an `i32`.

use vstd::prelude::*;
use vstd::arithmetic::power2::{
    pow2,
    lemma_pow2_adds,
    lemma_pow2_pos,
    lemma_pow2_strictly_increases,
    lemma2_to64,
    lemma2_to64_rest,
};
use vstd::arithmetic::div_mod::{
    lemma_fundamental_div_mod_converse_div,
    lemma_fundamental_div_mod_converse_mod,
    lemma_fundamental_div_mod,
    lemma_small_mod,
};
use vstd::arithmetic::mul::{lemma_mul_inequality, lemma_mul_is_distributive_add};

use crate::numeric::BigRealModel;

verus! {

/// Value of a little-endian sequence of 64-bit words.
pub open spec fn wsum(s: Seq<u64>) -> int
    decreases s.len(),
{
    if s.len() == 0 {
        0
    } else {
        wsum(s.drop_last()) + s.last() * pow2((64 * (s.len() - 1)) as nat)
    }
}

pub proof fn lemma_wsum_bounds(s: Seq<u64>)
    ensures
        0 <= wsum(s) < pow2((64 * s.len()) as nat),
    decreases s.len(),
{
    if s.len() == 0 {
        lemma_pow2_pos(0);
    } else {
        let n = s.len() as int;
        let p = pow2((64 * (n - 1)) as nat);
        lemma_wsum_bounds(s.drop_last());
        lemma_pow2_pos((64 * (n - 1)) as nat);
        lemma_pow2_adds((64 * (n - 1)) as nat, 64);
        lemma2_to64_rest();
        assert(s.last() * p <= (0xffffffffffffffffu64) * p) by {
            lemma_mul_inequality(s.last() as int, 0xffffffffffffffff, p as int);
        }
        assert(wsum(s.drop_last()) + s.last() * p < p + 0xffffffffffffffff * p);
        assert(p + 0xffffffffffffffff * p == p * 0x10000000000000000) by (nonlinear_arith);
        assert(s.last() * p >= 0) by {
            lemma_mul_inequality(0, s.last() as int, p as int);
        }
    }
}

pub proof fn lemma_wsum_split(s: Seq<u64>, q: int)
    requires
        0 <= q <= s.len(),
    ensures
        wsum(s) == wsum(s.take(q)) + pow2((64 * q) as nat) * wsum(s.skip(q)),
    decreases s.len(),
{
    let n = s.len() as int;
    let pq = pow2((64 * q) as nat) as int;
    if q == n {
        assert(s.take(q) =~= s);
        assert(s.skip(q) =~= Seq::<u64>::empty());
        assert(wsum(s.skip(q)) == 0);
    } else {
        let dl = s.drop_last();
        lemma_wsum_split(dl, q);
        assert(s.take(q) =~= dl.take(q));
        assert(s.skip(q).drop_last() =~= dl.skip(q));
        assert(s.skip(q).last() == s.last());
        let hi = s.skip(q);
        assert(wsum(hi) == wsum(dl.skip(q)) + s.last() * pow2((64 * (n - q - 1)) as nat));
        lemma_pow2_adds((64 * q) as nat, (64 * (n - q - 1)) as nat);
        let pr = pow2((64 * (n - q - 1)) as nat) as int;
        assert(pq * wsum(hi) == pq * wsum(dl.skip(q)) + pq * (s.last() * pr)) by {
            lemma_mul_is_distributive_add(pq, wsum(dl.skip(q)), s.last() * pr);
        }
        assert(pq * (s.last() * pr) == s.last() * (pq * pr)) by (nonlinear_arith);
        assert(64 * q + 64 * (n - q - 1) == 64 * (n - 1)) by (nonlinear_arith);
    }
}

pub proof fn lemma_wsum_first(s: Seq<u64>)
    requires
        s.len() >= 1,
    ensures
        wsum(s) == s[0] + pow2(64) * wsum(s.skip(1)),
{
    lemma_wsum_split(s, 1);
    lemma2_to64();
    let t = s.take(1);
    assert(t.len() == 1);
    assert(t.drop_last() =~= Seq::<u64>::empty());
    assert(t.last() == s[0]);
    assert(wsum(t) == wsum(t.drop_last()) + t.last() * pow2((64 * (t.len() - 1)) as nat));
    assert(wsum(t.drop_last()) == 0);
    assert(wsum(t) == s[0] * pow2(0));
    assert(s[0] as int * 1int == s[0] as int) by (nonlinear_arith);
    assert(wsum(s) == wsum(t) + pow2((64 * 1) as nat) * wsum(s.skip(1)));
    assert((64 * 1) as nat == 64nat);
}

pub proof fn lemma_wsum_zero(s: Seq<u64>)
    requires
        forall|i: int| 0 <= i < s.len() ==> s[i] == 0,
    ensures
        wsum(s) == 0,
    decreases s.len(),
{
    if s.len() > 0 {
        lemma_wsum_zero(s.drop_last());
    }
}

pub proof fn lemma_wsum_lower(s: Seq<u64>, i: int)
    requires
        0 <= i < s.len(),
        s[i] >= 1,
    ensures
        wsum(s) >= pow2((64 * i) as nat),
{
    lemma_wsum_split(s, i);
    lemma_wsum_bounds(s.take(i));
    let hi = s.skip(i);
    lemma_wsum_first(hi);
    assert(hi[0] == s[i]);
    lemma_wsum_bounds(hi.skip(1));
    lemma_pow2_pos(64);
    let pq = pow2((64 * i) as nat) as int;
    assert(pow2(64) * wsum(hi.skip(1)) >= 0) by (nonlinear_arith)
        requires wsum(hi.skip(1)) >= 0;
    assert(wsum(hi) >= 1);
    lemma_pow2_pos((64 * i) as nat);
    assert(pq * wsum(hi) >= pq * 1) by {
        lemma_mul_inequality(1, wsum(hi), pq);
    }
    assert(wsum(s.take(i)) >= 0);
}

/// Whether a mathematical integer fits in an `i32`.
pub open spec fn fits_i32(v: int) -> bool {
    i32::MIN <= v <= i32::MAX
}

/// An `Option<i32>` read as an `Option<int>`.
pub open spec fn opt_val(res: Option<i32>) -> Option<int> {
    match res {
        Some(v) => Some(v as int),
        None => None,
    }
}

/// The integer denoted by finite raw parts, if the denoted value is an
/// integer in `i32` range: the parts denote
/// `(-1)^neg * wsum(words) * 2^(exp - 64*words.len())`.
pub open spec fn num_int_value(words: Seq<u64>, neg: bool, exp: int) -> Option<int> {
    let total = 64 * words.len() as int;
    let s = wsum(words);
    let sgn: int = if neg { -1 } else { 1 };
    if exp >= total {
        let mag = s * pow2((exp - total) as nat) as int;
        if fits_i32(sgn * mag) {
            Some(sgn * mag)
        } else {
            None
        }
    } else {
        let d = pow2((total - exp) as nat) as int;
        if s % d == 0 {
            let mag = s / d;
            if fits_i32(sgn * mag) {
                Some(sgn * mag)
            } else {
                None
            }
        } else {
            None
        }
    }
}

/// The integer a value denotes, if it is finite, integral and in `i32` range.
pub open spec fn real_int_value(m: BigRealModel) -> Option<int> {
    match m {
        BigRealModel::Num { words, nbits, neg, exp } => num_int_value(words, neg, exp),
        BigRealModel::Inf { neg } => None,
        BigRealModel::NaN => None,
    }
}

/// Computes `2^e` for `e <= 63`.
pub fn pow2_u64(e: u32) -> (r: u64)
    requires
        e <= 63,
    ensures
        r as int == pow2(e as nat) as int,
        r >= 1,
{
    let mut r: u64 = 1;
    let mut i: u32 = 0;
    proof {
        lemma2_to64();
    }
    while i < e
        invariant
            i <= e,
            e <= 63,
            r as int == pow2(i as nat) as int,
        decreases e - i,
    {
        proof {
            if (i as nat) < 63 {
                lemma_pow2_strictly_increases(i as nat, 63);
            }
            lemma2_to64_rest();
            lemma_pow2_adds(i as nat, 1);
            lemma2_to64();
        }
        r = r * 2;
        i = i + 1;
    }
    proof {
        lemma_pow2_pos(e as nat);
    }
    r
}

/// Computes `2^e` for `e <= 127`.
pub fn pow2_u128(e: u32) -> (r: u128)
    requires
        e <= 127,
    ensures
        r as int == pow2(e as nat) as int,
        r >= 1,
{
    let mut r: u128 = 1;
    let mut i: u32 = 0;
    proof {
        lemma2_to64();
    }
    while i < e
        invariant
            i <= e,
            e <= 127,
            r as int == pow2(i as nat) as int,
        decreases e - i,
    {
        proof {
            if (i as nat) < 127 {
                lemma_pow2_strictly_increases(i as nat, 127);
            }
            assert(pow2(127) == 0x80000000000000000000000000000000) by {
                lemma2_to64_rest();
                lemma_pow2_adds(64, 63);
            }
            lemma_pow2_adds(i as nat, 1);
            lemma2_to64();
        }
        r = r * 2;
        i = i + 1;
    }
    proof {
        lemma_pow2_pos(e as nat);
    }
    r
}

/// Splits `wsum(ws)` by the bit position `64*q + r`: quotient and remainder
/// of the word sum under division by `2^(64*q + r)`, in terms of the words
/// below `q`, word `q` itself, and the words above `q`.
proof fn lemma_split_qr(ws: Seq<u64>, q: int, r: int)
    requires
        0 <= q < ws.len(),
        0 <= r < 64,
    ensures
        ({
            let low = wsum(ws.take(q));
            let wq = ws[q] as int;
            let hi = wsum(ws.skip(q + 1));
            let p2r = pow2(r as nat) as int;
            let d = pow2((64 * q + r) as nat) as int;
            let rem = low + pow2((64 * q) as nat) * (wq % p2r);
            let quo = wq / p2r + pow2((64 - r) as nat) * hi;
            wsum(ws) == quo * d + rem && 0 <= rem < d && 0 <= quo && wsum(ws) % d == rem && wsum(
                ws,
            ) / d == quo
        }),
{
    let low = wsum(ws.take(q));
    let wq = ws[q] as int;
    let hi = wsum(ws.skip(q + 1));
    let p64q = pow2((64 * q) as nat) as int;
    let p2r = pow2(r as nat) as int;
    let p2c = pow2((64 - r) as nat) as int;
    let d = pow2((64 * q + r) as nat) as int;
    let rem = low + p64q * (wq % p2r);
    let quo = wq / p2r + p2c * hi;

    lemma_pow2_pos(r as nat);
    lemma_pow2_pos((64 * q) as nat);
    lemma_pow2_pos((64 - r) as nat);
    lemma_wsum_split(ws, q);
    lemma_wsum_first(ws.skip(q));
    assert(ws.skip(q)[0] == ws[q]);
    assert(ws.skip(q).skip(1) =~= ws.skip(q + 1));
    lemma_fundamental_div_mod(wq, p2r);
    lemma_pow2_adds(r as nat, (64 - r) as nat);
    lemma_pow2_adds((64 * q) as nat, r as nat);
    lemma_wsum_bounds(ws.take(q));
    assert(ws.take(q).len() == q);
    lemma_wsum_bounds(ws.skip(q + 1));
    assert(pow2(64) as int == p2r * p2c);
    assert(d == p64q * p2r);
    assert(wsum(ws) == low + p64q * (wq + p2r * p2c * hi));
    let m = wq % p2r;
    let u = wq / p2r;
    assert(p64q * (wq + p2r * p2c * hi) == p64q * wq + p64q * (p2r * p2c * hi)) by {
        lemma_mul_is_distributive_add(p64q, wq, p2r * p2c * hi);
    }
    assert(p64q * wq == p64q * (p2r * u) + p64q * m) by {
        lemma_mul_is_distributive_add(p64q, p2r * u, m);
    }
    assert(p64q * (p2r * u) == d * u) by (nonlinear_arith)
        requires
            d == p64q * p2r,
    ;
    assert(p64q * (p2r * p2c * hi) == d * (p2c * hi)) by (nonlinear_arith)
        requires
            d == p64q * p2r,
    ;
    assert(quo * d == d * u + d * (p2c * hi)) by {
        lemma_mul_is_distributive_add(d, u, p2c * hi);
        assert(quo * d == d * quo) by (nonlinear_arith);
    }
    assert(wsum(ws) == quo * d + rem);
    assert(0 <= wq % p2r < p2r);
    assert(rem >= 0) by (nonlinear_arith)
        requires
            low >= 0,
            p64q >= 1,
            wq % p2r >= 0,
            rem == low + p64q * (wq % p2r),
    ;
    assert(rem < d) by (nonlinear_arith)
        requires
            low < p64q,
            wq % p2r <= p2r - 1,
            p64q >= 1,
            p2r >= 1,
            d == p64q * p2r,
            rem == low + p64q * (wq % p2r),
    ;
    assert(quo >= 0) by (nonlinear_arith)
        requires
            wq >= 0,
            p2r >= 1,
            p2c >= 1,
            hi >= 0,
            quo == wq / p2r + p2c * hi,
    ;
    lemma_fundamental_div_mod_converse_mod(wsum(ws), d, quo, rem);
    lemma_fundamental_div_mod_converse_div(wsum(ws), d, quo, rem);
}

/// First index in `[from, to)` whose word is nonzero, if any.
fn first_nonzero(words: &Vec<u64>, from: usize, to: usize) -> (res: Option<usize>)
    requires
        from <= to <= words@.len(),
    ensures
        match res {
            Some(j) => from <= j < to && words@[j as int] != 0,
            None => forall|k: int| from <= k < to ==> words@[k] == 0,
        },
{
    let mut i: usize = from;
    let mut hit: Option<usize> = None;
    while i < to
        invariant
            from <= i <= to,
            to <= words@.len(),
            match hit {
                Some(j) => from <= j < to && words@[j as int] != 0,
                None => forall|k: int| from <= k < i ==> words@[k] == 0,
            },
        decreases to - i,
    {
        if hit.is_none() && words[i] != 0 {
            hit = Some(i);
        }
        i = i + 1;
    }
    hit
}

/// Applies the sign to a magnitude and checks `i32` range.
fn mag_to_i32(m: u128, neg: bool) -> (res: Option<i32>)
    ensures
        opt_val(res) == {
            let v: int = if neg { -(m as int) } else { m as int };
            if fits_i32(v) {
                Some(v)
            } else {
                None::<int>
            }
        },
{
    if neg {
        if m <= 0x80000000u128 {
            if m == 0x80000000u128 {
                Some(i32::MIN)
            } else {
                Some(-(m as i32))
            }
        } else {
            None
        }
    } else {
        if m <= 0x7fffffffu128 {
            Some(m as i32)
        } else {
            None
        }
    }
}

/// Reads finite raw parts back as an `i32`, exactly: `Some(v)` precisely
/// when the parts denote the integer `v` and `v` fits in an `i32`.
pub fn num_to_i32(words: &Vec<u64>, neg: bool, exp: i32) -> (res: Option<i32>)
    ensures
        opt_val(res) == num_int_value(words@, neg, exp as int),
{
    let n = words.len();
    let ghost s = wsum(words@);
    let ghost total = 64 * words@.len() as int;
    let ghost sgn: int = if neg {
        -1
    } else {
        1
    };

    let nz = first_nonzero(words, 0, n);
    if nz.is_none() {
        proof {
            lemma_wsum_zero(words@);
            if exp >= total {
                assert(0int * pow2((exp - total) as nat) as int == 0) by (nonlinear_arith);
            } else {
                let d = pow2((total - exp) as nat) as int;
                lemma_pow2_pos((total - exp) as nat);
                assert(0int % d == 0 && 0int / d == 0) by (nonlinear_arith)
                    requires
                        d >= 1,
                ;
            }
            assert(sgn * 0 == 0);
        }
        return Some(0);
    }
    let nzi = nz.unwrap();
    proof {
        lemma_wsum_lower(words@, nzi as int);
        lemma_pow2_pos((64 * nzi) as nat);
        lemma_wsum_bounds(words@);
    }

    let sh: i128 = 64i128 * (n as i128) - (exp as i128);
    if sh <= 0 {
        // The value is s * 2^(exp - total) with s >= 1.
        let e1: u32 = (-sh) as u32;
        proof {
            assert(e1 as int == exp - total);
        }
        if e1 >= 32 {
            // Magnitude at least 2^32: out of i32 range.
            proof {
                let p = pow2(e1 as nat) as int;
                lemma2_to64();
                if e1 > 32 {
                    lemma_pow2_strictly_increases(32, e1 as nat);
                }
                assert(s * p >= 1 * p) by {
                    lemma_mul_inequality(1, s, p);
                }
                assert(!fits_i32(sgn * (s * p))) by (nonlinear_arith)
                    requires
                        s * p >= 0x100000000,
                        sgn == 1 || sgn == -1,
                ;
            }
            return None;
        }
        // Only word 0 may be nonzero if the magnitude is to fit.
        let high = first_nonzero(words, 1, n);
        if high.is_some() {
            let j = high.unwrap();
            proof {
                lemma_wsum_lower(words@, j as int);
                let pj = pow2((64 * j) as nat) as int;
                lemma2_to64_rest();
                if 64 * (j as nat) > 64 {
                    lemma_pow2_strictly_increases(64, (64 * j) as nat);
                }
                let p = pow2(e1 as nat) as int;
                lemma_pow2_pos(e1 as nat);
                assert(s * p >= s * 1) by {
                    lemma_mul_inequality(1, p, s);
                    assert(s * p == p * s) by (nonlinear_arith);
                    assert(s * 1 == 1 * s) by (nonlinear_arith);
                }
                assert(!fits_i32(sgn * (s * p))) by (nonlinear_arith)
                    requires
                        s * p >= 0x10000000000000000,
                        sgn == 1 || sgn == -1,
                ;
            }
            return None;
        }
        let w0 = words[0];
        proof {
            lemma_wsum_first(words@);
            lemma_wsum_zero(words@.skip(1));
            assert(s == w0 + pow2(64) * 0);
            assert(pow2(64) as int * 0 == 0) by (nonlinear_arith);
        }
        let p = pow2_u128(e1);
        proof {
            lemma2_to64();
            if e1 < 31 {
                lemma_pow2_strictly_increases(e1 as nat, 31);
            }
            assert((w0 as int) * (p as int) <= 0xffffffffffffffff * 0x80000000) by {
                lemma_mul_inequality(w0 as int, 0xffffffffffffffff, p as int);
                lemma_mul_inequality(p as int, 0x80000000, 0xffffffffffffffff);
                assert(0xffffffffffffffffint * (p as int) == (p as int) * 0xffffffffffffffff)
                    by (nonlinear_arith);
            }
        }
        let m: u128 = (w0 as u128) * p;
        proof {
            assert(s * pow2(e1 as nat) as int == m as int);
        }
        return mag_to_i32(m, neg);
    }

    // The value is s / 2^(total - exp), defined when the division is exact.
    if sh >= 64i128 * (n as i128) {
        // exp <= 0: the whole mantissa sits below the binary point.
        proof {
            let d = pow2((total - exp) as nat) as int;
            if total < total - exp {
                lemma_pow2_strictly_increases((total) as nat, (total - exp) as nat);
            }
            lemma_small_mod(s as nat, d as nat);
            lemma_pow2_pos((total - exp) as nat);
        }
        return None;
    }
    let q: usize = (sh / 64) as usize;
    let rr: u32 = (sh % 64) as u32;
    proof {
        assert(0 <= sh / 64 < n as i128 && 0 <= sh % 64 < 64 && sh == 64 * (sh / 64) + sh % 64)
            by (nonlinear_arith)
            requires
                0 < sh < 64 * (n as i128),
        ;
        lemma_split_qr(words@, q as int, rr as int);
        assert((64 * (q as int) + rr as int) as nat == (total - exp) as nat);
    }
    let ghost low = wsum(words@.take(q as int));
    let ghost hi = wsum(words@.skip(q as int + 1));
    let ghost p2r_g = pow2(rr as nat) as int;
    let ghost d = pow2((total - exp) as nat) as int;
    let ghost rem = low + pow2((64 * q) as nat) * ((words@[q as int] as int) % p2r_g);
    let ghost quo = (words@[q as int] as int) / p2r_g + pow2((64 - rr) as nat) * hi;

    let lowz = first_nonzero(words, 0, q);
    if lowz.is_some() {
        let j = lowz.unwrap();
        proof {
            lemma_wsum_lower(words@.take(q as int), j as int);
            lemma_pow2_pos((64 * j) as nat);
            lemma_pow2_pos((64 * q) as nat);
            lemma_pow2_pos(rr as nat);
            assert((words@[q as int] as int) % p2r_g >= 0) by (nonlinear_arith)
                requires
                    p2r_g >= 1,
            ;
            assert(pow2((64 * q) as nat) * ((words@[q as int] as int) % p2r_g) >= 0)
                by (nonlinear_arith)
                requires
                    pow2((64 * q) as nat) >= 1,
                    (words@[q as int] as int) % p2r_g >= 0,
            ;
            assert(rem != 0);
        }
        return None;
    }
    proof {
        lemma_wsum_zero(words@.take(q as int));
    }
    let p2r = pow2_u64(rr);
    let wq = words[q];
    if wq % p2r != 0 {
        proof {
            lemma_pow2_pos((64 * q) as nat);
            assert(rem >= 1) by (nonlinear_arith)
                requires
                    rem == low + pow2((64 * q) as nat) * ((words@[q as int] as int) % p2r_g),
                    low == 0,
                    pow2((64 * q) as nat) >= 1,
                    (words@[q as int] as int) % p2r_g >= 1,
            ;
        }
        return None;
    }
    let from2: usize = if n - q >= 2 {
        q + 2
    } else {
        n
    };
    let highz = first_nonzero(words, from2, n);
    if highz.is_some() {
        let j = highz.unwrap();
        proof {
            let tail = words@.skip(q as int + 1);
            lemma_wsum_lower(tail, j - (q as int + 1));
            lemma2_to64_rest();
            if 64 * (j - (q as int + 1)) > 64 {
                lemma_pow2_strictly_increases(64, (64 * (j - (q as int + 1))) as nat);
            }
            assert(hi >= 0x10000000000000000);
            let p2c = pow2((64 - rr) as nat) as int;
            lemma2_to64();
            if 64 - rr > 1 {
                lemma_pow2_strictly_increases(1, (64 - rr) as nat);
            }
            assert(quo >= 2 * hi) by (nonlinear_arith)
                requires
                    quo == (words@[q as int] as int) / p2r_g + p2c * hi,
                    (words@[q as int] as int) >= 0,
                    p2r_g >= 1,
                    p2c >= 2,
                    hi >= 0,
            ;
            assert(!fits_i32(sgn * quo)) by (nonlinear_arith)
                requires
                    quo >= 0x20000000000000000,
                    sgn == 1 || sgn == -1,
            ;
        }
        return None;
    }
    let wnext: u64 = if q + 1 < n {
        words[q + 1]
    } else {
        0
    };
    proof {
        let tail = words@.skip(q as int + 1);
        if q + 1 < n {
            lemma_wsum_first(tail);
            assert(tail[0] == words@[q as int + 1]);
            assert(tail.skip(1) =~= words@.skip(q as int + 2));
            lemma_wsum_zero(words@.skip(q as int + 2));
            assert(pow2(64) as int * 0 == 0) by (nonlinear_arith);
            assert(hi == wnext as int);
        } else {
            assert(tail =~= Seq::<u64>::empty());
            assert(hi == 0);
        }
    }
    let p2c = pow2_u128(64 - rr);
    proof {
        assert((wnext as int) * (p2c as int) <= 0xffffffffffffffff * 0x10000000000000000) by {
            lemma2_to64_rest();
            if 64 - rr < 64 {
                lemma_pow2_strictly_increases((64 - rr) as nat, 64);
            }
            lemma_mul_inequality(wnext as int, 0xffffffffffffffff, p2c as int);
            lemma_mul_inequality(p2c as int, 0x10000000000000000, 0xffffffffffffffff);
            assert(0xffffffffffffffffint * (p2c as int) == (p2c as int) * 0xffffffffffffffff)
                by (nonlinear_arith);
        }
    }
    let m: u128 = (wq / p2r) as u128 + (wnext as u128) * p2c;
    proof {
        assert(rem == 0) by (nonlinear_arith)
            requires
                rem == low + pow2((64 * q) as nat) * ((words@[q as int] as int) % p2r_g),
                low == 0,
                (words@[q as int] as int) % p2r_g == 0,
        ;
        assert((wq / p2r) as int == (words@[q as int] as int) / p2r_g);
        assert((wnext as int) * (p2c as int) == (p2c as int) * (wnext as int))
            by (nonlinear_arith);
        assert(m as int == quo);
        assert(s % d == 0 && s / d == quo);
    }
    mag_to_i32(m, neg)
}

/// Reads the integer a value denotes, if it is finite, integral and in
/// `i32` range.
pub fn real_to_i32(r: &crate::numeric::BigReal) -> (res: Option<i32>)
    ensures
        opt_val(res) == real_int_value(r@),
{
    match r {
        crate::numeric::BigReal::Num { words, nbits: _, neg, exp } => num_to_i32(
            words,
            *neg,
            *exp,
        ),
        _ => None,
    }
}

} // verus!
