//! Conversions between `Microns` and single-precision floats. A float is taken
//! as its IEEE-754 bit pattern and read with integer arithmetic alone.
//!
//! Products and quotients of floats are rounded to 24 significant bits, to
//! nearest with ties to even, as `f32` arithmetic rounds them; their exponent
//! is not bounded. That only differs from `f32` where a result overflows or
//! falls below the normal range, and such a result is out of range, or
//! truncates to zero, either way.
use crate::{abs_int, fits, Microns, MicronsError};
use vstd::arithmetic::div_mod::{lemma_div_denominator, lemma_fundamental_div_mod};
use vstd::arithmetic::power2::{lemma_pow2_pos, lemma_pow2_unfold, pow2};
use vstd::prelude::*;

verus! {

/// Two to the 23rd: the weight of the hidden bit of a normal `f32`.
pub const HIDDEN_BIT: u32 = 0x80_0000;

/// Two to the 24th: significands of 24 bits are below it.
pub const SIG_LIMIT: u64 = 0x100_0000;

/// 2147483.75, the `f32` nearest to `i32::MAX / 1000` (and, negated, to
/// `i32::MIN / 1000`), counted in quarters.
pub const BOUND_QUARTERS: u64 = 8589935;

/// The biased exponent field of an `f32` bit pattern.
pub open spec fn exp_field(b: u32) -> int {
    ((b / HIDDEN_BIT) % 0x100) as int
}

/// The fraction field of an `f32` bit pattern.
pub open spec fn frac_field(b: u32) -> int {
    (b % HIDDEN_BIT) as int
}

/// Whether the sign bit is set.
pub open spec fn sign_bit(b: u32) -> bool {
    b >= 0x8000_0000
}

/// Whether the pattern is a finite number (not an infinity, not a NaN).
pub open spec fn is_finite(b: u32) -> bool {
    exp_field(b) != 0xff
}

/// The significand: a finite pattern stands for `significand * 2^exponent`.
pub open spec fn significand(b: u32) -> nat {
    if exp_field(b) == 0 {
        frac_field(b) as nat
    } else {
        (frac_field(b) + HIDDEN_BIT) as nat
    }
}

/// The exponent: a finite pattern stands for `significand * 2^exponent`.
pub open spec fn exponent(b: u32) -> int {
    if exp_field(b) == 0 {
        -149
    } else {
        exp_field(b) - 150
    }
}

/// The magnitude of a finite pattern times `2^149`, an exact integer.
pub open spec fn magnitude_149(b: u32) -> nat {
    significand(b) * pow2((exponent(b) + 149) as nat)
}

/// Whether `sig * 2^e` lies strictly below 2147483.75 (`BOUND_QUARTERS / 4`).
pub open spec fn parts_in_range(sig: nat, e: int) -> bool {
    if e >= -2 {
        sig * pow2((e + 2) as nat) < BOUND_QUARTERS
    } else {
        sig < BOUND_QUARTERS * pow2((-(e + 2)) as nat)
    }
}

/// Whether a float lies strictly between the float forms of the least and the
/// greatest value: it is not NaN and its magnitude is below 2147483.75.
pub open spec fn in_range(b: u32) -> bool {
    is_finite(b) && parts_in_range(significand(b), exponent(b))
}

/// How many low bits of `m` are dropped to keep 24 significant bits.
pub open spec fn excess_bits(m: nat) -> nat
    decreases m,
{
    if m < SIG_LIMIT {
        0
    } else {
        1 + excess_bits(m / 2)
    }
}

/// `n / (d * 2^s)` rounded to the nearest integer, ties to the even one.
pub open spec fn round_half_even(n: nat, d: nat, s: nat) -> nat {
    let w = d * pow2(s);
    let q = n / w;
    let r = n % w;
    if 2 * r > w || (2 * r == w && q % 2 == 1) {
        q + 1
    } else {
        q
    }
}

/// The significand of `(n / d) * 2^e` rounded to 24 bits, nearest, ties to
/// even; the rounded value is `rounded_sig(n, d) * 2^(e + excess_bits(n / d))`.
/// It keeps 24 bits where `d` is 1 or `n / d` has at least 24.
pub open spec fn rounded_sig(n: nat, d: nat) -> nat {
    round_half_even(n, d, excess_bits(n / d))
}

/// The integer part of `m * 2^e`.
pub open spec fn trunc_dyadic(m: nat, e: int) -> nat {
    if e >= 0 {
        m * pow2(e as nat)
    } else {
        m / pow2((-e) as nat)
    }
}

/// The integer part, toward zero, of the `f32` nearest to `sig * 2^e * 1000`,
/// negated where `neg` holds.
pub open spec fn scaled_trunc_parts(neg: bool, sig: nat, e: int) -> int {
    let p = sig * 1000;
    let t = trunc_dyadic(rounded_sig(p, 1), e + excess_bits(p));
    if neg {
        -t
    } else {
        t as int
    }
}

/// The integer part, toward zero, of the `f32` nearest to `b * 1000`.
pub open spec fn scaled_trunc(b: u32) -> int {
    scaled_trunc_parts(sign_bit(b), significand(b), exponent(b))
}

/// The magnitude, times `2^149`, of the `f32` nearest to `x / 1000`, where
/// `x` is the `f32` nearest to `raw`. For `raw` other than zero the quotient is
/// formed from the significand of `x` times `2^35`, which keeps more than 24
/// bits in it.
pub open spec fn thousandth_magnitude_149(raw: int) -> nat {
    thousandth_sig(raw) * pow2((thousandth_exp(raw) + 149) as nat)
}

/// The significand of the `f32` nearest to `x / 1000`, where `x` is the `f32`
/// nearest to `raw`; that float is `thousandth_sig(raw) * 2^thousandth_exp(raw)`
/// in magnitude.
pub open spec fn thousandth_sig(raw: int) -> nat {
    let n = abs_int(raw) as nat;
    rounded_sig(rounded_sig(n, 1) * pow2(35), 1000)
}

/// The exponent that goes with `thousandth_sig(raw)`.
pub open spec fn thousandth_exp(raw: int) -> int {
    let n = abs_int(raw) as nat;
    excess_bits(n) + excess_bits(rounded_sig(n, 1) * pow2(35) / 1000) - 35
}

/// The significand of the product of the float form of `raw` and the float
/// `b`, rounded to 24 bits.
pub open spec fn product_sig(raw: int, b: u32) -> nat {
    rounded_sig(thousandth_sig(raw) * significand(b), 1)
}

/// The exponent that goes with `product_sig(raw, b)`.
pub open spec fn product_exp(raw: int, b: u32) -> int {
    thousandth_exp(raw) + exponent(b) + excess_bits(thousandth_sig(raw) * significand(b))
}

/// The significand of the quotient of the float form of `raw` by the float
/// `b`, rounded to 24 bits. The dividend's significand is scaled by `2^35`,
/// which keeps more than 24 bits in the quotient.
pub open spec fn quotient_sig(raw: int, b: u32) -> nat {
    rounded_sig(thousandth_sig(raw) * pow2(35), significand(b))
}

/// The exponent that goes with `quotient_sig(raw, b)`.
pub open spec fn quotient_exp(raw: int, b: u32) -> int {
    thousandth_exp(raw) - 35 - exponent(b) + excess_bits(thousandth_sig(raw) * pow2(35) / significand(b))
}

/// Whether the pattern is a NaN.
pub open spec fn is_nan(b: u32) -> bool {
    !is_finite(b) && frac_field(b) != 0
}

/// Two to the `k`.
fn pow2_u64(k: u32) -> (r: u64)
    requires
        k < 64,
    ensures
        r == pow2(k as nat),
{
    let mut r: u64 = 1;
    let mut i: u32 = 0;
    proof {
        vstd::arithmetic::power2::lemma2_to64();
    }
    while i < k
        invariant
            i <= k < 64,
            r == pow2(i as nat),
        decreases k - i,
    {
        proof {
            lemma_pow2_unfold((i + 1) as nat);
            vstd::arithmetic::power2::lemma_pow2_strictly_increases((i + 1) as nat, 64);
            vstd::arithmetic::power2::lemma2_to64_rest();
        }
        r = r * 2;
        i = i + 1;
    }
    r
}

/// Drops the low bits of `q` that a 24-bit significand has no room for: the
/// bits kept, how many were dropped, and two to that number.
fn shift_to_24_bits(q0: u64) -> (r: (u64, u32, u64))
    requires
        q0 < 0x1000_0000_0000_0000,
    ensures
        r.1 == excess_bits(q0 as nat),
        r.2 == pow2(r.1 as nat),
        r.0 == (q0 as nat) / pow2(r.1 as nat),
        r.0 < SIG_LIMIT,
        r.1 <= 36,
        r.2 <= 0x10_0000_0000,
        r.1 > 0 ==> r.2 * SIG_LIMIT <= 2 * q0,
        r.1 > 0 ==> r.0 >= HIDDEN_BIT,
        r.1 == 0 ==> r.0 == q0,
{
    let mut q: u64 = q0;
    let mut s: u32 = 0;
    let mut p2: u64 = 1;
    proof {
        vstd::arithmetic::power2::lemma2_to64();
    }
    while q >= SIG_LIMIT
        invariant
            q0 < 0x1000_0000_0000_0000,
            p2 == pow2(s as nat),
            q == (q0 as nat) / pow2(s as nat),
            excess_bits(q0 as nat) == s + excess_bits(q as nat),
            s <= 36,
            s > 0 ==> p2 * SIG_LIMIT <= 2 * q0,
            s > 0 ==> q >= HIDDEN_BIT,
        decreases q,
    {
        proof {
            lemma_pow2_unfold((s + 1) as nat);
            lemma_pow2_pos(s as nat);
            lemma_div_denominator(q0 as int, p2 as int, 2);
            lemma_fundamental_div_mod(q0 as int, p2 as int);
            assert(p2 * SIG_LIMIT <= p2 * q) by (nonlinear_arith)
                requires
                    q >= SIG_LIMIT,
                    p2 >= 1,
            ;
            assert(p2 * q <= q0);
            vstd::arithmetic::power2::lemma2_to64_rest();
            assert(p2 < 0x10_0000_0000);
            if s >= 36 {
                if s > 36 {
                    vstd::arithmetic::power2::lemma_pow2_strictly_increases(36, s as nat);
                }
            }
        }
        q = q / 2;
        s = s + 1;
        p2 = p2 * 2;
    }
    proof {
        vstd::arithmetic::power2::lemma2_to64_rest();
        if s < 36 {
            vstd::arithmetic::power2::lemma_pow2_strictly_increases(s as nat, 36);
        }
    }
    (q, s, p2)
}

/// Rounds `n / d` to 24 significant bits: the rounded significand and the
/// number of bits dropped.
fn round_to_24_bits(n: u64, d: u64) -> (r: (u64, u32))
    requires
        1 <= d,
        n < 0x1000_0000_0000_0000,
        d == 1 || n / d >= SIG_LIMIT,
    ensures
        r.0 == rounded_sig(n as nat, d as nat),
        r.1 == excess_bits((n / d) as nat),
        r.0 <= SIG_LIMIT,
        r.1 <= 36,
        r.1 > 0 ==> pow2(r.1 as nat) * SIG_LIMIT <= 2 * (n / d),
        r.1 > 0 ==> r.0 >= HIDDEN_BIT,
        r.1 == 0 && d == 1 ==> r.0 == n,
        d == 1 ==> 2 * r.0 * pow2(r.1 as nat) <= 2 * n + pow2(r.1 as nat),
{
    let big_q = n / d;
    let rn = n % d;
    let (q, s, p2) = shift_to_24_bits(big_q);
    proof {
        vstd::arithmetic::power2::lemma2_to64();
        lemma_pow2_pos(s as nat);
        lemma_fundamental_div_mod(big_q as int, p2 as int);
        lemma_fundamental_div_mod(n as int, d as int);
    }
    let rq: u64 = big_q - q * p2;
    let up = rq * 2 > p2 || (rq * 2 == p2 && (rn > 0 || q % 2 == 1));
    proof {
        let w = d * p2;
        let rw = d * rq + rn;
        assert(n == w * q + rw && 0 <= rw < w) by (nonlinear_arith)
            requires
                n == d * big_q + rn,
                big_q == p2 * q + rq,
                0 <= rn < d,
                0 <= rq < p2,
                w == d * p2,
                rw == d * rq + rn,
        ;
        vstd::arithmetic::div_mod::lemma_fundamental_div_mod_converse(n as int, w as int, q as int, rw as int);
        assert(n as nat / (d as nat * pow2(s as nat)) == q);
        assert(n as nat % (d as nat * pow2(s as nat)) == rw);
        if d != 1 {
            assert(s >= 1);
            lemma_pow2_unfold(s as nat);
            lemma_sticky_compare(d as int, p2 as int, rq as int, rn as int);
            assert(up == (2 * rw > w || (2 * rw == w && q % 2 == 1)));
        } else {
            assert(rn == 0);
            assert(d * rq == rq && d * p2 == p2) by (nonlinear_arith)
                requires
                    d == 1,
            ;
            assert(rw == rq);
            assert(w == p2);
            assert(up == (2 * rw > w || (2 * rw == w && q % 2 == 1)));
        }
        assert(excess_bits((n / d) as nat) == s);
        assert(round_half_even(n as nat, d as nat, s as nat) == if up { q + 1 } else { q as int });
        assert(rounded_sig(n as nat, d as nat) == if up { q + 1 } else { q as int });
        if d == 1 {
            assert(big_q == n);
            if up {
                assert(2 * (q + 1) * p2 <= 2 * n + p2) by (nonlinear_arith)
                    requires
                        n == p2 * q + rq,
                        rq * 2 >= p2,
                ;
            } else {
                assert(2 * q * p2 <= 2 * n + p2) by (nonlinear_arith)
                    requires
                        n == p2 * q + rq,
                        rq >= 0,
                        p2 >= 0,
                ;
            }
        }
    }
    if up {
        (q + 1, s)
    } else {
        (q, s)
    }
}

/// Comparing the remainder of `n / (d * p2)` with half the divisor, where
/// `n = d * (p2 * q + rq) + rn`, reads `rq` and whether `rn` is zero.
proof fn lemma_sticky_compare(d: int, p2: int, rq: int, rn: int)
    requires
        p2 % 2 == 0,
        p2 > 0,
        0 <= rn < d,
        0 <= rq < p2,
    ensures
        (2 * (d * rq + rn) > d * p2) == (rq * 2 > p2 || (rq * 2 == p2 && rn > 0)),
        (2 * (d * rq + rn) == d * p2) == (rq * 2 == p2 && rn == 0),
{
    let k = p2 / 2;
    assert(p2 == 2 * k);
    if rq * 2 > p2 {
        assert(rq >= k + 1);
        assert(2 * (d * rq) >= d * p2 + 2 * d) by (nonlinear_arith)
            requires
                rq >= k + 1,
                p2 == 2 * k,
                d > 0,
        ;
    } else if rq * 2 == p2 {
        assert(2 * (d * rq) == d * p2) by (nonlinear_arith)
            requires
                rq * 2 == p2,
        ;
    } else {
        assert(rq <= k - 1);
        assert(2 * (d * rq) <= d * p2 - 2 * d) by (nonlinear_arith)
            requires
                rq <= k - 1,
                p2 == 2 * k,
                d > 0,
        ;
    }
}

/// Splits a pattern into its sign, significand and exponent.
fn decode(b: u32) -> (r: (bool, u64, i32))
    ensures
        r.0 == sign_bit(b),
        r.1 == significand(b),
        r.2 == exponent(b),
        r.1 < SIG_LIMIT,
        -149 <= r.2 <= 105,
        r.2 > -149 ==> r.1 >= HIDDEN_BIT,
{
    let field = (b / HIDDEN_BIT) % 0x100;
    let frac = b % HIDDEN_BIT;
    if field == 0 {
        (b >= 0x8000_0000, frac as u64, -149)
    } else {
        (b >= 0x8000_0000, (frac + HIDDEN_BIT) as u64, field as i32 - 150)
    }
}

/// The float form of a raw integer, as `thousandth_sig` and `thousandth_exp`
/// give it.
fn thousandth_parts(raw: i32) -> (r: (u64, i32))
    ensures
        r.0 == thousandth_sig(raw as int),
        r.1 == thousandth_exp(raw as int),
        r.0 <= SIG_LIMIT,
        raw != 0 ==> r.0 >= HIDDEN_BIT,
        raw == 0 ==> r.0 == 0,
        -35 <= r.1 <= 40,
{
    proof {
        vstd::arithmetic::power2::lemma2_to64();
        vstd::arithmetic::power2::lemma2_to64_rest();
    }
    if raw == 0 {
        proof {
            assert(excess_bits(0) == 0);
            assert(round_half_even(0, 1, 0) == 0);
            assert(rounded_sig(0, 1) == 0);
            let big = rounded_sig(0, 1) * pow2(35);
            assert(big == 0);
            assert(big / 1000 == 0);
            assert(round_half_even(0, 1000, 0) == 0);
            assert(rounded_sig(big, 1000) == 0);
            assert(abs_int(raw as int) == 0);
        }
        return (0, -35);
    }
    let n: u64 = if raw < 0 {
        (0 - raw as i64) as u64
    } else {
        raw as u64
    };
    let (m1, s1) = round_to_24_bits(n, 1);
    let p35 = pow2_u64(35);
    proof {
        assert(m1 >= 1);
        assert(m1 * p35 < 0x1000_0000_0000_0000) by (nonlinear_arith)
            requires
                m1 <= SIG_LIMIT,
                p35 == 0x8_0000_0000,
        ;
        assert(m1 * p35 >= p35) by (nonlinear_arith)
            requires
                m1 >= 1,
                p35 > 0,
        ;
    }
    let big = m1 * p35;
    let (m2, s2) = round_to_24_bits(big, 1000);
    proof {
        assert(excess_bits((big / 1000) as nat) >= 1);
    }
    (m2, s1 as i32 + s2 as i32 - 35)
}

/// Whether `sig * 2^e` lies strictly below 2147483.75.
fn check_parts_in_range(sig: u64, e: i32) -> (r: bool)
    requires
        sig <= SIG_LIMIT,
    ensures
        r == parts_in_range(sig as nat, e as int),
        r && sig > 0 ==> e <= 22,
{
    proof {
        vstd::arithmetic::power2::lemma2_to64();
    }
    if sig == 0 {
        proof {
            if e >= -2 {
                assert(0 * pow2((e + 2) as nat) == 0);
            } else {
                lemma_pow2_pos((-(e + 2)) as nat);
            }
        }
        true
    } else if e < -2 {
        proof {
            let k = (-(e + 2)) as nat;
            if k > 1 {
                vstd::arithmetic::power2::lemma_pow2_strictly_increases(1, k);
            }
            let pk = pow2(k);
            assert(sig < BOUND_QUARTERS * pk) by (nonlinear_arith)
                requires
                    pk >= 2,
                    sig <= SIG_LIMIT,
            ;
        }
        true
    } else if e > 22 {
        proof {
            let k = (e + 2) as nat;
            if k > 25 {
                vstd::arithmetic::power2::lemma_pow2_strictly_increases(25, k);
            }
            let pk = pow2(k);
            assert(sig * pk >= BOUND_QUARTERS) by (nonlinear_arith)
                requires
                    pk >= 0x200_0000,
                    sig >= 1,
            ;
        }
        false
    } else {
        let pd = pow2_u64((e + 2) as u32);
        proof {
            if e + 2 < 24 {
                vstd::arithmetic::power2::lemma_pow2_strictly_increases((e + 2) as nat, 24);
            }
            assert(sig * pd <= SIG_LIMIT * SIG_LIMIT) by (nonlinear_arith)
                requires
                    sig <= SIG_LIMIT,
                    pd <= SIG_LIMIT,
            ;
        }
        sig * pd < BOUND_QUARTERS
    }
}

/// Whether a float, given as its bit pattern, can be turned into `Microns`:
/// it is not NaN and lies strictly between the float forms of the least and
/// the greatest value.
pub fn float_in_range(b: u32) -> (r: bool)
    ensures
        r == in_range(b),
{
    let (_neg, sig, e) = decode(b);
    if (b / HIDDEN_BIT) % 0x100 == 0xff {
        return false;
    }
    check_parts_in_range(sig, e)
}

/// The value of `sig * 2^e`, negated where `neg` holds: times 1000, rounded as
/// an `f32` product, then truncated toward zero.
fn from_parts(neg: bool, sig: u64, e: i32) -> (r: Result<Microns, MicronsError>)
    requires
        sig <= SIG_LIMIT,
        -1000 <= e <= 1000,
    ensures
        r is Ok <==> parts_in_range(sig as nat, e as int),
        r is Ok ==> r->Ok_0@ == scaled_trunc_parts(neg, sig as nat, e as int),
        r is Err ==> r->Err_0 == MicronsError::OutOfRange,
{
    if !check_parts_in_range(sig, e) {
        return Err(MicronsError::OutOfRange);
    }
    if sig == 0 {
        proof {
            vstd::arithmetic::power2::lemma2_to64();
            assert(excess_bits(0) == 0);
            assert(round_half_even(0, 1, 0) == 0);
            assert(rounded_sig(0, 1) == 0);
            if e >= 0 {
                assert(0 * pow2(e as nat) == 0);
            } else {
                lemma_pow2_pos((-e) as nat);
            }
        }
        return Ok(Microns(0));
    }
        let p = sig * 1000;
    let (m, s) = round_to_24_bits(p, 1);
    proof {
        if s > 0 {
            vstd::arithmetic::power2::lemma2_to64();
            let p2 = pow2(s as nat);
            assert(p2 * SIG_LIMIT <= 2 * p);
            assert(p2 < 2048) by (nonlinear_arith)
                requires
                    p2 * SIG_LIMIT <= 2 * p,
                    p <= SIG_LIMIT * 1000,
            ;
            if s > 11 {
                vstd::arithmetic::power2::lemma_pow2_strictly_increases(11, s as nat);
            }
        }
    }
    let ee: i32 = e + s as i32;
    let t: u64 = if ee >= 0 {
        let pe = pow2_u64(ee as u32);
        proof {
            if ee < 32 {
                vstd::arithmetic::power2::lemma_pow2_strictly_increases(ee as nat, 32);
            }
            vstd::arithmetic::power2::lemma2_to64();
            assert(m * pe <= SIG_LIMIT * 0x1_0000_0000) by (nonlinear_arith)
                requires
                    m <= SIG_LIMIT,
                    pe <= 0x1_0000_0000,
            ;
        }
        proof {
            lemma_in_range_fits(sig as nat, e as int, m as nat, s as nat);
        }
        m * pe
    } else if ee > -64 {
        let pe = pow2_u64((-ee) as u32);
        proof {
            lemma_pow2_pos((-ee) as nat);
            vstd::arithmetic::div_mod::lemma_div_is_ordered_by_denominator(m as int, 1, pe as int);
        }
        m / pe
    } else {
        proof {
            vstd::arithmetic::power2::lemma2_to64();
            vstd::arithmetic::power2::lemma2_to64_rest();
            if -ee > 64 {
                vstd::arithmetic::power2::lemma_pow2_strictly_increases(64, (-ee) as nat);
            }
            vstd::arithmetic::div_mod::lemma_basic_div(m as int, pow2((-ee) as nat) as int);
        }
        0
    };
    if neg {
        Ok(Microns(0 - t as i32))
    } else {
        Ok(Microns(t as i32))
    }
}

/// A value in range, times 1000 and rounded to 24 bits, stays below
/// `i32::MAX`: `m * 2^s` is `sig * 1000` rounded, and `sig * 2^e` is at most
/// 2147483.5.
proof fn lemma_in_range_fits(sig: nat, e: int, m: nat, s: nat)
    requires
        sig <= SIG_LIMIT,
        sig > 0,
        parts_in_range(sig, e),
        s > 0 ==> m >= HIDDEN_BIT,
        s == 0 ==> m == sig * 1000,
        2 * m * pow2(s) <= 2 * (sig * 1000) + pow2(s),
        e + s >= 0,
    ensures
        m * pow2((e + s) as nat) <= 2147483628,
{
    vstd::arithmetic::power2::lemma2_to64();
    let ee = (e + s) as nat;
    let u = pow2(ee);
    let p = sig * 1000;
    lemma_pow2_pos(ee);
    if s == 0 {
        vstd::arithmetic::power2::lemma_pow2_adds(ee, 2);
        assert(sig * pow2(ee + 2) <= BOUND_QUARTERS - 1);
        assert(m * u <= 2147483500) by (nonlinear_arith)
            requires
                m == sig * 1000,
                sig * (u * 4) <= BOUND_QUARTERS - 1,
        ;
    } else {
        let ps = pow2(s);
        if e >= 0 {
            let pe = pow2(e as nat);
            lemma_pow2_pos(e as nat);
            vstd::arithmetic::power2::lemma_pow2_adds(s, e as nat);
            vstd::arithmetic::power2::lemma_pow2_adds(e as nat, 2);
            assert(sig * pow2((e + 2) as nat) <= BOUND_QUARTERS - 1);
            assert(2 * m * u <= 4294967000 + u) by (nonlinear_arith)
                requires
                    2 * m * ps <= 2 * p + ps,
                    u == ps * pe,
                    p == sig * 1000,
                    sig * (pe * 4) <= BOUND_QUARTERS - 1,
                    pe > 0,
            ;
        } else {
            let f = (-e) as nat;
            let pf = pow2(f);
            lemma_pow2_pos(f);
            vstd::arithmetic::power2::lemma_pow2_adds(f, ee);
            assert(2 * p <= 4294967000 * pf) by {
                if f <= 2 {
                    vstd::arithmetic::power2::lemma_pow2_adds((2 - f) as nat, f);
                    let pg = pow2((2 - f) as nat);
                    assert(sig * pg <= BOUND_QUARTERS - 1);
                    assert(2 * p <= 4294967000 * pf) by (nonlinear_arith)
                        requires
                            sig * pg <= BOUND_QUARTERS - 1,
                            pg * pf == 4,
                            p == sig * 1000,
                            pg > 0,
                    ;
                } else {
                    if f > 3 {
                        vstd::arithmetic::power2::lemma_pow2_strictly_increases(3, f);
                    }
                    assert(2 * p <= 4294967000 * pf) by (nonlinear_arith)
                        requires
                            sig <= SIG_LIMIT,
                            pf >= 8,
                            p == sig * 1000,
                    ;
                }
            }
            assert(2 * m * u <= 4294967000 + u) by (nonlinear_arith)
                requires
                    2 * m * ps <= 2 * p + ps,
                    ps == pf * u,
                    2 * p <= 4294967000 * pf,
                    pf > 0,
            ;
        }
        assert(m * u <= 2147483628) by (nonlinear_arith)
            requires
                2 * m * u <= 4294967000 + u,
                m >= HIDDEN_BIT,
                u > 0,
        ;
    }
}

/// The float forms of the least and the greatest value are `-2147483.75`
/// and `2147483.75`, and a finite float is accepted exactly when it lies
/// strictly between them.
pub proof fn lemma_range_is_float_bounds(b: u32)
    requires
        is_finite(b),
    ensures
        thousandth_magnitude_149(i32::MAX as int) == BOUND_QUARTERS * pow2(147),
        thousandth_magnitude_149(i32::MIN as int) == BOUND_QUARTERS * pow2(147),
        in_range(b) <==> magnitude_149(b) < thousandth_magnitude_149(i32::MAX as int),
{
    lemma_float_of_max();
    lemma_float_of_min();
    let sig = significand(b);
    let e = exponent(b);
    let p147 = pow2(147);
    let pe = pow2((e + 149) as nat);
    lemma_pow2_pos(147);
    if e >= -2 {
        let pd = pow2((e + 2) as nat);
        vstd::arithmetic::power2::lemma_pow2_adds((e + 2) as nat, 147);
        assert((sig * pd < BOUND_QUARTERS) == (sig * (pd * p147) < BOUND_QUARTERS * p147)) by (nonlinear_arith)
            requires
                p147 > 0,
        ;
    } else {
        let pd = pow2((-(e + 2)) as nat);
        vstd::arithmetic::power2::lemma_pow2_adds((-(e + 2)) as nat, (e + 149) as nat);
        lemma_pow2_pos((e + 149) as nat);
        assert((sig < BOUND_QUARTERS * pd) == (sig * pe < BOUND_QUARTERS * (pd * pe))) by (nonlinear_arith)
            requires
                pe > 0,
        ;
    }
}

/// `i32::MAX` as an `f32` is `2^31`, and `2^31 / 1000` as an `f32` is
/// `8589935 / 4`.
proof fn lemma_float_of_max()
    ensures
        thousandth_magnitude_149(i32::MAX as int) == BOUND_QUARTERS * pow2(147),
{
    vstd::arithmetic::power2::lemma2_to64();
    vstd::arithmetic::power2::lemma2_to64_rest();
    let n: nat = 0x7fff_ffff;
    assert(excess_bits(n) == 7) by {
        reveal_with_fuel(excess_bits, 9);
    }
    assert(rounded_sig(n, 1) == 0x100_0000) by {
        assert(1 * pow2(7) == 128);
        assert(n / 128 == 0xff_ffff);
        assert(n % 128 == 127);
    }
    let big: nat = 0x100_0000 * pow2(35);
    assert(big == 0x800_0000_0000_0000);
    assert(big / 1000 == 576460752303423);
    assert(excess_bits(576460752303423) == 26) by {
        reveal_with_fuel(excess_bits, 28);
    }
    assert(rounded_sig(big, 1000) == BOUND_QUARTERS) by {
        assert(pow2(26) == 0x400_0000);
        assert(1000 * pow2(26) == 67108864000);
        assert(big / 67108864000 == 8589934);
        assert(big % 67108864000 == 39728447488);
    }
    assert(thousandth_exp(i32::MAX as int) == -2);
}

/// `i32::MIN` as an `f32` is `-2^31`, and its quotient by 1000 is the
/// negation of that of `i32::MAX`.
proof fn lemma_float_of_min()
    ensures
        thousandth_magnitude_149(i32::MIN as int) == BOUND_QUARTERS * pow2(147),
{
    vstd::arithmetic::power2::lemma2_to64();
    vstd::arithmetic::power2::lemma2_to64_rest();
    let n: nat = 0x8000_0000;
    assert(excess_bits(n) == 8) by {
        reveal_with_fuel(excess_bits, 10);
    }
    assert(rounded_sig(n, 1) == 0x80_0000) by {
        assert(1 * pow2(8) == 256);
        assert(n / 256 == 0x80_0000);
        assert(n % 256 == 0);
    }
    let big: nat = 0x80_0000 * pow2(35);
    assert(big == 0x400_0000_0000_0000);
    assert(big / 1000 == 288230376151711);
    assert(excess_bits(288230376151711) == 25) by {
        reveal_with_fuel(excess_bits, 27);
    }
    assert(rounded_sig(big, 1000) == BOUND_QUARTERS) by {
        assert(pow2(25) == 0x200_0000);
        assert(1000 * pow2(25) == 33554432000);
        assert(big / 33554432000 == 8589934);
        assert(big % 33554432000 == 19864223744);
    }
    assert(thousandth_exp(i32::MIN as int) == -2);
}

impl Microns {
    /// The value of a float, given as its bit pattern: the float times 1000,
    /// rounded as an `f32` product, then truncated toward zero. A NaN, an
    /// infinity, or a float outside the range that `float_in_range` accepts
    /// gives `OutOfRange`.
    pub fn from_f32_bits(b: u32) -> (r: Result<Microns, MicronsError>)
        ensures
            r is Ok <==> in_range(b),
            r is Ok ==> r->Ok_0@ == scaled_trunc(b),
            r is Err ==> r->Err_0 == MicronsError::OutOfRange,
    {
        if (b / HIDDEN_BIT) % 0x100 == 0xff {
            return Err(MicronsError::OutOfRange);
        }
        let (neg, sig, e) = decode(b);
        from_parts(neg, sig, e)
    }

    /// The value as a float, given as its bit pattern: the raw integer turned
    /// into the nearest `f32`, then divided by 1000 as `f32` division does.
    /// Zero gives positive zero.
    pub fn to_f32_bits(self) -> (r: u32)
        ensures
            is_finite(r),
            sign_bit(r) == (self@ < 0),
            magnitude_149(r) == thousandth_magnitude_149(self@),
    {
        proof {
            vstd::arithmetic::power2::lemma2_to64();
            vstd::arithmetic::power2::lemma2_to64_rest();
        }
        if self.0 == 0 {
            proof {
                assert(excess_bits(0) == 0);
                assert(round_half_even(0, 1, 0) == 0);
                assert(rounded_sig(0, 1) == 0);
                assert(round_half_even(0, 1000, 0) == 0);
                assert(rounded_sig(0, 1000) == 0);
                assert(exp_field(0) == 0);
                assert(significand(0) == 0);
                assert(magnitude_149(0) == 0);
                let big = rounded_sig(0, 1) * pow2(35);
                assert(big == 0);
                assert(big / 1000 == 0);
                assert(rounded_sig(big, 1000) == 0);
                assert(abs_int(self@) == 0);
                let n = abs_int(self@) as nat;
                assert(n == 0);
                assert(rounded_sig(n, 1) * pow2(35) == big);
                let e = (excess_bits(n) + excess_bits(big / 1000) + 114) as nat;
                let rs = rounded_sig(big, 1000);
                let pe = pow2(e);
                assert(rs == 0);
                assert(rs * pe == 0) by (nonlinear_arith)
                    requires
                        rs == 0,
                ;
                assert(thousandth_magnitude_149(self@) == 0);
            }
            return 0;
        }
        let (m2, e1) = thousandth_parts(self.0);
        let (sig, k): (u32, u32) = if m2 == SIG_LIMIT {
            (HIDDEN_BIT, (e1 + 150) as u32)
        } else {
            (m2 as u32, (e1 + 149) as u32)
        };
        let field: u32 = k + 1;
        let frac: u32 = sig - HIDDEN_BIT;
        let sign: u32 = if self.0 < 0 {
            1
        } else {
            0
        };
        let r: u32 = sign * 0x8000_0000 + field * HIDDEN_BIT + frac;
        proof {
            let hi = sign * 0x100 + field;
            assert(r == HIDDEN_BIT * hi + frac);
            vstd::arithmetic::div_mod::lemma_fundamental_div_mod_converse(r as int, HIDDEN_BIT as int, hi as int, frac as int);
            vstd::arithmetic::div_mod::lemma_fundamental_div_mod_converse(hi as int, 0x100, sign as int, field as int);
            assert(exp_field(r) == field);
            assert(significand(r) == sig);
            let base = (e1 + 149) as nat;
            if m2 == SIG_LIMIT {
                lemma_pow2_unfold(base + 1);
                assert(SIG_LIMIT * pow2(base) == HIDDEN_BIT * pow2(base + 1)) by (nonlinear_arith)
                    requires
                        pow2(base + 1) == 2 * pow2(base),
                        SIG_LIMIT == 2 * HIDDEN_BIT,
                ;
            }
        }
        r
    }

    /// Multiplies by a float, given as its bit pattern: the value turned into
    /// an `f32` (`to_f32_bits`), multiplied as `f32` multiplication does, and
    /// turned back (`from_f32_bits`). A NaN or an infinity, or a product out of
    /// range, gives `OutOfRange`.
    pub fn mul_f32_bits(self, b: u32) -> (r: Result<Microns, MicronsError>)
        ensures
            r is Ok <==> is_finite(b) && parts_in_range(product_sig(self@, b), product_exp(self@, b)),
            r is Ok ==> r->Ok_0@ == scaled_trunc_parts(
                (self@ < 0) != sign_bit(b),
                product_sig(self@, b),
                product_exp(self@, b),
            ),
            r is Err ==> r->Err_0 == MicronsError::OutOfRange,
    {
        if (b / HIDDEN_BIT) % 0x100 == 0xff {
            return Err(MicronsError::OutOfRange);
        }
        let (neg2, sig2, e2) = decode(b);
        let (sig1, e1) = thousandth_parts(self.0);
        proof {
            assert(sig1 * sig2 <= SIG_LIMIT * SIG_LIMIT) by (nonlinear_arith)
                requires
                    sig1 <= SIG_LIMIT,
                    sig2 <= SIG_LIMIT,
            ;
        }
        let (m, s) = round_to_24_bits(sig1 * sig2, 1);
        from_parts((self.0 < 0) != neg2, m, e1 + e2 + s as i32)
    }

    /// Divides by a float, given as its bit pattern: the value turned into an
    /// `f32` (`to_f32_bits`), divided as `f32` division does, and turned back
    /// (`from_f32_bits`). Dividing by zero gives `DivideByZero`; dividing by an
    /// infinity gives zero; a NaN, or a quotient out of range, gives
    /// `OutOfRange`.
    pub fn div_f32_bits(self, b: u32) -> (r: Result<Microns, MicronsError>)
        ensures
            is_nan(b) ==> r == Err::<Microns, MicronsError>(MicronsError::OutOfRange),
            !is_finite(b) && !is_nan(b) ==> r == Ok::<Microns, MicronsError>(Microns(0)),
            is_finite(b) && significand(b) == 0 ==> r == Err::<Microns, MicronsError>(
                MicronsError::DivideByZero,
            ),
            is_finite(b) && significand(b) != 0 && self@ == 0 ==> r == Ok::<Microns, MicronsError>(
                Microns(0),
            ),
            is_finite(b) && significand(b) != 0 && self@ != 0 ==> {
                &&& r is Ok <==> parts_in_range(quotient_sig(self@, b), quotient_exp(self@, b))
                &&& r is Ok ==> r->Ok_0@ == scaled_trunc_parts(
                    (self@ < 0) != sign_bit(b),
                    quotient_sig(self@, b),
                    quotient_exp(self@, b),
                )
                &&& r is Err ==> r->Err_0 == MicronsError::OutOfRange
            },
    {
        if (b / HIDDEN_BIT) % 0x100 == 0xff {
            if b % HIDDEN_BIT != 0 {
                return Err(MicronsError::OutOfRange);
            }
            return Ok(Microns(0));
        }
        let (neg2, sig2, e2) = decode(b);
        if sig2 == 0 {
            return Err(MicronsError::DivideByZero);
        }
        if self.0 == 0 {
            return Ok(Microns(0));
        }
        let (sig1, e1) = thousandth_parts(self.0);
        let p35 = pow2_u64(35);
        proof {
            vstd::arithmetic::power2::lemma2_to64_rest();
            assert(sig1 * p35 <= SIG_LIMIT * 0x8_0000_0000) by (nonlinear_arith)
                requires
                    sig1 <= SIG_LIMIT,
                    p35 == 0x8_0000_0000,
            ;
            assert(sig1 * p35 >= sig2 * SIG_LIMIT) by (nonlinear_arith)
                requires
                    sig1 >= HIDDEN_BIT,
                    p35 == 0x8_0000_0000,
                    sig2 < SIG_LIMIT,
            ;
            vstd::arithmetic::div_mod::lemma_div_is_ordered((sig2 * SIG_LIMIT) as int, (sig1 * p35) as int, sig2 as int);
            vstd::arithmetic::div_mod::lemma_div_by_multiple(SIG_LIMIT as int, sig2 as int);
        }
        let n = sig1 * p35;
        let (m, s) = round_to_24_bits(n, sig2);
        from_parts((self.0 < 0) != neg2, m, e1 - 35 - e2 + s as i32)
    }

    /// Adds a float, given as its bit pattern, after turning it into
    /// `Microns` with `from_f32_bits`.
    pub fn add_f32_bits(self, b: u32) -> (r: Result<Microns, MicronsError>)
        ensures
            r is Ok <==> in_range(b) && fits(self@ + scaled_trunc(b)),
            r is Ok ==> r->Ok_0@ == self@ + scaled_trunc(b),
            r is Err ==> r->Err_0 == MicronsError::OutOfRange,
    {
        let x = Microns::from_f32_bits(b)?;
        match self.0.checked_add(x.0) {
            Some(v) => Ok(Microns(v)),
            None => Err(MicronsError::OutOfRange),
        }
    }

    /// Subtracts a float, given as its bit pattern, after turning it into
    /// `Microns` with `from_f32_bits`.
    pub fn sub_f32_bits(self, b: u32) -> (r: Result<Microns, MicronsError>)
        ensures
            r is Ok <==> in_range(b) && fits(self@ - scaled_trunc(b)),
            r is Ok ==> r->Ok_0@ == self@ - scaled_trunc(b),
            r is Err ==> r->Err_0 == MicronsError::OutOfRange,
    {
        let x = Microns::from_f32_bits(b)?;
        match self.0.checked_sub(x.0) {
            Some(v) => Ok(Microns(v)),
            None => Err(MicronsError::OutOfRange),
        }
    }
}

} // verus!
