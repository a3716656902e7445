//! Rounding to nearest, ties to even.
//!
//! Every arithmetic operation first describes its exact result as a
//! truncation: integers `n` and `k` and a flag `sticky` that stand for a real
//! number `x` with `n * 2^k <= x < (n + 1) * 2^k`, where `x > n * 2^k` exactly
//! if `sticky` is set. `round` then picks the nearest number of the format.
use crate::ieee::format::{Format, Value, canonical, decode, magnitude, negate};
use crate::ieee::pow::{
    bit_len, bit_len_u128, lemma_bit_len_bounds, lemma_bit_len_drop, lemma_bit_len_gt,
    lemma_bit_len_le, lemma_bit_len_scale, lemma_bit_len_unique, lemma_pow2_128, pow2_u128,
};
use vstd::arithmetic::div_mod::*;
use vstd::arithmetic::mul::*;
use vstd::arithmetic::power2::*;
use vstd::prelude::*;

verus! {

/// Exponent of the last kept bit when `n * 2^k` is cut to the format's
/// precision: the number's own top bit decides, but never below the
/// subnormal exponent, which is also the exponent of zero.
pub open spec fn ulp_exp(fmt: Format, n: nat, k: int) -> int {
    let e = bit_len(n) + k - fmt.precision();
    if n == 0 || e < fmt.min_exp() {
        fmt.min_exp()
    } else {
        e
    }
}

/// The integer nearest to `x / 2^shift`, ties to even, where `x` is the
/// number that `n` and `sticky` stand for (in units of `n`'s last bit).
///
/// With nothing to drop (`shift <= 0`) this is `n * 2^(-shift)`; the flag is
/// then expected to be clear.
pub open spec fn shift_round(n: nat, shift: int, sticky: bool) -> nat {
    if shift <= 0 {
        n * pow2((-shift) as nat)
    } else {
        let kept = n / pow2(shift as nat);
        let dropped = n % pow2(shift as nat);
        let half = pow2((shift - 1) as nat);
        if dropped > half || (dropped == half && (sticky || kept % 2 == 1)) {
            kept + 1
        } else {
            kept
        }
    }
}

/// The pattern of `(-1)^neg * m * 2^q`, where `m` has at most one bit more
/// than the precision and `q` is at least the subnormal exponent; positive or
/// negative infinity where that number is beyond the format's range.
///
/// Below the sign bit a pattern counts steps of the last bit: each exponent
/// holds `hidden` of them, so the pattern is `(q - min_exp) * hidden + m`,
/// for subnormal and normal numbers alike and also where rounding carried
/// into the next exponent.
pub open spec fn encode(fmt: Format, neg: bool, m: nat, q: int) -> nat {
    let raw = (q - fmt.min_exp()) * fmt.hidden() + m;
    let mag: nat = if raw >= fmt.inf() {
        fmt.inf()
    } else if raw < 0 {
        0
    } else {
        raw as nat
    };
    if neg {
        fmt.sign() + mag
    } else {
        mag
    }
}

/// The pattern nearest to the number that `n`, `k` and `sticky` stand for,
/// ties to even, with the sign `neg`.
#[verifier::opaque]
pub open spec fn round(fmt: Format, neg: bool, n: nat, k: int, sticky: bool) -> nat {
    let q = ulp_exp(fmt, n, k);
    encode(fmt, neg, shift_round(n, q - k, sticky), q)
}

/// Nothing rounds to nothing.
pub proof fn lemma_shift_round_zero(shift: int, sticky: bool)
    ensures
        shift_round(0, shift, sticky) == 0,
{
    if shift <= 0 {
        lemma_mul_basics(pow2((-shift) as nat) as int);
    } else {
        lemma_pow2_pos(shift as nat);
        lemma_pow2_pos((shift - 1) as nat);
        lemma_basic_div(0, pow2(shift as nat) as int);
        lemma_small_mod(0, pow2(shift as nat));
    }
}

/// A rounded significand fits the format with at most a carry on top.
pub proof fn lemma_shift_round_bound(fmt: Format, n: nat, k: int, sticky: bool)
    ensures
        shift_round(n, ulp_exp(fmt, n, k) - k, sticky) <= 2 * fmt.hidden(),
{
    fmt.lemma_constants();
    lemma_bit_len_bounds(n);
    let p = fmt.precision();
    let bl = bit_len(n);
    let q = ulp_exp(fmt, n, k);
    let shift = q - k;
    if n == 0 {
        lemma_shift_round_zero(shift, sticky);
    } else if shift <= 0 {
        let s = (-shift) as nat;
        lemma_pow2_adds(bl, s);
        lemma_pow2_pos(s);
        if n > 0 {
            lemma_mul_strict_inequality(n as int, pow2(bl) as int, pow2(s) as int);
        } else {
            lemma_mul_basics(pow2(s) as int);
        }
        if bl + s < p {
            lemma_pow2_strictly_increases(bl + s, p);
        }
    } else {
        let d = pow2(shift as nat);
        lemma_pow2_pos(shift as nat);
        lemma_pow2_pos(p);
        let kept = n / d;
        lemma_fundamental_div_mod(n as int, d as int);
        lemma_mod_bound(n as int, d as int);
        if bl <= shift {
            if bl < shift {
                lemma_pow2_strictly_increases(bl, shift as nat);
            }
            lemma_basic_div(n as int, d as int);
            assert(kept == 0);
            lemma2_to64();
            if p > 1 {
                lemma_pow2_strictly_increases(0, p);
            }
        } else {
            let hi = pow2((bl - shift) as nat);
            lemma_pow2_adds((bl - shift) as nat, shift as nat);
            if kept >= hi {
                lemma_mul_inequality(hi as int, kept as int, d as int);
                lemma_mul_is_commutative(d as int, kept as int);
                assert(false);
            }
            if bl - shift < p {
                lemma_pow2_strictly_increases((bl - shift) as nat, p);
            }
        }
    }
}

/// Rounding does not depend on how many bits a truncation keeps, as long as
/// it keeps one more than the precision: the `j` lowest bits of `n` may be
/// folded into the sticky flag.
#[verifier::rlimit(40)]
pub proof fn lemma_round_compress(fmt: Format, neg: bool, n: nat, k: int, sticky: bool, j: nat)
    requires
        n / pow2(j) >= 2 * fmt.hidden(),
    ensures
        round(fmt, neg, n, k, sticky) == round(
            fmt,
            neg,
            n / pow2(j),
            k + j,
            sticky || n % pow2(j) != 0,
        ),
{
    reveal(round);
    fmt.lemma_constants();
    let p = fmt.precision();
    let dj = pow2(j);
    lemma_pow2_pos(j);
    let n1 = n / dj;
    let low = n % dj;
    lemma_fundamental_div_mod(n as int, dj as int);
    lemma_mod_bound(n as int, dj as int);
    assert(n >= dj) by (nonlinear_arith)
        requires
            n == dj * n1 + low,
            n1 >= 1,
            low >= 0,
            dj > 0,
    ;
    lemma_bit_len_drop(n, j);
    lemma_bit_len_gt(n1, p);
    let q = ulp_exp(fmt, n, k);
    assert(q == ulp_exp(fmt, n1, k + j));
    let shift = q - k;
    let shift1 = shift - j;
    assert(shift1 >= 1);
    let d = pow2(shift as nat);
    let d1 = pow2(shift1 as nat);
    let half = pow2((shift - 1) as nat);
    let half1 = pow2((shift1 - 1) as nat);
    lemma_pow2_adds(j, shift1 as nat);
    lemma_pow2_adds(j, (shift1 - 1) as nat);
    lemma_pow2_pos(shift1 as nat);
    lemma_pow2_pos((shift1 - 1) as nat);
    assert(d == dj * d1);
    assert(half == dj * half1);
    lemma_div_denominator(n as int, dj as int, d1 as int);
    lemma_mod_breakdown(n as int, dj as int, d1 as int);
    let kept = n / d;
    let dropped = n % d;
    let dropped1 = n1 % d1;
    assert(kept == n1 / d1);
    assert(dropped == dj * dropped1 + low);
    assert(dropped > half <==> (dropped1 > half1 || (dropped1 == half1 && low > 0)))
        by (nonlinear_arith)
        requires
            dropped == dj * dropped1 + low,
            half == dj * half1,
            0 <= low < dj,
    ;
    assert(dropped == half <==> (dropped1 == half1 && low == 0)) by (nonlinear_arith)
        requires
            dropped == dj * dropped1 + low,
            half == dj * half1,
            0 <= low < dj,
    ;
    assert(shift_round(n, shift, sticky) == shift_round(n1, shift1, sticky || low != 0));
}

/// Zero rounds to the zero of the given sign.
pub proof fn lemma_round_zero(fmt: Format, neg: bool, k: int, sticky: bool)
    ensures
        round(fmt, neg, 0, k, sticky) == fmt.zero(neg),
{
    reveal(round);
    let q = ulp_exp(fmt, 0, k);
    lemma_shift_round_zero(q - k, sticky);
    assert((q - fmt.min_exp()) * fmt.hidden() == 0) by (nonlinear_arith)
        requires
            q - fmt.min_exp() == 0,
    ;
}

/// Rounding is symmetric about zero: the other sign gives the negated
/// pattern.
pub proof fn lemma_round_negate(fmt: Format, neg: bool, n: nat, k: int, sticky: bool)
    ensures
        round(fmt, !neg, n, k, sticky) == negate(fmt, round(fmt, neg, n, k, sticky)),
        round(fmt, false, n, k, sticky) <= fmt.inf(),
        round(fmt, true, n, k, sticky) == fmt.sign() + round(fmt, false, n, k, sticky),
{
    reveal(round);
}

/// A finite pattern is the encoding of what it decodes to.
pub proof fn lemma_encode_decode(fmt: Format, bits: nat)
    requires
        bits < 2 * fmt.sign(),
    ensures
        match decode(fmt, bits) {
            Value::Fin { neg, mant, exp } => encode(fmt, neg, mant, exp) == bits,
            Value::Inf { neg } => bits == fmt.infinity(neg),
            Value::Nan => true,
        },
{
    let mag = magnitude(fmt, bits);
    if mag < fmt.inf() {
        let h = fmt.hidden() as int;
        lemma_fundamental_div_mod(mag as int, h);
        lemma_mod_bound(mag as int, h);
        let field = mag as int / h;
        let frac = mag as int % h;
        assert(field >= 0) by (nonlinear_arith)
            requires
                mag == h * field + frac,
                0 <= frac < h,
                mag >= 0,
        ;
        if field == 0 {
            assert((fmt.min_exp() - fmt.min_exp()) * h + frac == mag) by (nonlinear_arith)
                requires
                    mag == h * field + frac,
                    field == 0,
            ;
        } else {
            assert((fmt.min_exp() + field - 1 - fmt.min_exp()) * h + (h + frac) == mag)
                by (nonlinear_arith)
                requires
                    mag == h * field + frac,
            ;
        }
    }
}

/// A number of the format rounds to itself, however many zero bits it is
/// written with.
#[verifier::rlimit(40)]
pub proof fn lemma_round_exact(fmt: Format, neg: bool, mant: nat, exp: int, j: nat)
    requires
        canonical(fmt, Value::Fin { neg, mant, exp }),
    ensures
        round(fmt, neg, mant * pow2(j), exp - j, false) == encode(fmt, neg, mant, exp),
{
    reveal(round);
    fmt.lemma_constants();
    let p = fmt.precision();
    let n = mant * pow2(j);
    lemma_pow2_pos(j);
    if mant == 0 {
        lemma_mul_basics(pow2(j) as int);
        assert(n == 0);
        lemma_round_zero(fmt, neg, exp - j, false);
        assert((exp - fmt.min_exp()) * fmt.hidden() == 0) by (nonlinear_arith)
            requires
                exp - fmt.min_exp() == 0,
        ;
    } else {
        lemma_bit_len_scale(mant, j);
        lemma_bit_len_le(mant, p);
        if exp > fmt.min_exp() {
            lemma_bit_len_unique(mant, p);
        }
        let q = ulp_exp(fmt, n, exp - j);
        assert(q == exp);
        if j > 0 {
            let d = pow2(j);
            lemma_pow2_pos((j - 1) as nat);
            lemma_fundamental_div_mod_converse(n as int, d as int, mant as int, 0);
        } else {
            assert(pow2(0) == 1) by {
                lemma2_to64();
            }
            assert(n == mant);
            assert(mant * pow2(0) == mant);
        }
        assert(shift_round(n, j as int, false) == mant);
    }
}

/// Negating a pattern negates what it denotes.
pub proof fn lemma_decode_negate(fmt: Format, bits: nat)
    requires
        bits < 2 * fmt.sign(),
    ensures
        negate(fmt, bits) < 2 * fmt.sign(),
        negate(fmt, negate(fmt, bits)) == bits,
        match decode(fmt, bits) {
            Value::Fin { neg, mant, exp } => decode(fmt, negate(fmt, bits)) == (Value::Fin {
                neg: !neg,
                mant,
                exp,
            }),
            Value::Inf { neg } => decode(fmt, negate(fmt, bits)) == (Value::Inf { neg: !neg }),
            Value::Nan => decode(fmt, negate(fmt, bits)) is Nan,
        },
{
}

/// `shift_round` picks a nearest integer: the result times `2^shift` is
/// within half of `2^shift` of `n`, and exactly half away only where the
/// result is even. With nothing to drop it is exact.
pub proof fn lemma_shift_round_nearest(n: nat, shift: int)
    ensures
        ({
            let m = shift_round(n, shift, false);
            if shift <= 0 {
                m == n * pow2((-shift) as nat)
            } else {
                let d = pow2(shift as nat) as int;
                &&& -d <= 2 * (m * d - n) <= d
                &&& (2 * (m * d - n) == d || 2 * (m * d - n) == -d) ==> m % 2 == 0
            }
        }),
{
    if shift > 0 {
        let d = pow2(shift as nat) as int;
        let half = pow2((shift - 1) as nat) as int;
        lemma_pow2_pos(shift as nat);
        lemma_pow2_unfold(shift as nat);
        lemma_fundamental_div_mod(n as int, d);
        lemma_mod_bound(n as int, d);
        let kept = n as int / d;
        let dropped = n as int % d;
        let m = shift_round(n, shift, false) as int;
        assert(m * d - n == if m == kept {
            -dropped
        } else {
            d - dropped
        }) by (nonlinear_arith)
            requires
                n == d * kept + dropped,
                m == kept || m == kept + 1,
        ;
    }
}

/// What `encode` gives denotes the number it was given: `m * 2^q`, with a
/// carry moved into the exponent, as long as that is within range.
pub proof fn lemma_decode_encode(fmt: Format, neg: bool, m: nat, q: int)
    requires
        m <= 2 * fmt.hidden(),
        q >= fmt.min_exp(),
        q > fmt.min_exp() ==> m >= fmt.hidden(),
        (q - fmt.min_exp()) * fmt.hidden() + m < fmt.inf(),
    ensures
        decode(fmt, encode(fmt, neg, m, q)) == if m == 2 * fmt.hidden() {
            Value::Fin { neg, mant: fmt.hidden(), exp: q + 1 }
        } else {
            Value::Fin { neg, mant: m, exp: q }
        },
{
    let h = fmt.hidden() as int;
    let steps = q - fmt.min_exp();
    let raw = steps * h + m;
    assert(steps * h >= 0) by (nonlinear_arith)
        requires
            steps >= 0,
            h > 0,
    ;
    if m == 2 * h {
        assert(raw == h * (steps + 2) + 0) by (nonlinear_arith)
            requires
                raw == steps * h + m,
                m == 2 * h,
        ;
        lemma_fundamental_div_mod_converse(raw, h, steps + 2, 0);
    } else if m >= h {
        assert(raw == h * (steps + 1) + (m - h)) by (nonlinear_arith)
            requires
                raw == steps * h + m,
        ;
        lemma_fundamental_div_mod_converse(raw, h, steps + 1, m - h);
    } else {
        assert(raw == h * 0 + m) by (nonlinear_arith)
            requires
                raw == steps * h + m,
                steps == 0,
        ;
        lemma_fundamental_div_mod_converse(raw, h, 0, m as int);
    }
}

/// The rounded significand of a number that is at least the smallest normal
/// number before rounding has its leading bit set.
pub proof fn lemma_rounded_is_normalised(fmt: Format, n: nat, k: int, sticky: bool)
    requires
        n > 0,
        bit_len(n) + k - fmt.precision() >= fmt.min_exp(),
    ensures
        shift_round(n, ulp_exp(fmt, n, k) - k, sticky) >= fmt.hidden(),
{
    fmt.lemma_constants();
    let h = fmt.hidden() as int;
    let p = fmt.precision();
    let q = ulp_exp(fmt, n, k);
    let shift = q - k;
    lemma_bit_len_bounds(n);
    let bl = bit_len(n);
    assert(shift == bl - p);
    if shift <= 0 {
        let s = (-shift) as nat;
        lemma_pow2_adds((bl - 1) as nat, s);
        lemma_pow2_pos(s);
        lemma_mul_inequality(pow2((bl - 1) as nat) as int, n as int, pow2(s) as int);
    } else {
        let d = pow2(shift as nat);
        lemma_pow2_pos(shift as nat);
        lemma_fundamental_div_mod(n as int, d as int);
        lemma_mod_bound(n as int, d as int);
        lemma_pow2_adds((p - 1) as nat, shift as nat);
        let kept = n / d;
        if kept < h {
            lemma_mul_inequality((kept + 1) as int, h, d as int);
            lemma_mul_is_distributive_add_other_way(d as int, kept as int, 1);
            lemma_mul_is_commutative(d as int, kept as int);
            assert(false);
        }
    }
}

/// What `round` gives for an exact number `n * 2^k`.
///
/// With `q` the exponent of the last kept bit and `m` the rounded
/// significand: `m * 2^q` is the multiple of `2^q` nearest to `n * 2^k`, the
/// even one of two that are equally near; `m` fits the precision with at most
/// a carry and is normalised wherever `q` is above the subnormal exponent;
/// and the result denotes `m * 2^q`, or is an infinity where that is beyond
/// the largest finite number.
pub proof fn lemma_round_meaning(fmt: Format, neg: bool, n: nat, k: int)
    ensures
        ({
            let q = ulp_exp(fmt, n, k);
            let shift = q - k;
            let m = shift_round(n, shift, false);
            let r = round(fmt, neg, n, k, false);
            let d = pow2((if shift > 0 {
                shift
            } else {
                0
            }) as nat) as int;
            &&& q >= fmt.min_exp()
            &&& m <= 2 * fmt.hidden()
            &&& q > fmt.min_exp() ==> m >= fmt.hidden()
            &&& shift <= 0 ==> m == n * pow2((-shift) as nat)
            &&& shift > 0 ==> -d <= 2 * (m * d - n) <= d
            &&& shift > 0 && (2 * (m * d - n) == d || 2 * (m * d - n) == -d) ==> m % 2 == 0
            &&& (q - fmt.min_exp()) * fmt.hidden() + m >= fmt.inf() ==> r == fmt.infinity(neg)
            &&& (q - fmt.min_exp()) * fmt.hidden() + m < fmt.inf() ==> decode(fmt, r) == if m == 2
                * fmt.hidden() {
                Value::Fin { neg, mant: fmt.hidden(), exp: q + 1 }
            } else {
                Value::Fin { neg, mant: m, exp: q }
            }
        }),
{
    reveal(round);
    let q = ulp_exp(fmt, n, k);
    let shift = q - k;
    let m = shift_round(n, shift, false);
    lemma_shift_round_bound(fmt, n, k, false);
    lemma_shift_round_nearest(n, shift);
    if q > fmt.min_exp() {
        lemma_rounded_is_normalised(fmt, n, k, false);
    }
    if (q - fmt.min_exp()) * fmt.hidden() + m < fmt.inf() {
        lemma_decode_encode(fmt, neg, m, q);
    }
}

/// Rounds the number that `n`, `k` and `sticky` stand for, and packs it.
#[verifier::rlimit(40)]
pub fn round_pack(fmt: Format, neg: bool, n: u128, k: i32, sticky: bool) -> (r: u64)
    ensures
        r == round(fmt, neg, n as nat, k as int, sticky),
{
    proof {
        reveal(round);
    }
    if n == 0 {
        proof {
            lemma_round_zero(fmt, neg, k as int, sticky);
        }
        return fmt.zero_bits(neg);
    }
    let bl: i64 = bit_len_u128(n) as i64;
    let p: i64 = fmt.precision_bits();
    let emin: i64 = fmt.min_exponent();
    let e: i64 = bl + (k as i64) - p;
    let q: i64 = if e < emin {
        emin
    } else {
        e
    };
    let shift: i64 = q - (k as i64);
    proof {
        fmt.lemma_constants();
        lemma_bit_len_bounds(n as nat);
        lemma_shift_round_bound(fmt, n as nat, k as int, sticky);
        lemma_pow2_128();
        lemma2_to64();
        assert(q == ulp_exp(fmt, n as nat, k as int));
    }
    let m: u128;
    if shift <= 0 {
        let s: u32 = (-shift) as u32;
        let w: u128 = pow2_u128(s);
        m = n * w;
    } else if shift > 128 {
        m = 0;
        proof {
            if shift - 1 > 128 {
                lemma_pow2_strictly_increases(128, (shift - 1) as nat);
            }
            lemma_pow2_strictly_increases((shift - 1) as nat, shift as nat);
            lemma_basic_div(n as int, pow2(shift as nat) as int);
            lemma_small_mod(n as nat, pow2(shift as nat));
        }
    } else if shift == 128 {
        let half: u128 = pow2_u128(127);
        m = if n > half || (n == half && sticky) {
            1
        } else {
            0
        };
        proof {
            lemma_basic_div(n as int, pow2(128) as int);
            lemma_small_mod(n as nat, pow2(128));
        }
    } else {
        let d: u128 = pow2_u128(shift as u32);
        let half: u128 = pow2_u128((shift - 1) as u32);
        proof {
            lemma_pow2_pos(shift as nat);
        }
        let kept: u128 = n / d;
        let dropped: u128 = n % d;
        m = if dropped > half || (dropped == half && (sticky || kept % 2 == 1)) {
            kept + 1
        } else {
            kept
        };
    }
    assert(m == shift_round(n as nat, shift as int, sticky));
    let steps: i64 = q - emin;
    let h: u64 = fmt.hidden_bit();
    let inf: u64 = fmt.inf_bits();
    let limit: i64 = (inf / h) as i64;
    let mag: u64 = if steps >= limit {
        proof {
            assert(steps * h >= limit * h) by (nonlinear_arith)
                requires
                    steps >= limit,
                    h >= 0,
            ;
        }
        inf
    } else {
        proof {
            assert(steps * h <= (limit - 1) * h) by (nonlinear_arith)
                requires
                    steps <= limit - 1,
                    h >= 0,
            ;
            assert(steps * h >= 0) by (nonlinear_arith)
                requires
                    steps >= 0,
                    h >= 0,
            ;
        }
        let raw: u64 = (steps as u64) * h + (m as u64);
        if raw >= inf {
            inf
        } else {
            raw
        }
    };
    if neg {
        fmt.sign_bit() + mag
    } else {
        mag
    }
}

} // verus!
