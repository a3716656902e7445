//! Scaling by powers of two: multiplying a normal number by `2^j` only moves
//! its exponent, and every rounded operation carries such a factor through,
//! as long as no result leaves the range of the normal numbers.
use crate::ieee::arith::{add_spec, div_spec, mul_spec, scaled, sub_spec};
use crate::ieee::format::{Format, Value, decode, lemma_decode_canonical, magnitude, negate};
use crate::ieee::identities::{
    lemma_add_commutes, lemma_add_zero, lemma_decode_zero, lemma_mul_commutes,
    lemma_zero_times_finite,
};
use crate::ieee::order::is_zero;
use crate::ieee::pow::{
    bit_len, lemma_bit_len_bounds, lemma_bit_len_gt, lemma_bit_len_scale, lemma_bit_len_unique,
};
use crate::ieee::root::{isqrt, lemma_isqrt_bounds, sqrt_spec};
use crate::ieee::rounding::{
    lemma_encode_decode, lemma_round_exact, lemma_round_zero, lemma_rounded_is_normalised,
    lemma_shift_round_zero, round,
    shift_round, ulp_exp,
};
use vstd::arithmetic::div_mod::*;
use vstd::arithmetic::mul::*;
use vstd::arithmetic::power2::*;
use vstd::prelude::*;

verus! {

/// The pattern of `2^j` times the number of `r`, for an `r` that is a zero,
/// a normal number, an infinity or a NaN: zeros and NaNs are kept, the
/// exponent field of a number goes up by `j`, and what passes the largest
/// finite number becomes an infinity.
pub open spec fn times_pow2(fmt: Format, r: nat, j: nat) -> nat {
    let mag = magnitude(fmt, r);
    if mag == 0 || mag > fmt.inf() {
        r
    } else if mag + j * fmt.hidden() >= fmt.inf() {
        (r - mag + fmt.inf()) as nat
    } else {
        r + j * fmt.hidden()
    }
}

/// Whether `a` is a normal number that stays finite when multiplied by
/// `2^j`.
pub open spec fn raisable(fmt: Format, a: nat, j: nat) -> bool {
    &&& a < 2 * fmt.sign()
    &&& fmt.hidden() <= magnitude(fmt, a)
    &&& magnitude(fmt, a) + j * fmt.hidden() < fmt.inf()
}

/// Whether `r` is above the subnormal range: a normal number other than the
/// smallest, an infinity or a NaN.
pub open spec fn above_subnormal(fmt: Format, r: nat) -> bool {
    magnitude(fmt, r) > fmt.hidden()
}

/// Raising a normal number by `j` adds `j` to its exponent and leaves sign
/// and significand.
pub proof fn lemma_decode_raised(fmt: Format, a: nat, j: nat)
    requires
        raisable(fmt, a, j),
    ensures
        times_pow2(fmt, a, j) == a + j * fmt.hidden(),
        raisable(fmt, times_pow2(fmt, a, j), 0),
        match decode(fmt, a) {
            Value::Fin { neg, mant, exp } => mant >= fmt.hidden() && decode(
                fmt,
                times_pow2(fmt, a, j),
            ) == (Value::Fin { neg, mant, exp: exp + j }),
            _ => false,
        },
{
    let h = fmt.hidden() as int;
    let mag = magnitude(fmt, a) as int;
    let up = mag + j * h;
    assert(j * h >= 0) by (nonlinear_arith)
        requires
            j >= 0,
            h > 0,
    ;
    lemma_fundamental_div_mod(mag, h);
    lemma_mod_bound(mag, h);
    let field = mag / h;
    let frac = mag % h;
    assert(field >= 1) by (nonlinear_arith)
        requires
            mag == h * field + frac,
            0 <= frac < h,
            mag >= h,
    ;
    assert(up == h * (field + j) + frac) by (nonlinear_arith)
        requires
            up == mag + j * h,
            mag == h * field + frac,
    ;
    lemma_fundamental_div_mod_converse(up, h, field + j, frac);
    assert(magnitude(fmt, times_pow2(fmt, a, j)) == up);
}

/// What is below the smallest normal number before rounding is not above it
/// after.
pub proof fn lemma_below_normal(fmt: Format, neg: bool, n: nat, k: int, sticky: bool)
    requires
        n == 0 || bit_len(n) + k - fmt.precision() < fmt.min_exp(),
    ensures
        !above_subnormal(fmt, round(fmt, neg, n, k, sticky)),
{
    reveal(round);
    fmt.lemma_constants();
    let p = fmt.precision();
    let q = ulp_exp(fmt, n, k);
    assert(q == fmt.min_exp());
    let shift = q - k;
    let m = shift_round(n, shift, sticky);
    assert((q - fmt.min_exp()) * fmt.hidden() == 0) by (nonlinear_arith)
        requires
            q - fmt.min_exp() == 0,
    ;
    if n == 0 {
        lemma_shift_round_zero(shift, sticky);
    } else {
        lemma_bit_len_bounds(n);
        let bl = bit_len(n);
        // bl - shift <= p - 1
        if shift <= 0 {
            let s = (-shift) as nat;
            lemma_pow2_adds(bl, s);
            lemma_pow2_pos(s);
            lemma_mul_strict_inequality(n as int, pow2(bl) as int, pow2(s) as int);
            if bl + s < p - 1 {
                lemma_pow2_strictly_increases(bl + s, (p - 1) as nat);
            }
        } else {
            let d = pow2(shift as nat);
            lemma_pow2_pos(shift as nat);
            let kept = n / d;
            lemma_fundamental_div_mod(n as int, d as int);
            lemma_mod_bound(n as int, d as int);
            if bl <= shift {
                if bl < shift {
                    lemma_pow2_strictly_increases(bl, shift as nat);
                }
                lemma_basic_div(n as int, d as int);
                lemma_pow2_pos((p - 1) as nat);
            } else {
                let hi = pow2((bl - shift) as nat);
                lemma_pow2_adds((bl - shift) as nat, shift as nat);
                if kept >= hi {
                    lemma_mul_inequality(hi as int, kept as int, d as int);
                    lemma_mul_is_commutative(d as int, kept as int);
                    assert(false);
                }
                if bl - shift < p - 1 {
                    lemma_pow2_strictly_increases((bl - shift) as nat, (p - 1) as nat);
                }
            }
        }
        assert(m <= fmt.hidden());
    }
}

/// Rounding carries a factor `2^j` through, for a number that is at least
/// the smallest normal number before rounding.
pub proof fn lemma_round_scaled_from_length(
    fmt: Format,
    neg: bool,
    n: nat,
    k: int,
    sticky: bool,
    j: nat,
)
    requires
        n > 0,
        bit_len(n) + k - fmt.precision() >= fmt.min_exp(),
    ensures
        round(fmt, neg, n, k + j, sticky) == times_pow2(fmt, round(fmt, neg, n, k, sticky), j),
        magnitude(fmt, round(fmt, neg, n, k, sticky)) >= fmt.hidden(),
{
    reveal(round);
    fmt.lemma_constants();
    let h = fmt.hidden() as int;
    let p = fmt.precision();
    let q = ulp_exp(fmt, n, k);
    assert(ulp_exp(fmt, n, k + j) == q + j);
    let shift = q - k;
    let m = shift_round(n, shift, sticky);
    assert(shift_round(n, (q + j) - (k + j), sticky) == m);
    lemma_rounded_is_normalised(fmt, n, k, sticky);
    let raw = (q - fmt.min_exp()) * h + m;
    let raw2 = (q + j - fmt.min_exp()) * h + m;
    assert(raw2 == raw + j * h) by (nonlinear_arith)
        requires
            raw == (q - fmt.min_exp()) * h + m,
            raw2 == (q + j - fmt.min_exp()) * h + m,
    ;
    assert(j * h >= 0) by (nonlinear_arith)
        requires
            j >= 0,
            h > 0,
    ;
    assert(raw >= m) by (nonlinear_arith)
        requires
            raw == (q - fmt.min_exp()) * h + m,
            q >= fmt.min_exp(),
            h > 0,
    ;
}

/// Rounding carries a factor `2^j` through, for a result above the
/// subnormal range.
pub proof fn lemma_round_scaled(fmt: Format, neg: bool, n: nat, k: int, sticky: bool, j: nat)
    requires
        above_subnormal(fmt, round(fmt, neg, n, k, sticky)),
    ensures
        round(fmt, neg, n, k + j, sticky) == times_pow2(fmt, round(fmt, neg, n, k, sticky), j),
{
    if n == 0 || bit_len(n) + k - fmt.precision() < fmt.min_exp() {
        lemma_below_normal(fmt, neg, n, k, sticky);
    } else {
        lemma_round_scaled_from_length(fmt, neg, n, k, sticky, j);
    }
}

/// A product carries a factor `2^j` of its first factor through.
#[verifier::rlimit(40)]
pub proof fn lemma_mul_scaled(fmt: Format, a: nat, b: nat, j: nat)
    requires
        raisable(fmt, a, j),
        above_subnormal(fmt, mul_spec(fmt, a, b)) || is_zero(fmt, b),
    ensures
        mul_spec(fmt, times_pow2(fmt, a, j), b) == times_pow2(fmt, mul_spec(fmt, a, b), j),
{
    reveal(mul_spec);
    lemma_decode_raised(fmt, a, j);
    lemma_decode_zero(fmt, false);
    lemma_decode_zero(fmt, true);
    match (decode(fmt, a), decode(fmt, b)) {
        (Value::Fin { neg: x, mant: ma, exp: ea }, Value::Fin { neg: y, mant: mb, exp: eb }) => {
            if is_zero(fmt, b) {
                lemma_mul_basics(ma as int);
                lemma_round_zero(fmt, x != y, ea + eb, false);
                lemma_round_zero(fmt, x != y, ea + j + eb, false);
            } else {
                lemma_round_scaled(fmt, x != y, ma * mb, ea + eb, false, j);
            }
        },
        _ => {},
    }
}

/// A quotient carries a factor `2^j` of its dividend through.
#[verifier::rlimit(40)]
pub proof fn lemma_div_scaled_dividend(fmt: Format, a: nat, b: nat, j: nat)
    requires
        raisable(fmt, a, j),
        above_subnormal(fmt, div_spec(fmt, a, b)),
    ensures
        div_spec(fmt, times_pow2(fmt, a, j), b) == times_pow2(fmt, div_spec(fmt, a, b), j),
{
    reveal(div_spec);
    lemma_decode_raised(fmt, a, j);
    match (decode(fmt, a), decode(fmt, b)) {
        (Value::Fin { neg: x, mant: ma, exp: ea }, Value::Fin { neg: y, mant: mb, exp: eb }) => {
            if mb != 0 {
                let num = ma * pow2(128);
                lemma_round_scaled(fmt, x != y, num / mb, ea - eb - 128, num % mb != 0, j);
            }
        },
        _ => {},
    }
}

/// A quotient is `2^j` times the quotient by a divisor `2^j` times as
/// large.
#[verifier::rlimit(40)]
pub proof fn lemma_div_scaled_divisor(fmt: Format, a: nat, b: nat, j: nat)
    requires
        raisable(fmt, b, j),
        above_subnormal(fmt, div_spec(fmt, a, times_pow2(fmt, b, j))),
    ensures
        div_spec(fmt, a, b) == times_pow2(fmt, div_spec(fmt, a, times_pow2(fmt, b, j)), j),
{
    let b2 = times_pow2(fmt, b, j);
    lemma_decode_raised(fmt, b, j);
    match (decode(fmt, a), decode(fmt, b)) {
        (Value::Fin { neg: x, mant: ma, exp: ea }, Value::Fin { neg: y, mant: mb, exp: eb }) => {
            assert(decode(fmt, b2) == Value::Fin { neg: y, mant: mb, exp: eb + j });
            let num = ma * pow2(128);
            let lo = round(fmt, x != y, num / mb, ea - (eb + j) - 128, num % mb != 0);
            let hi = round(fmt, x != y, num / mb, ea - eb - 128, num % mb != 0);
            assert(div_spec(fmt, a, b2) == lo) by {
                reveal(div_spec);
            }
            assert(div_spec(fmt, a, b) == hi) by {
                reveal(div_spec);
            }
            lemma_round_scaled(fmt, x != y, num / mb, ea - (eb + j) - 128, num % mb != 0, j);
        },
        (Value::Fin { neg: x, .. }, _) => {
            assert(false);
        },
        (Value::Inf { neg: x }, Value::Fin { neg: y, .. }) => {
            assert(div_spec(fmt, a, b2) == fmt.infinity(x != y)) by {
                reveal(div_spec);
            }
            assert(div_spec(fmt, a, b) == fmt.infinity(x != y)) by {
                reveal(div_spec);
            }
        },
        (Value::Nan, _) => {
            assert(div_spec(fmt, a, b2) == fmt.nan()) by {
                reveal(div_spec);
            }
            assert(div_spec(fmt, a, b) == fmt.nan()) by {
                reveal(div_spec);
            }
        },
        _ => {
            assert(false);
        },
    }
}

/// A quotient does not change when dividend and divisor both take a factor
/// `2^j`.
#[verifier::rlimit(40)]
pub proof fn lemma_div_scaled_both(fmt: Format, a: nat, b: nat, j: nat)
    requires
        raisable(fmt, a, j) || is_zero(fmt, a),
        raisable(fmt, b, j),
    ensures
        div_spec(fmt, times_pow2(fmt, a, j), times_pow2(fmt, b, j)) == div_spec(fmt, a, b),
{
    reveal(div_spec);
    lemma_decode_raised(fmt, b, j);
    if is_zero(fmt, a) {
        lemma_decode_zero(fmt, false);
        lemma_decode_zero(fmt, true);
        match decode(fmt, b) {
            Value::Fin { neg: y, mant: mb, exp: eb } => {
                let neg = a >= fmt.sign();
                lemma_mul_basics(pow2(128) as int);
                lemma_basic_div(0, mb as int);
                lemma_small_mod(0, mb);
                lemma_round_zero(fmt, neg != y, fmt.min_exp() - eb - 128, false);
                lemma_round_zero(fmt, neg != y, fmt.min_exp() - (eb + j) - 128, false);
            },
            _ => {},
        }
    } else {
        lemma_decode_raised(fmt, a, j);
    }
}

/// The pattern of 2.
pub open spec fn two() -> nat {
    0x4000_0000_0000_0000
}

/// The pattern of 4.
pub open spec fn four() -> nat {
    0x4010_0000_0000_0000
}

/// Multiplying by the number `2^j`, for `j` of 1 or 2, is scaling by it:
/// for a zero, a normal number or an infinity, and for the NaN of the
/// format.
#[verifier::rlimit(40)]
pub proof fn lemma_times_two_or_four(r: nat, j: nat)
    requires
        1 <= j <= 2,
        r < 0x1_0000_0000_0000_0000,
        ({
            let fmt = Format::Binary64;
            ||| is_zero(fmt, r)
            ||| r == fmt.nan()
            ||| fmt.hidden() <= magnitude(fmt, r) <= fmt.inf()
        }),
    ensures
        mul_spec(Format::Binary64, r, if j == 1 { two() } else { four() }) == times_pow2(
            Format::Binary64,
            r,
            j,
        ),
{
    let fmt = Format::Binary64;
    let f = if j == 1 {
        two()
    } else {
        four()
    };
    reveal(mul_spec);
    fmt.lemma_constants();
    let h = fmt.hidden();
    assert(f / h == 1023 + j && f % h == 0) by {
        lemma_fundamental_div_mod_converse(f as int, h as int, (1023 + j) as int, 0);
    }
    assert(decode(fmt, f) == Value::Fin { neg: false, mant: h, exp: j - 52 });
    lemma_decode_zero(fmt, false);
    lemma_decode_zero(fmt, true);
    lemma_decode_canonical(fmt, r);
    lemma_encode_decode(fmt, r);
    match decode(fmt, r) {
        Value::Fin { neg, mant, exp } => {
            if mant == 0 {
                lemma_mul_basics(h as int);
                lemma_round_zero(fmt, neg, exp + j - 52, false);
                assert(is_zero(fmt, r)) by {
                    assert((exp - fmt.min_exp()) * h == 0) by (nonlinear_arith)
                        requires
                            exp - fmt.min_exp() == 0,
                    ;
                }
            } else {
                assert(!is_zero(fmt, r)) by {
                    lemma_decode_zero(fmt, neg);
                }
                lemma_round_exact(fmt, neg, mant, exp, 52);
                lemma_bit_len_unique(mant, 53);
                lemma_bit_len_scale(mant, 52);
                lemma_round_scaled_from_length(fmt, neg, mant * pow2(52), exp - 52, false, j);
            }
        },
        _ => {},
    }
}

/// Whether `r` is a normal number with room on both sides: above the
/// smallest normal number, and finite when multiplied by `2^j`.
pub open spec fn roomy(fmt: Format, r: nat, j: nat) -> bool {
    raisable(fmt, r, j) && above_subnormal(fmt, r)
}

/// A product is the NaN of the format or a number.
pub proof fn lemma_product_nan_or_number(fmt: Format, a: nat, b: nat)
    ensures
        mul_spec(fmt, a, b) == fmt.nan() || magnitude(fmt, mul_spec(fmt, a, b)) <= fmt.inf(),
        mul_spec(fmt, a, b) < 2 * fmt.sign(),
{
    reveal(round);
    reveal(mul_spec);
}

/// A product carries a factor two or four of either factor through to the
/// result, which is then the product times the number two or four.
pub proof fn lemma_mul_by_two_or_four(a: nat, b: nat, j: nat)
    requires
        1 <= j <= 2,
        raisable(Format::Binary64, a, j),
        above_subnormal(Format::Binary64, mul_spec(Format::Binary64, a, b)) || is_zero(
            Format::Binary64,
            b,
        ),
    ensures
        ({
            let fmt = Format::Binary64;
            let f = if j == 1 {
                two()
            } else {
                four()
            };
            &&& mul_spec(fmt, times_pow2(fmt, a, j), b) == mul_spec(fmt, mul_spec(fmt, a, b), f)
            &&& mul_spec(fmt, b, times_pow2(fmt, a, j)) == mul_spec(fmt, mul_spec(fmt, b, a), f)
        }),
{
    let fmt = Format::Binary64;
    let r = mul_spec(fmt, a, b);
    lemma_mul_scaled(fmt, a, b, j);
    lemma_mul_commutes(fmt, a, b);
    lemma_mul_commutes(fmt, times_pow2(fmt, a, j), b);
    lemma_product_nan_or_number(fmt, a, b);
    if is_zero(fmt, b) && !above_subnormal(fmt, r) {
        // a normal number times a zero is a zero
        reveal(mul_spec);
        lemma_decode_raised(fmt, a, j);
        lemma_decode_zero(fmt, false);
        lemma_decode_zero(fmt, true);
        match decode(fmt, a) {
            Value::Fin { neg: x, mant: ma, exp: ea } => {
                lemma_mul_basics(ma as int);
                lemma_round_zero(fmt, x != (b >= fmt.sign()), ea + fmt.min_exp(), false);
            },
            _ => {},
        }
        assert(is_zero(fmt, r));
    }
    lemma_times_two_or_four(r, j);
}

/// Whether `a` is a zero or a normal number that stays finite when
/// multiplied by `2^j`.
pub open spec fn zero_or_raisable(fmt: Format, a: nat, j: nat) -> bool {
    is_zero(fmt, a) || raisable(fmt, a, j)
}

/// Scaling and negating commute.
pub proof fn lemma_negate_scaled(fmt: Format, a: nat, j: nat)
    requires
        zero_or_raisable(fmt, a, j),
    ensures
        negate(fmt, times_pow2(fmt, a, j)) == times_pow2(fmt, negate(fmt, a), j),
        zero_or_raisable(fmt, negate(fmt, a), j),
{
    assert(j * fmt.hidden() >= 0) by (nonlinear_arith)
        requires
            j >= 0,
            fmt.hidden() > 0,
    ;
}

/// Scaling twice is scaling by the product, while the number stays finite.
pub proof fn lemma_times_pow2_twice(fmt: Format, a: nat, i: nat, j: nat)
    requires
        zero_or_raisable(fmt, a, i + j),
    ensures
        times_pow2(fmt, times_pow2(fmt, a, i), j) == times_pow2(fmt, a, i + j),
        zero_or_raisable(fmt, times_pow2(fmt, a, i), j),
        zero_or_raisable(fmt, a, i),
{
    let h = fmt.hidden() as int;
    assert(i * h >= 0 && j * h >= 0 && (i + j) * h == i * h + j * h) by (nonlinear_arith)
        requires
            i >= 0,
            j >= 0,
            h > 0,
    ;
}

/// A number other than zero, written without a fraction below the smallest
/// subnormal, does not round to zero.
pub proof fn lemma_round_nonzero(fmt: Format, neg: bool, n: nat, k: int)
    requires
        n > 0,
        k >= fmt.min_exp(),
    ensures
        magnitude(fmt, round(fmt, neg, n, k, false)) > 0,
{
    reveal(round);
    fmt.lemma_constants();
    if bit_len(n) + k - fmt.precision() >= fmt.min_exp() {
        lemma_round_scaled_from_length(fmt, neg, n, k, false, 0);
    } else {
        let q = ulp_exp(fmt, n, k);
        let shift = q - k;
        let s = (-shift) as nat;
        lemma_pow2_pos(s);
        assert(n * pow2(s) > 0) by (nonlinear_arith)
            requires
                n > 0,
                pow2(s) > 0,
        ;
        assert((q - fmt.min_exp()) * fmt.hidden() == 0) by (nonlinear_arith)
            requires
                q - fmt.min_exp() == 0,
        ;
    }
}

/// The sum of two finite numbers, written out.
proof fn lemma_add_finite(fmt: Format, a: nat, b: nat)
    requires
        decode(fmt, a) is Fin,
        decode(fmt, b) is Fin,
    ensures
        match (decode(fmt, a), decode(fmt, b)) {
            (
                Value::Fin { neg: x, mant: ma, exp: ea },
                Value::Fin { neg: y, mant: mb, exp: eb },
            ) => {
                let base = if ea <= eb {
                    ea
                } else {
                    eb
                };
                let s = scaled(x, ma, ea, base) + scaled(y, mb, eb, base);
                add_spec(fmt, a, b) == if s == 0 {
                    fmt.zero(x && y)
                } else if s < 0 {
                    round(fmt, true, (-s) as nat, base, false)
                } else {
                    round(fmt, false, s as nat, base, false)
                }
            },
            _ => false,
        },
{
    reveal(add_spec);
}

/// A sum of two normal numbers carries a common factor `2^j` through.
#[verifier::rlimit(40)]
proof fn lemma_add_scaled_normal(fmt: Format, a: nat, b: nat, j: nat)
    requires
        raisable(fmt, a, j),
        raisable(fmt, b, j),
        above_subnormal(fmt, add_spec(fmt, a, b)) || is_zero(fmt, add_spec(fmt, a, b)),
    ensures
        add_spec(fmt, times_pow2(fmt, a, j), times_pow2(fmt, b, j)) == times_pow2(
            fmt,
            add_spec(fmt, a, b),
            j,
        ),
{
    let a2 = times_pow2(fmt, a, j);
    let b2 = times_pow2(fmt, b, j);
    lemma_decode_raised(fmt, a, j);
    lemma_decode_raised(fmt, b, j);
    lemma_decode_canonical(fmt, a);
    lemma_decode_canonical(fmt, b);
    lemma_add_finite(fmt, a, b);
    lemma_add_finite(fmt, a2, b2);
    match (decode(fmt, a), decode(fmt, b)) {
        (Value::Fin { neg: x, mant: ma, exp: ea }, Value::Fin { neg: y, mant: mb, exp: eb }) => {
            let base = if ea <= eb {
                ea
            } else {
                eb
            };
            let s = scaled(x, ma, ea, base) + scaled(y, mb, eb, base);
            let t = scaled(x, ma, ea + j, base + j) + scaled(y, mb, eb + j, base + j);
            assert(t == s);
            if s < 0 {
                lemma_round_nonzero(fmt, true, (-s) as nat, base);
                lemma_round_scaled(fmt, true, (-s) as nat, base, false, j);
            } else if s > 0 {
                lemma_round_nonzero(fmt, false, s as nat, base);
                lemma_round_scaled(fmt, false, s as nat, base, false, j);
            }
        },
        _ => {},
    }
}

/// A sum carries a common factor `2^j` of its terms through.
pub proof fn lemma_add_scaled(fmt: Format, a: nat, b: nat, j: nat)
    requires
        zero_or_raisable(fmt, a, j),
        zero_or_raisable(fmt, b, j),
        above_subnormal(fmt, add_spec(fmt, a, b)) || is_zero(fmt, add_spec(fmt, a, b)),
    ensures
        add_spec(fmt, times_pow2(fmt, a, j), times_pow2(fmt, b, j)) == times_pow2(
            fmt,
            add_spec(fmt, a, b),
            j,
        ),
{
    assert(j * fmt.hidden() >= 0) by (nonlinear_arith)
        requires
            j >= 0,
            fmt.hidden() > 0,
    ;
    if is_zero(fmt, a) && is_zero(fmt, b) {
        lemma_add_zero(fmt, a, b >= fmt.sign());
        assert(b == fmt.zero(b >= fmt.sign()));
        assert(is_zero(fmt, add_spec(fmt, a, b)));
    } else if is_zero(fmt, b) {
        assert(b == fmt.zero(b >= fmt.sign()));
        lemma_decode_raised(fmt, a, j);
        lemma_add_zero(fmt, a, b >= fmt.sign());
        lemma_add_zero(fmt, times_pow2(fmt, a, j), b >= fmt.sign());
    } else if is_zero(fmt, a) {
        assert(a == fmt.zero(a >= fmt.sign()));
        lemma_decode_raised(fmt, b, j);
        lemma_add_commutes(fmt, a, b);
        lemma_add_commutes(fmt, a, times_pow2(fmt, b, j));
        lemma_add_zero(fmt, b, a >= fmt.sign());
        lemma_add_zero(fmt, times_pow2(fmt, b, j), a >= fmt.sign());
    } else {
        lemma_add_scaled_normal(fmt, a, b, j);
    }
}

/// A difference carries a common factor `2^j` of its terms through.
pub proof fn lemma_sub_scaled(fmt: Format, a: nat, b: nat, j: nat)
    requires
        zero_or_raisable(fmt, a, j),
        zero_or_raisable(fmt, b, j),
        above_subnormal(fmt, sub_spec(fmt, a, b)) || is_zero(fmt, sub_spec(fmt, a, b)),
    ensures
        sub_spec(fmt, times_pow2(fmt, a, j), times_pow2(fmt, b, j)) == times_pow2(
            fmt,
            sub_spec(fmt, a, b),
            j,
        ),
{
    lemma_negate_scaled(fmt, b, j);
    lemma_add_scaled(fmt, a, negate(fmt, b), j);
}

/// A square carries the square of a factor `2^j` through.
pub proof fn lemma_square_scaled(fmt: Format, a: nat, j: nat)
    requires
        zero_or_raisable(fmt, a, j),
        zero_or_raisable(fmt, mul_spec(fmt, a, a), 2 * j),
        above_subnormal(fmt, mul_spec(fmt, a, a)) || is_zero(fmt, a),
    ensures
        mul_spec(fmt, times_pow2(fmt, a, j), times_pow2(fmt, a, j)) == times_pow2(
            fmt,
            mul_spec(fmt, a, a),
            2 * j,
        ),
{
    if !is_zero(fmt, a) {
        let a2 = times_pow2(fmt, a, j);
        let sq = mul_spec(fmt, a, a);
        lemma_mul_scaled(fmt, a, a, j);
        lemma_mul_commutes(fmt, a2, a);
        lemma_times_pow2_twice(fmt, sq, j, j);
        assert(above_subnormal(fmt, times_pow2(fmt, sq, j))) by {
            assert(j * fmt.hidden() >= 0) by (nonlinear_arith)
                requires
                    j >= 0,
                    fmt.hidden() > 0,
            ;
        }
        lemma_mul_scaled(fmt, a, a2, j);
        assert(mul_spec(fmt, a2, a2) == times_pow2(fmt, times_pow2(fmt, sq, j), j));
    } else {
        let neg = a >= fmt.sign();
        assert(a == fmt.zero(neg));
        lemma_decode_zero(fmt, neg);
        lemma_zero_times_finite(fmt, neg, a);
        assert(is_zero(fmt, mul_spec(fmt, a, a)));
    }
}

/// The root of a number that is at least `2^200` is at least `2^100`.
proof fn lemma_root_is_long(rad: nat)
    requires
        rad >= pow2(200),
    ensures
        bit_len(isqrt(rad)) >= 101,
{
    lemma_isqrt_bounds(rad);
    lemma_pow2_adds(100, 100);
    let root = isqrt(rad);
    let w = pow2(100);
    assert(root >= w) by (nonlinear_arith)
        requires
            rad < (root + 1) * (root + 1),
            rad >= w * w,
            root >= 0,
            w >= 0,
    ;
    lemma_bit_len_gt(root, 100);
}

/// The root of a positive normal number carries the root of a factor `4^j`
/// through.
proof fn lemma_sqrt_scaled_positive(fmt: Format, mant: nat, exp: int, j: nat)
    requires
        mant >= 1,
        exp >= fmt.min_exp(),
    ensures
        ({
            let odd = exp % 2;
            let rad = mant * pow2((200 + odd) as nat);
            let root = isqrt(rad);
            let k = (exp - odd) / 2 - 100;
            &&& (exp + 2 * j) % 2 == odd
            &&& (exp + 2 * j - odd) / 2 - 100 == k + j
            &&& round(fmt, false, root, k + j, root * root != rad) == times_pow2(
                fmt,
                round(fmt, false, root, k, root * root != rad),
                j,
            )
        }),
{
    let odd = exp % 2;
    let rad = mant * pow2((200 + odd) as nat);
    let root = isqrt(rad);
    let k = (exp - odd) / 2 - 100;
    lemma_pow2_pos(200);
    if odd == 1 {
        lemma_pow2_strictly_increases(200, 201);
    }
    assert(rad >= pow2(200)) by (nonlinear_arith)
        requires
            rad == mant * pow2((200 + odd) as nat),
            mant >= 1,
            pow2((200 + odd) as nat) >= pow2(200),
    ;
    lemma_root_is_long(rad);
    assert(2 * k >= exp - 1 - 200);
    lemma_round_scaled_from_length(fmt, false, root, k, root * root != rad, j);
}

/// A root carries the root of a factor `4^j` through.
#[verifier::rlimit(40)]
pub proof fn lemma_sqrt_scaled(fmt: Format, a: nat, j: nat)
    requires
        zero_or_raisable(fmt, a, 2 * j),
    ensures
        sqrt_spec(fmt, times_pow2(fmt, a, 2 * j)) == times_pow2(fmt, sqrt_spec(fmt, a), j),
{
    if is_zero(fmt, a) {
        lemma_decode_zero(fmt, false);
        lemma_decode_zero(fmt, true);
        assert(sqrt_spec(fmt, a) == a) by {
            reveal(sqrt_spec);
        }
    } else {
        let a2 = times_pow2(fmt, a, 2 * j);
        lemma_decode_raised(fmt, a, 2 * j);
        lemma_decode_canonical(fmt, a);
        match decode(fmt, a) {
            Value::Fin { neg, mant, exp } => {
                assert(decode(fmt, a2) == Value::Fin { neg, mant, exp: exp + 2 * j });
                if neg {
                    assert(sqrt_spec(fmt, a) == fmt.nan() && sqrt_spec(fmt, a2) == fmt.nan()) by {
                        reveal(sqrt_spec);
                    }
                } else {
                    let odd = exp % 2;
                    let rad = mant * pow2((200 + odd) as nat);
                    let root = isqrt(rad);
                    let k = (exp - odd) / 2 - 100;
                    lemma_sqrt_scaled_positive(fmt, mant, exp, j);
                    assert(sqrt_spec(fmt, a) == round(fmt, false, root, k, root * root != rad))
                        by {
                        reveal(sqrt_spec);
                    }
                    assert(sqrt_spec(fmt, a2) == round(
                        fmt,
                        false,
                        root,
                        k + j,
                        root * root != rad,
                    )) by {
                        reveal(sqrt_spec);
                    }
                }
            },
            _ => {},
        }
    }
}

} // verus!
