//! Identities of the rounded operations: what adding, multiplying and
//! dividing do with zeros.
use crate::ieee::arith::{add_spec, div_spec, mul_spec, scaled, sub_spec};
use crate::ieee::format::{Format, Value, decode, lemma_decode_canonical, negate};
use crate::ieee::order::{is_nan, is_zero, same_number};
use crate::ieee::root::sqrt_spec;
use crate::ieee::rounding::{
    lemma_decode_negate, lemma_encode_decode, lemma_round_exact, lemma_round_negate,
    lemma_round_zero, round,
};
use vstd::arithmetic::div_mod::*;
use vstd::arithmetic::mul::*;
use vstd::arithmetic::power2::*;
use vstd::prelude::*;

verus! {

/// Whether the pattern denotes a finite number.
pub open spec fn is_finite(fmt: Format, a: nat) -> bool {
    decode(fmt, a) is Fin
}

/// Whether the pattern denotes a finite number above zero.
pub open spec fn is_positive_finite(fmt: Format, a: nat) -> bool {
    match decode(fmt, a) {
        Value::Fin { neg, mant, exp } => !neg && mant > 0,
        _ => false,
    }
}

/// The sign that a zero pattern carries.
pub open spec fn sign_of(fmt: Format, a: nat) -> bool {
    a >= fmt.sign()
}

/// A zero pattern decodes to a zero significand.
pub proof fn lemma_decode_zero(fmt: Format, neg: bool)
    ensures
        decode(fmt, fmt.zero(neg)) == (Value::Fin { neg, mant: 0, exp: fmt.min_exp() }),
{
    let h = fmt.hidden() as int;
    lemma_basic_div(0, h);
    lemma_small_mod(0, h as nat);
}

/// Positive zero divided by a positive finite number is positive zero.
pub proof fn lemma_zero_over_positive(fmt: Format, m: nat)
    requires
        is_positive_finite(fmt, m),
    ensures
        div_spec(fmt, 0, m) == 0,
{
    reveal(div_spec);
    lemma_decode_zero(fmt, false);
    match decode(fmt, m) {
        Value::Fin { neg, mant, exp } => {
            lemma_mul_basics(pow2(128) as int);
            lemma_basic_div(0, mant as int);
            lemma_small_mod(0, mant);
            lemma_round_zero(fmt, false, fmt.min_exp() - exp - 128, false);
        },
        _ => {},
    }
}

/// A zero times a finite number is a zero, negative exactly if the signs of
/// the factors differ.
pub proof fn lemma_zero_times_finite(fmt: Format, neg: bool, k: nat)
    requires
        is_finite(fmt, k),
    ensures
        mul_spec(fmt, fmt.zero(neg), k) == fmt.zero(neg != sign_of(fmt, k)),
{
    reveal(mul_spec);
    lemma_decode_zero(fmt, neg);
    match decode(fmt, k) {
        Value::Fin { neg: y, mant, exp } => {
            lemma_mul_basics(mant as int);
            lemma_round_zero(fmt, neg != y, fmt.min_exp() + exp, false);
        },
        _ => {},
    }
}

/// Adding a zero changes no number: the sum is the other term, bit for bit,
/// unless that term is a NaN (the sum is then the NaN of the format) or the
/// negative zero added to the positive one (the sum is then positive zero).
#[verifier::rlimit(40)]
pub proof fn lemma_add_zero(fmt: Format, v: nat, neg: bool)
    requires
        v < 2 * fmt.sign(),
    ensures
        same_number(fmt, add_spec(fmt, v, fmt.zero(neg)), v),
        !is_nan(fmt, v) && !(v == fmt.sign() && !neg) ==> add_spec(fmt, v, fmt.zero(neg)) == v,
{
    reveal(add_spec);
    lemma_decode_zero(fmt, neg);
    lemma_decode_canonical(fmt, v);
    lemma_encode_decode(fmt, v);
    let emin = fmt.min_exp();
    match decode(fmt, v) {
        Value::Fin { neg: x, mant, exp } => {
            let j = (exp - emin) as nat;
            lemma_pow2_pos(j);
            assert(pow2(0) == 1) by {
                lemma2_to64();
            }
            assert(scaled(neg, 0, emin, emin) == 0) by {
                lemma_mul_basics(pow2(0) as int);
            }
            if mant == 0 {
                lemma_mul_basics(pow2(j) as int);
                assert(scaled(x, mant, exp, emin) == 0);
                assert(exp == emin);
                assert(v == fmt.zero(x)) by {
                    assert((exp - emin) * fmt.hidden() == 0) by (nonlinear_arith)
                        requires
                            exp - emin == 0,
                    ;
                }
            } else {
                assert(mant * pow2(j) > 0) by (nonlinear_arith)
                    requires
                        mant > 0,
                        pow2(j) > 0,
                ;
                lemma_round_exact(fmt, x, mant, exp, j);
            }
        },
        Value::Inf { neg: x } => {},
        Value::Nan => {
            assert(is_nan(fmt, fmt.nan()));
        },
    }
}

/// Whether `a` is the NaN of the format or else the negation of `b`: how the
/// result of an operation answers to the negation of an operand.
pub open spec fn negated_or_nan(fmt: Format, a: nat, b: nat) -> bool {
    if b == fmt.nan() {
        a == fmt.nan()
    } else {
        a == negate(fmt, b)
    }
}

/// No rounded number is the NaN pattern.
pub proof fn lemma_round_is_number(fmt: Format, neg: bool, n: nat, k: int, sticky: bool)
    ensures
        round(fmt, neg, n, k, sticky) != fmt.nan(),
        round(fmt, neg, n, k, sticky) < 2 * fmt.sign(),
        !is_nan(fmt, round(fmt, neg, n, k, sticky)),
{
    reveal(round);
}

/// Addition commutes.
pub proof fn lemma_add_commutes(fmt: Format, a: nat, b: nat)
    ensures
        add_spec(fmt, a, b) == add_spec(fmt, b, a),
{
    reveal(add_spec);
}

/// Multiplication commutes.
pub proof fn lemma_mul_commutes(fmt: Format, a: nat, b: nat)
    ensures
        mul_spec(fmt, a, b) == mul_spec(fmt, b, a),
{
    reveal(mul_spec);
    match (decode(fmt, a), decode(fmt, b)) {
        (Value::Fin { mant: ma, .. }, Value::Fin { mant: mb, .. }) => {
            lemma_mul_is_commutative(ma as int, mb as int);
        },
        _ => {},
    }
}

/// Negating both terms negates the sum, except that terms which cancel
/// exactly sum to positive zero either way, and that what has no sum has
/// none either way.
#[verifier::rlimit(40)]
pub proof fn lemma_add_negated(fmt: Format, a: nat, b: nat)
    requires
        a < 2 * fmt.sign(),
        b < 2 * fmt.sign(),
    ensures
        ({
            let sum = add_spec(fmt, a, b);
            let other = add_spec(fmt, negate(fmt, a), negate(fmt, b));
            ||| other == negate(fmt, sum) && sum != fmt.nan()
            ||| other == 0 && sum == 0
            ||| other == fmt.nan() && sum == fmt.nan()
        }),
{
    reveal(add_spec);
    lemma_decode_negate(fmt, a);
    lemma_decode_negate(fmt, b);
    match (decode(fmt, a), decode(fmt, b)) {
        (Value::Fin { neg: x, mant: ma, exp: ea }, Value::Fin { neg: y, mant: mb, exp: eb }) => {
            let base = if ea <= eb {
                ea
            } else {
                eb
            };
            let s = scaled(x, ma, ea, base) + scaled(y, mb, eb, base);
            let t = scaled(!x, ma, ea, base) + scaled(!y, mb, eb, base);
            assert(t == -s);
            if s < 0 {
                lemma_round_negate(fmt, true, (-s) as nat, base, false);
                lemma_round_is_number(fmt, true, (-s) as nat, base, false);
            } else if s > 0 {
                lemma_round_negate(fmt, false, s as nat, base, false);
                lemma_round_is_number(fmt, false, s as nat, base, false);
            }
        },
        _ => {},
    }
}

/// Swapping the terms of a difference negates it, except that equal terms
/// leave positive zero either way, and that what has no difference has none
/// either way.
pub proof fn lemma_sub_swapped(fmt: Format, a: nat, b: nat)
    requires
        a < 2 * fmt.sign(),
        b < 2 * fmt.sign(),
    ensures
        ({
            let d = sub_spec(fmt, a, b);
            let e = sub_spec(fmt, b, a);
            ||| e == negate(fmt, d) && d != fmt.nan()
            ||| e == 0 && d == 0
            ||| e == fmt.nan() && d == fmt.nan()
        }),
{
    lemma_decode_negate(fmt, a);
    lemma_decode_negate(fmt, b);
    // b - a = b + (-a) = (-a) + b = (-a) + (-(-b))
    lemma_add_commutes(fmt, b, negate(fmt, a));
    lemma_add_negated(fmt, a, negate(fmt, b));
}

/// A number and its negation have the same square.
pub proof fn lemma_square_of_negated(fmt: Format, a: nat)
    requires
        a < 2 * fmt.sign(),
    ensures
        mul_spec(fmt, negate(fmt, a), negate(fmt, a)) == mul_spec(fmt, a, a),
{
    reveal(mul_spec);
    lemma_decode_negate(fmt, a);
}

/// Negating a factor negates the product, where there is one.
#[verifier::rlimit(40)]
pub proof fn lemma_mul_negated(fmt: Format, a: nat, b: nat)
    requires
        a < 2 * fmt.sign(),
    ensures
        negated_or_nan(fmt, mul_spec(fmt, negate(fmt, a), b), mul_spec(fmt, a, b)),
{
    reveal(mul_spec);
    lemma_decode_negate(fmt, a);
    match (decode(fmt, a), decode(fmt, b)) {
        (Value::Fin { neg: x, mant: ma, exp: ea }, Value::Fin { neg: y, mant: mb, exp: eb }) => {
            lemma_round_negate(fmt, x != y, ma * mb, ea + eb, false);
            lemma_round_is_number(fmt, x != y, ma * mb, ea + eb, false);
        },
        _ => {},
    }
}

/// Negating the dividend negates the quotient, where there is one.
#[verifier::rlimit(40)]
pub proof fn lemma_div_negated(fmt: Format, a: nat, b: nat)
    requires
        a < 2 * fmt.sign(),
    ensures
        negated_or_nan(fmt, div_spec(fmt, negate(fmt, a), b), div_spec(fmt, a, b)),
{
    reveal(div_spec);
    lemma_decode_negate(fmt, a);
    match (decode(fmt, a), decode(fmt, b)) {
        (Value::Fin { neg: x, mant: ma, exp: ea }, Value::Fin { neg: y, mant: mb, exp: eb }) => {
            if mb != 0 {
                let num = ma * pow2(128);
                lemma_round_negate(fmt, x != y, num / mb, ea - eb - 128, num % mb != 0);
                lemma_round_is_number(fmt, x != y, num / mb, ea - eb - 128, num % mb != 0);
            }
        },
        _ => {},
    }
}

/// A zero divided by anything is a zero or nothing.
pub proof fn lemma_zero_over_anything(fmt: Format, neg: bool, b: nat)
    ensures
        ({
            let q = div_spec(fmt, fmt.zero(neg), b);
            q == fmt.nan() || is_zero(fmt, q)
        }),
{
    reveal(div_spec);
    lemma_decode_zero(fmt, neg);
    match decode(fmt, b) {
        Value::Fin { neg: y, mant: mb, exp: eb } => {
            if mb != 0 {
                lemma_mul_basics(pow2(128) as int);
                lemma_basic_div(0, mb as int);
                lemma_small_mod(0, mb);
                lemma_round_zero(fmt, neg != y, fmt.min_exp() - eb - 128, false);
            }
        },
        _ => {},
    }
}

/// A zero times anything is a zero or nothing.
pub proof fn lemma_zero_times_anything(fmt: Format, neg: bool, b: nat)
    ensures
        ({
            let q = mul_spec(fmt, fmt.zero(neg), b);
            q == fmt.nan() || is_zero(fmt, q)
        }),
{
    reveal(mul_spec);
    lemma_decode_zero(fmt, neg);
    match decode(fmt, b) {
        Value::Fin { neg: y, mant: mb, exp: eb } => {
            lemma_mul_basics(mb as int);
            lemma_round_zero(fmt, neg != y, fmt.min_exp() + eb, false);
        },
        _ => {},
    }
}

/// Nothing comes of a NaN: every operation on one gives the NaN of the
/// format.
pub proof fn lemma_nan_spreads(fmt: Format, a: nat, b: nat)
    requires
        is_nan(fmt, a),
    ensures
        add_spec(fmt, a, b) == fmt.nan(),
        add_spec(fmt, b, a) == fmt.nan(),
        mul_spec(fmt, a, b) == fmt.nan(),
        mul_spec(fmt, b, a) == fmt.nan(),
        div_spec(fmt, a, b) == fmt.nan(),
        div_spec(fmt, b, a) == fmt.nan(),
        is_nan(fmt, fmt.nan()),
{
    reveal(add_spec);
    reveal(mul_spec);
    reveal(div_spec);
}

/// A sum is a pattern of the format: nothing above the sign bit is set.
pub proof fn lemma_sum_is_pattern(fmt: Format, a: nat, b: nat)
    ensures
        add_spec(fmt, a, b) < 2 * fmt.sign(),
{
    reveal(round);
    reveal(add_spec);
}

/// A product is a pattern of the format.
pub proof fn lemma_product_is_pattern(fmt: Format, a: nat, b: nat)
    ensures
        mul_spec(fmt, a, b) < 2 * fmt.sign(),
{
    reveal(round);
    reveal(mul_spec);
}

/// A quotient is a pattern of the format.
pub proof fn lemma_quotient_is_pattern(fmt: Format, a: nat, b: nat)
    ensures
        div_spec(fmt, a, b) < 2 * fmt.sign(),
{
    reveal(round);
    reveal(div_spec);
}

/// A root is a pattern of the format.
pub proof fn lemma_root_is_pattern(fmt: Format, a: nat)
    ensures
        sqrt_spec(fmt, a) < 2 * fmt.sign(),
{
    reveal(round);
    reveal(sqrt_spec);
}

/// What the operations give are patterns of the format.
pub proof fn lemma_results_are_patterns(fmt: Format, a: nat, b: nat)
    ensures
        add_spec(fmt, a, b) < 2 * fmt.sign(),
        sub_spec(fmt, a, b) < 2 * fmt.sign(),
        mul_spec(fmt, a, b) < 2 * fmt.sign(),
        div_spec(fmt, a, b) < 2 * fmt.sign(),
        sqrt_spec(fmt, a) < 2 * fmt.sign(),
{
    lemma_sum_is_pattern(fmt, a, b);
    lemma_sum_is_pattern(fmt, a, negate(fmt, b));
    lemma_product_is_pattern(fmt, a, b);
    lemma_quotient_is_pattern(fmt, a, b);
    lemma_root_is_pattern(fmt, a);
}

} // verus!
