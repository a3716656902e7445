//! Comparison of bit patterns by the numbers they denote.
use crate::ieee::arith::scaled;
use crate::ieee::format::{Format, Value, decode, lemma_decode_canonical, magnitude};
use vstd::arithmetic::div_mod::*;
use vstd::arithmetic::power2::*;
use vstd::prelude::*;

verus! {

/// `a <= b` as numbers: false where either is a NaN; the two zeros are equal.
#[verifier::opaque]
pub open spec fn le_spec(fmt: Format, a: nat, b: nat) -> bool {
    match (decode(fmt, a), decode(fmt, b)) {
        (Value::Nan, _) => false,
        (_, Value::Nan) => false,
        (Value::Inf { neg: x }, Value::Inf { neg: y }) => x || !y,
        (Value::Inf { neg: x }, Value::Fin { .. }) => x,
        (Value::Fin { .. }, Value::Inf { neg: y }) => !y,
        (Value::Fin { neg: x, mant: ma, exp: ea }, Value::Fin { neg: y, mant: mb, exp: eb }) => {
            let base = if ea <= eb {
                ea
            } else {
                eb
            };
            scaled(x, ma, ea, base) <= scaled(y, mb, eb, base)
        },
    }
}

/// `a < b` as numbers: false where either is a NaN.
#[verifier::opaque]
pub open spec fn lt_spec(fmt: Format, a: nat, b: nat) -> bool {
    match (decode(fmt, a), decode(fmt, b)) {
        (Value::Nan, _) => false,
        (_, Value::Nan) => false,
        (Value::Inf { neg: x }, Value::Inf { neg: y }) => x && !y,
        (Value::Inf { neg: x }, Value::Fin { .. }) => x,
        (Value::Fin { .. }, Value::Inf { neg: y }) => !y,
        (Value::Fin { neg: x, mant: ma, exp: ea }, Value::Fin { neg: y, mant: mb, exp: eb }) => {
            let base = if ea <= eb {
                ea
            } else {
                eb
            };
            scaled(x, ma, ea, base) < scaled(y, mb, eb, base)
        },
    }
}

/// Whether the pattern denotes no number.
pub open spec fn is_nan(fmt: Format, a: nat) -> bool {
    decode(fmt, a) is Nan
}

/// The place of a pattern on the number line, counted in patterns from zero:
/// the magnitude, negative below the sign bit.
pub open spec fn ordinal(fmt: Format, a: nat) -> int {
    if a >= fmt.sign() {
        -(magnitude(fmt, a) as int)
    } else {
        magnitude(fmt, a) as int
    }
}

/// Among positive finite patterns, the larger pattern denotes the larger
/// number.
#[verifier::rlimit(40)]
pub proof fn lemma_magnitude_order(fmt: Format, x: nat, y: nat)
    requires
        x < fmt.inf(),
        y < fmt.inf(),
    ensures
        (x as int) < (y as int) <==> lt_spec(fmt, x, y),
        (x as int) <= (y as int) <==> le_spec(fmt, x, y),
{
    reveal(le_spec);
    reveal(lt_spec);
    fmt.lemma_constants();
    lemma2_to64();
    lemma_decode_canonical(fmt, x);
    lemma_decode_canonical(fmt, y);
    let h = fmt.hidden() as int;
    lemma_fundamental_div_mod(x as int, h);
    lemma_fundamental_div_mod(y as int, h);
    lemma_mod_bound(x as int, h);
    lemma_mod_bound(y as int, h);
    match (decode(fmt, x), decode(fmt, y)) {
        (
            Value::Fin { neg: nx, mant: mx, exp: ex },
            Value::Fin { neg: ny, mant: my, exp: ey },
        ) => {
            let sx = (ex - fmt.min_exp()) as int;
            let sy = (ey - fmt.min_exp()) as int;
            assert(x == sx * h + mx) by (nonlinear_arith)
                requires
                    x == h * (x as int / h) + x as int % h,
                    (x as int / h == 0 && sx == 0 && mx == x as int % h) || (x as int / h > 0 && sx
                        == x as int / h - 1 && mx == h + x as int % h),
            ;
            assert(y == sy * h + my) by (nonlinear_arith)
                requires
                    y == h * (y as int / h) + y as int % h,
                    (y as int / h == 0 && sy == 0 && my == y as int % h) || (y as int / h > 0 && sy
                        == y as int / h - 1 && my == h + y as int % h),
            ;
            assert(mx as nat * pow2(0) == mx);
            assert(my as nat * pow2(0) == my);
            if ex < ey {
                let w = pow2((ey - ex) as nat);
                lemma_pow2_strictly_increases(0, (ey - ex) as nat);
                assert(my * w >= 2 * h) by (nonlinear_arith)
                    requires
                        my >= h,
                        w >= 2,
                        h > 0,
                ;
                assert(sy * h >= sx * h + h) by (nonlinear_arith)
                    requires
                        sy >= sx + 1,
                        h > 0,
                ;
            } else if ey < ex {
                let w = pow2((ex - ey) as nat);
                lemma_pow2_strictly_increases(0, (ex - ey) as nat);
                assert(mx * w >= 2 * h) by (nonlinear_arith)
                    requires
                        mx >= h,
                        w >= 2,
                        h > 0,
                ;
                assert(sx * h >= sy * h + h) by (nonlinear_arith)
                    requires
                        sx >= sy + 1,
                        h > 0,
                ;
            }
            assert(sx * h >= 0) by (nonlinear_arith)
                requires
                    sx >= 0,
                    h > 0,
            ;
        },
        _ => {
            assert(false);
        },
    }
}

/// A finite pattern without its sign is zero exactly if its significand is.
pub proof fn lemma_zero_significand(fmt: Format, x: nat)
    requires
        x < fmt.inf(),
    ensures
        match decode(fmt, x) {
            Value::Fin { neg, mant, exp } => !neg && (mant == 0 <==> x == 0),
            _ => false,
        },
{
    let h = fmt.hidden() as int;
    lemma_fundamental_div_mod(x as int, h);
    lemma_mod_bound(x as int, h);
    let field = x as int / h;
    assert(field >= 0 && (field == 0 ==> x == x as int % h)) by (nonlinear_arith)
        requires
            x == h * field + x as int % h,
            0 <= x as int % h < h,
            x >= 0,
    ;
}

/// Two scaled significands compare as their negations do, the other way
/// round, and a positive one is never below a negative one.
proof fn lemma_signed_order(na: bool, ma: nat, ea: int, nb: bool, mb: nat, eb: int, base: int)
    requires
        base <= ea,
        base <= eb,
    ensures
        ({
            let va = scaled(false, ma, ea, base);
            let vb = scaled(false, mb, eb, base);
            let sa = scaled(na, ma, ea, base);
            let sb = scaled(nb, mb, eb, base);
            &&& va >= 0 && vb >= 0
            &&& va == 0 <==> ma == 0
            &&& vb == 0 <==> mb == 0
            &&& sa == if na { -va } else { va }
            &&& sb == if nb { -vb } else { vb }
        }),
{
    let wa = pow2((ea - base) as nat);
    let wb = pow2((eb - base) as nat);
    lemma_pow2_pos((ea - base) as nat);
    lemma_pow2_pos((eb - base) as nat);
    assert(ma * wa >= 0 && (ma * wa == 0 <==> ma == 0)) by (nonlinear_arith)
        requires
            wa > 0,
            ma >= 0,
    ;
    assert(mb * wb >= 0 && (mb * wb == 0 <==> mb == 0)) by (nonlinear_arith)
        requires
            wb > 0,
            mb >= 0,
    ;
}

/// Patterns that denote numbers are ordered as their ordinals are.
#[verifier::rlimit(40)]
pub proof fn lemma_ordinal_order(fmt: Format, a: nat, b: nat)
    requires
        !is_nan(fmt, a),
        !is_nan(fmt, b),
    ensures
        ordinal(fmt, a) <= ordinal(fmt, b) <==> le_spec(fmt, a, b),
        ordinal(fmt, a) < ordinal(fmt, b) <==> lt_spec(fmt, a, b),
{
    reveal(le_spec);
    reveal(lt_spec);
    let x = magnitude(fmt, a);
    let y = magnitude(fmt, b);
    let na = a >= fmt.sign();
    let nb = b >= fmt.sign();
    if x < fmt.inf() && y < fmt.inf() {
        lemma_magnitude_order(fmt, x, y);
        lemma_magnitude_order(fmt, y, x);
        lemma_zero_significand(fmt, x);
        lemma_zero_significand(fmt, y);
        match (decode(fmt, x), decode(fmt, y)) {
            (
                Value::Fin { neg: nx, mant: mx, exp: ex },
                Value::Fin { neg: ny, mant: my, exp: ey },
            ) => {
                let base = if ex <= ey {
                    ex
                } else {
                    ey
                };
                assert(decode(fmt, a) == Value::Fin { neg: na, mant: mx, exp: ex });
                assert(decode(fmt, b) == Value::Fin { neg: nb, mant: my, exp: ey });
                lemma_signed_order(na, mx, ex, nb, my, ey, base);
            },
            _ => {
                assert(false);
            },
        }
    }
}

/// Whether the pattern is one of the two zeros.
pub open spec fn is_zero(fmt: Format, a: nat) -> bool {
    a == 0 || a == fmt.sign()
}

/// Whether two patterns denote the same thing: the same number, the two
/// zeros being one number, or no number at all.
pub open spec fn same_number(fmt: Format, a: nat, b: nat) -> bool {
    ||| a == b
    ||| (is_zero(fmt, a) && is_zero(fmt, b))
    ||| (is_nan(fmt, a) && is_nan(fmt, b))
}

/// Numbers are totally ordered, and a NaN is ordered with nothing.
pub proof fn lemma_order_total(fmt: Format, a: nat, b: nat)
    ensures
        is_nan(fmt, a) || is_nan(fmt, b) ==> !le_spec(fmt, a, b) && !lt_spec(fmt, a, b),
        !is_nan(fmt, a) && !is_nan(fmt, b) ==> (lt_spec(fmt, a, b) <==> !le_spec(fmt, b, a)),
        !is_nan(fmt, a) && !is_nan(fmt, b) ==> le_spec(fmt, a, b) || le_spec(fmt, b, a),
        !is_nan(fmt, a) ==> le_spec(fmt, a, a),
{
    if is_nan(fmt, a) || is_nan(fmt, b) {
        reveal(le_spec);
        reveal(lt_spec);
    } else {
        lemma_ordinal_order(fmt, a, b);
        lemma_ordinal_order(fmt, b, a);
    }
    if !is_nan(fmt, a) {
        lemma_ordinal_order(fmt, a, a);
    }
}

/// Whether `a` is a NaN.
pub fn nan(fmt: Format, a: u64) -> (r: bool)
    ensures
        r == is_nan(fmt, a as nat),
{
    let s = fmt.sign_bit();
    let mag: u64 = if a >= s {
        a - s
    } else {
        a
    };
    mag > fmt.inf_bits()
}

/// The ordinal of `a`.
fn place(fmt: Format, a: u64) -> (r: i128)
    ensures
        r == ordinal(fmt, a as nat),
{
    let s = fmt.sign_bit();
    if a >= s {
        -((a - s) as i128)
    } else {
        a as i128
    }
}

/// Whether `a <= b`.
pub fn le(fmt: Format, a: u64, b: u64) -> (r: bool)
    ensures
        r == le_spec(fmt, a as nat, b as nat),
{
    if nan(fmt, a) || nan(fmt, b) {
        proof {
            reveal(le_spec);
        }
        false
    } else {
        proof {
            lemma_ordinal_order(fmt, a as nat, b as nat);
        }
        place(fmt, a) <= place(fmt, b)
    }
}

/// Whether `a < b`.
pub fn lt(fmt: Format, a: u64, b: u64) -> (r: bool)
    ensures
        r == lt_spec(fmt, a as nat, b as nat),
{
    if nan(fmt, a) || nan(fmt, b) {
        proof {
            reveal(lt_spec);
        }
        false
    } else {
        proof {
            lemma_ordinal_order(fmt, a as nat, b as nat);
        }
        place(fmt, a) < place(fmt, b)
    }
}

/// Whether `a >= b`.
pub fn ge(fmt: Format, a: u64, b: u64) -> (r: bool)
    ensures
        r == le_spec(fmt, b as nat, a as nat),
{
    le(fmt, b, a)
}

} // verus!
