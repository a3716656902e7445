//! Addition, subtraction, multiplication and division of bit patterns, each
//! rounded once, to nearest with ties to even.
use crate::ieee::format::{Format, Unpacked, Value, canonical, decode, negate, unpack};
use crate::ieee::pow::{
    bit_len, bit_len_u128, lemma_bit_len_bounds, lemma_bit_len_le, lemma_pow2_128, pow2_u128,
};
use crate::ieee::rounding::{lemma_round_compress, round, round_pack};
use vstd::arithmetic::div_mod::*;
use vstd::arithmetic::mul::*;
use vstd::arithmetic::power2::*;
use vstd::prelude::*;

verus! {

/// The signed integer `(-1)^neg * mant * 2^(exp - base)`: a finite value in
/// units of `2^base`, for a `base` that is not above `exp`.
pub open spec fn scaled(neg: bool, mant: nat, exp: int, base: int) -> int {
    let v = (mant * pow2((exp - base) as nat)) as int;
    if neg {
        -v
    } else {
        v
    }
}

/// The sum of two patterns.
///
/// Of two finite numbers it is the exact sum, rounded. An exact zero is
/// negative only when both terms are; infinities of opposite sign have no
/// sum.
#[verifier::opaque]
pub open spec fn add_spec(fmt: Format, a: nat, b: nat) -> nat {
    match (decode(fmt, a), decode(fmt, b)) {
        (Value::Nan, _) => fmt.nan(),
        (_, Value::Nan) => fmt.nan(),
        (Value::Inf { neg: x }, Value::Inf { neg: y }) => if x == y {
            fmt.infinity(x)
        } else {
            fmt.nan()
        },
        (Value::Inf { neg: x }, Value::Fin { .. }) => fmt.infinity(x),
        (Value::Fin { .. }, Value::Inf { neg: y }) => fmt.infinity(y),
        (Value::Fin { neg: x, mant: ma, exp: ea }, Value::Fin { neg: y, mant: mb, exp: eb }) => {
            let base = if ea <= eb {
                ea
            } else {
                eb
            };
            let s = scaled(x, ma, ea, base) + scaled(y, mb, eb, base);
            if s == 0 {
                fmt.zero(x && y)
            } else if s < 0 {
                round(fmt, true, (-s) as nat, base, false)
            } else {
                round(fmt, false, s as nat, base, false)
            }
        },
    }
}

/// The difference of two patterns: the sum of the first and the negated
/// second.
pub open spec fn sub_spec(fmt: Format, a: nat, b: nat) -> nat {
    add_spec(fmt, a, negate(fmt, b))
}

/// The product of two patterns: of two finite numbers the exact product,
/// rounded, with the sign that the factors' signs give. Zero times infinity
/// has no product.
#[verifier::opaque]
pub open spec fn mul_spec(fmt: Format, a: nat, b: nat) -> nat {
    match (decode(fmt, a), decode(fmt, b)) {
        (Value::Nan, _) => fmt.nan(),
        (_, Value::Nan) => fmt.nan(),
        (Value::Inf { neg: x }, Value::Inf { neg: y }) => fmt.infinity(x != y),
        (Value::Inf { neg: x }, Value::Fin { neg: y, mant, .. }) => if mant == 0 {
            fmt.nan()
        } else {
            fmt.infinity(x != y)
        },
        (Value::Fin { neg: x, mant, .. }, Value::Inf { neg: y }) => if mant == 0 {
            fmt.nan()
        } else {
            fmt.infinity(x != y)
        },
        (Value::Fin { neg: x, mant: ma, exp: ea }, Value::Fin { neg: y, mant: mb, exp: eb }) => {
            round(fmt, x != y, ma * mb, ea + eb, false)
        },
    }
}

/// Negates `a`.
pub fn fneg(fmt: Format, a: u64) -> (r: u64)
    ensures
        r == negate(fmt, a as nat),
{
    let s = fmt.sign_bit();
    if a >= s {
        a - s
    } else {
        a + s
    }
}

/// Sum of two finite numbers whose exponents satisfy `e1 >= e2`.
#[verifier::rlimit(40)]
fn add_finite(fmt: Format, n1: bool, m1: u64, e1: i32, n2: bool, m2: u64, e2: i32) -> (r: u64)
    requires
        canonical(fmt, Value::Fin { neg: n1, mant: m1 as nat, exp: e1 as int }),
        canonical(fmt, Value::Fin { neg: n2, mant: m2 as nat, exp: e2 as int }),
        e1 >= e2,
    ensures
        ({
            let s = scaled(n1, m1 as nat, e1 as int, e2 as int) + scaled(
                n2,
                m2 as nat,
                e2 as int,
                e2 as int,
            );
            r == if s == 0 {
                fmt.zero(n1 && n2)
            } else if s < 0 {
                round(fmt, true, (-s) as nat, e2 as int, false)
            } else {
                round(fmt, false, s as nat, e2 as int, false)
            }
        }),
{
    proof {
        fmt.lemma_constants();
        lemma2_to64();
        lemma2_to64_rest();
        lemma_pow2_128();
    }
    let d: i32 = e1 - e2;
    let ghost s1 = scaled(n1, m1 as nat, e1 as int, e2 as int);
    let ghost s2 = scaled(n2, m2 as nat, e2 as int, e2 as int);
    let ghost s = s1 + s2;
    proof {
        lemma_pow2_pos(d as nat);
        assert(m2 as nat * pow2(0) == m2);
    }
    if d <= 64 {
        let w: u128 = pow2_u128(d as u32);
        proof {
            if d < 64 {
                lemma_pow2_strictly_increases(d as nat, 64);
            }
            lemma_mul_upper_bound(m1 as int, 0x20_0000_0000_0000, w as int, 0x1_0000_0000_0000_0000);
        }
        let big: u128 = (m1 as u128) * w;
        let small: u128 = m2 as u128;
        assert(s1 == if n1 { -(big as int) } else { big as int });
        assert(s2 == if n2 { -(small as int) } else { small as int });
        if n1 == n2 {
            let sum: u128 = big + small;
            if sum == 0 {
                fmt.zero_bits(n1)
            } else {
                round_pack(fmt, n1, sum, e2, false)
            }
        } else if big > small {
            round_pack(fmt, n1, big - small, e2, false)
        } else if small > big {
            round_pack(fmt, n2, small - big, e2, false)
        } else {
            fmt.zero_bits(false)
        }
    } else {
        // The smaller term lies wholly below the last three bits kept of the
        // larger: it only decides the sticky flag.
        let j: i32 = d - 3;
        let top: u128 = (m1 as u128) * 8;
        let ghost pj = pow2(j as nat);
        let ghost lead: nat = m1 as nat * pow2(d as nat);
        proof {
            lemma_pow2_adds(3, j as nat);
            lemma_pow2_pos(j as nat);
            lemma_pow2_strictly_increases(53, j as nat);
            assert(m2 < pj);
            assert(m1 >= fmt.hidden());
            assert(lead == top * pj) by (nonlinear_arith)
                requires
                    lead == m1 * pow2(d as nat),
                    pow2(d as nat) == 8 * pj,
                    top == m1 * 8,
            ;
            assert(top * pj >= 8 * pj) by (nonlinear_arith)
                requires
                    top >= 8,
                    pj >= 0,
            ;
            assert(s1 == if n1 { -(lead as int) } else { lead as int });
            assert(s2 == if n2 { -(m2 as int) } else { m2 as int });
        }
        if n1 == n2 || m2 == 0 {
            let ghost exact: nat = lead + m2 as nat;
            proof {
                assert(exact == (if s < 0 { -s } else { s }));
                assert(s < 0 <==> n1);
                assert(exact == pj * top + m2) by (nonlinear_arith)
                    requires
                        exact == lead + m2,
                        lead == top * pj,
                ;
                lemma_fundamental_div_mod_converse(exact as int, pj as int, top as int, m2 as int);
                lemma_round_compress(fmt, n1, exact, e2 as int, false, j as nat);
            }
            round_pack(fmt, n1, top, e2 + j, m2 != 0)
        } else {
            let ghost exact: nat = (lead - m2) as nat;
            proof {
                assert(exact == (if s < 0 { -s } else { s }));
                assert(s < 0 <==> n1);
                assert(exact == pj * (top - 1) + (pj - m2)) by (nonlinear_arith)
                    requires
                        exact == lead - m2,
                        lead == top * pj,
                ;
                lemma_fundamental_div_mod_converse(
                    exact as int,
                    pj as int,
                    top as int - 1,
                    pj as int - m2 as int,
                );
                lemma_round_compress(fmt, n1, exact, e2 as int, false, j as nat);
            }
            round_pack(fmt, n1, top - 1, e2 + j, true)
        }
    }
}

/// Adds `a` and `b`.
#[verifier::rlimit(40)]
pub fn fadd(fmt: Format, a: u64, b: u64) -> (r: u64)
    ensures
        r == add_spec(fmt, a as nat, b as nat),
{
    reveal(add_spec);
    let ua = unpack(fmt, a);
    let ub = unpack(fmt, b);
    match (ua, ub) {
        (Unpacked::Nan, _) => fmt.nan_bits(),
        (_, Unpacked::Nan) => fmt.nan_bits(),
        (Unpacked::Inf { neg: x }, Unpacked::Inf { neg: y }) => if x == y {
            fmt.infinity_bits(x)
        } else {
            fmt.nan_bits()
        },
        (Unpacked::Inf { neg: x }, Unpacked::Fin { .. }) => fmt.infinity_bits(x),
        (Unpacked::Fin { .. }, Unpacked::Inf { neg: y }) => fmt.infinity_bits(y),
        (
            Unpacked::Fin { neg: x, mant: ma, exp: ea },
            Unpacked::Fin { neg: y, mant: mb, exp: eb },
        ) => {
            proof {
                lemma2_to64();
            }
            if ea >= eb {
                add_finite(fmt, x, ma, ea, y, mb, eb)
            } else {
                add_finite(fmt, y, mb, eb, x, ma, ea)
            }
        },
    }
}

/// Subtracts `b` from `a`.
pub fn fsub(fmt: Format, a: u64, b: u64) -> (r: u64)
    ensures
        r == sub_spec(fmt, a as nat, b as nat),
{
    let nb = fneg(fmt, b);
    fadd(fmt, a, nb)
}

/// Multiplies `a` by `b`.
#[verifier::rlimit(40)]
pub fn fmul(fmt: Format, a: u64, b: u64) -> (r: u64)
    ensures
        r == mul_spec(fmt, a as nat, b as nat),
{
    reveal(mul_spec);
    let ua = unpack(fmt, a);
    let ub = unpack(fmt, b);
    match (ua, ub) {
        (Unpacked::Nan, _) => fmt.nan_bits(),
        (_, Unpacked::Nan) => fmt.nan_bits(),
        (Unpacked::Inf { neg: x }, Unpacked::Inf { neg: y }) => fmt.infinity_bits(x != y),
        (Unpacked::Inf { neg: x }, Unpacked::Fin { neg: y, mant, .. }) => if mant == 0 {
            fmt.nan_bits()
        } else {
            fmt.infinity_bits(x != y)
        },
        (Unpacked::Fin { neg: x, mant, .. }, Unpacked::Inf { neg: y }) => if mant == 0 {
            fmt.nan_bits()
        } else {
            fmt.infinity_bits(x != y)
        },
        (
            Unpacked::Fin { neg: x, mant: ma, exp: ea },
            Unpacked::Fin { neg: y, mant: mb, exp: eb },
        ) => {
            proof {
                fmt.lemma_constants();
                lemma2_to64();
                lemma_mul_upper_bound(
                    ma as int,
                    0x20_0000_0000_0000,
                    mb as int,
                    0x20_0000_0000_0000,
                );
            }
            let n: u128 = (ma as u128) * (mb as u128);
            round_pack(fmt, x != y, n, ea + eb, false)
        },
    }
}

/// The quotient of two patterns.
///
/// Of two finite numbers with a divisor other than zero it is the exact
/// quotient, rounded: the quotient of the significands is carried to 128
/// binary places, and what lies beyond them is told by the sticky flag.
/// A number other than zero divided by zero is an infinity; zero by zero and
/// infinity by infinity have no quotient.
#[verifier::opaque]
pub open spec fn div_spec(fmt: Format, a: nat, b: nat) -> nat {
    match (decode(fmt, a), decode(fmt, b)) {
        (Value::Nan, _) => fmt.nan(),
        (_, Value::Nan) => fmt.nan(),
        (Value::Inf { .. }, Value::Inf { .. }) => fmt.nan(),
        (Value::Inf { neg: x }, Value::Fin { neg: y, .. }) => fmt.infinity(x != y),
        (Value::Fin { neg: x, .. }, Value::Inf { neg: y }) => fmt.zero(x != y),
        (Value::Fin { neg: x, mant: ma, exp: ea }, Value::Fin { neg: y, mant: mb, exp: eb }) => {
            if mb == 0 {
                if ma == 0 {
                    fmt.nan()
                } else {
                    fmt.infinity(x != y)
                }
            } else {
                let num = ma * pow2(128);
                round(fmt, x != y, num / mb, ea - eb - 128, num % mb != 0)
            }
        },
    }
}

/// A quotient carried to fewer places: dividing `x * 2^j` by `m` and then
/// dropping `j` bits gives the quotient of `x` by `m`, and something is lost
/// on the way exactly if `m` does not divide `x`.
pub proof fn lemma_quotient_places(x: nat, m: nat, j: nat)
    requires
        m > 0,
    ensures
        ((x * pow2(j)) / m) / pow2(j) == x / m,
        ((x * pow2(j)) % m != 0 || ((x * pow2(j)) / m) % pow2(j) != 0) <==> x % m != 0,
{
    let pj = pow2(j);
    lemma_pow2_pos(j);
    let q = x / m;
    let r = x % m;
    lemma_fundamental_div_mod(x as int, m as int);
    lemma_mod_bound(x as int, m as int);
    let y = x * pj;
    let t = (r * pj) / m;
    let u = (r * pj) % m;
    lemma_fundamental_div_mod((r * pj) as int, m as int);
    lemma_mod_bound((r * pj) as int, m as int);
    assert(t >= 0) by (nonlinear_arith)
        requires
            t == (r * pj) / m,
            r >= 0,
            pj > 0,
            m > 0,
    ;
    assert(t < pj) by (nonlinear_arith)
        requires
            r * pj == m * t + u,
            0 <= u,
            r < m,
            pj > 0,
            m > 0,
    ;
    assert(y == m * (q * pj + t) + u) by (nonlinear_arith)
        requires
            y == x * pj,
            x == m * q + r,
            r * pj == m * t + u,
    ;
    lemma_fundamental_div_mod_converse(y as int, m as int, (q * pj + t) as int, u as int);
    assert(q * pj + t == pj * q + t) by (nonlinear_arith);
    lemma_fundamental_div_mod_converse((q * pj + t) as int, pj as int, q as int, t as int);
    assert((u == 0 && t == 0) <==> r == 0) by (nonlinear_arith)
        requires
            r * pj == m * t + u,
            0 <= u < m,
            0 <= t,
            r >= 0,
            pj > 0,
    ;
}

/// A positive number moved up to fill 128 bits has its top bit set.
proof fn lemma_fill(m: nat)
    requires
        0 < m < pow2(128),
    ensures
        bit_len(m) <= 128,
        0x8000_0000_0000_0000_0000_0000_0000_0000 <= m * pow2((128 - bit_len(m)) as nat)
            < 0x1_0000_0000_0000_0000_0000_0000_0000_0000,
{
    let len = bit_len(m);
    lemma_bit_len_bounds(m);
    lemma_bit_len_le(m, 128);
    let places = (128 - len) as nat;
    lemma_pow2_128();
    lemma_pow2_unfold(128);
    lemma_pow2_adds(len, places);
    lemma_pow2_adds((len - 1) as nat, places);
    lemma_pow2_pos(places);
    lemma_mul_strict_inequality(m as int, pow2(len) as int, pow2(places) as int);
    lemma_mul_inequality(pow2((len - 1) as nat) as int, m as int, pow2(places) as int);
}

/// Quotient of two positive significands, rounded, where the quotient's last
/// place before scaling has the exponent `k`.
#[verifier::rlimit(40)]
fn div_finite(fmt: Format, neg: bool, ma: u64, mb: u64, k: i32) -> (r: u64)
    requires
        0 < ma < 0x20_0000_0000_0000,
        0 < mb < 0x20_0000_0000_0000,
        -10000 <= k <= 10000,
    ensures
        r == round(
            fmt,
            neg,
            (ma as nat * pow2(128)) / (mb as nat),
            k - 128,
            (ma as nat * pow2(128)) % (mb as nat) != 0,
        ),
{
    proof {
        lemma_pow2_128();
        lemma_fill(ma as nat);
    }
    // The dividend's significand, moved up to fill 128 bits.
    let len: u32 = bit_len_u128(ma as u128);
    let places: u32 = 128 - len;
    let w: u128 = pow2_u128(places);
    let num: u128 = (ma as u128) * w;
    let quot: u128 = num / (mb as u128);
    let rem: u128 = num % (mb as u128);
    proof {
        let j = len as nat;
        let full = ma as nat * pow2(128);
        lemma_pow2_adds(places as nat, j);
        assert(full == num as nat * pow2(j)) by (nonlinear_arith)
            requires
                full == ma as nat * pow2(128),
                pow2(128) == pow2(places as nat) * pow2(j),
                num == ma * pow2(places as nat),
        ;
        lemma_quotient_places(num as nat, mb as nat, j);
        // the quotient has at least 75 bits
        assert(quot >= 0x400_0000_0000_0000_0000) by (nonlinear_arith)
            requires
                quot == num / (mb as u128),
                num >= 0x8000_0000_0000_0000_0000_0000_0000_0000,
                0 < mb < 0x20_0000_0000_0000,
        ;
        fmt.lemma_constants();
        lemma_round_compress(
            fmt,
            neg,
            full / (mb as nat),
            k - 128,
            full % (mb as nat) != 0,
            j,
        );
    }
    round_pack(fmt, neg, quot, k - (places as i32), rem != 0)
}

/// Divides `a` by `b`.
#[verifier::rlimit(40)]
pub fn fdiv(fmt: Format, a: u64, b: u64) -> (r: u64)
    ensures
        r == div_spec(fmt, a as nat, b as nat),
{
    reveal(div_spec);
    let ua = unpack(fmt, a);
    let ub = unpack(fmt, b);
    match (ua, ub) {
        (Unpacked::Nan, _) => fmt.nan_bits(),
        (_, Unpacked::Nan) => fmt.nan_bits(),
        (Unpacked::Inf { .. }, Unpacked::Inf { .. }) => fmt.nan_bits(),
        (Unpacked::Inf { neg: x }, Unpacked::Fin { neg: y, .. }) => fmt.infinity_bits(x != y),
        (Unpacked::Fin { neg: x, .. }, Unpacked::Inf { neg: y }) => fmt.zero_bits(x != y),
        (
            Unpacked::Fin { neg: x, mant: ma, exp: ea },
            Unpacked::Fin { neg: y, mant: mb, exp: eb },
        ) => {
            proof {
                fmt.lemma_constants();
                lemma2_to64();
            }
            if mb == 0 {
                if ma == 0 {
                    fmt.nan_bits()
                } else {
                    fmt.infinity_bits(x != y)
                }
            } else if ma == 0 {
                proof {
                    lemma_mul_basics(pow2(128) as int);
                    lemma_basic_div(0, mb as int);
                    lemma_small_mod(0, mb as nat);
                }
                round_pack(fmt, x != y, 0, ea - eb - 128, false)
            } else {
                div_finite(fmt, x != y, ma, mb, ea - eb)
            }
        },
    }
}

} // verus!
