//! Square roots: of integers, rounded down, and of bit patterns, rounded to
//! nearest with ties to even.
use crate::ieee::format::{Format, Unpacked, Value, decode, unpack};
use crate::ieee::pow::{
    bit_len, bit_len_u128, lemma_bit_len_bounds, lemma_bit_len_le, lemma_pow2_128, pow2_u128,
};
use crate::ieee::rounding::{lemma_round_compress, round, round_pack};
use vstd::arithmetic::div_mod::*;
use vstd::arithmetic::mul::*;
use vstd::arithmetic::power2::*;
use vstd::prelude::*;

verus! {

/// The square root of `n`, rounded down.
pub open spec fn isqrt(n: nat) -> nat
    decreases n,
{
    if n == 0 {
        0
    } else {
        let r = 2 * isqrt(n / 4);
        if (r + 1) * (r + 1) <= n {
            r + 1
        } else {
            r
        }
    }
}

/// `isqrt(n)` is the largest number whose square does not exceed `n`.
pub proof fn lemma_isqrt_bounds(n: nat)
    ensures
        isqrt(n) * isqrt(n) <= n < (isqrt(n) + 1) * (isqrt(n) + 1),
    decreases n,
{
    if n > 0 {
        lemma_isqrt_bounds(n / 4);
        let s = isqrt(n / 4);
        let r = 2 * s;
        let m = n / 4;
        assert(r * r <= n && n < (r + 2) * (r + 2)) by (nonlinear_arith)
            requires
                s * s <= m < (s + 1) * (s + 1),
                r == 2 * s,
                4 * m <= n < 4 * m + 4,
        ;
        if (r + 1) * (r + 1) <= n {
            assert(isqrt(n) == r + 1);
            assert(r + 1 + 1 == r + 2);
        } else {
            assert(isqrt(n) == r);
        }
    } else {
        assert(isqrt(n) == 0);
        assert(0 * 0 == 0 && (0 + 1) * (0 + 1) == 1) by (nonlinear_arith);
    }
}

/// Only one number has `s^2 <= n < (s + 1)^2`.
pub proof fn lemma_isqrt_unique(n: nat, s: nat)
    requires
        s * s <= n < (s + 1) * (s + 1),
    ensures
        isqrt(n) == s,
{
    lemma_isqrt_bounds(n);
    let r = isqrt(n);
    assert(r == s) by (nonlinear_arith)
        requires
            s * s <= n < (s + 1) * (s + 1),
            r * r <= n < (r + 1) * (r + 1),
            r >= 0,
            s >= 0,
    ;
}

/// Taking the root of `x * 4^j` and then dropping `j` bits gives the root of
/// `x`, and something is lost on the way exactly if `x` is no square.
#[verifier::rlimit(40)]
pub proof fn lemma_root_places(x: nat, j: nat)
    ensures
        isqrt(x * pow2(2 * j)) / pow2(j) == isqrt(x),
        ({
            let big = isqrt(x * pow2(2 * j));
            (big * big != x * pow2(2 * j) || big % pow2(j) != 0) <==> isqrt(x) * isqrt(x) != x
        }),
{
    let p = pow2(j);
    lemma_pow2_pos(j);
    lemma_pow2_adds(j, j);
    let xx = x * pow2(2 * j);
    let s = isqrt(x);
    let big = isqrt(xx);
    lemma_isqrt_bounds(x);
    lemma_isqrt_bounds(xx);
    let lo = s * p;
    let hi = (s + 1) * p;
    assert(lo * lo <= xx && xx < hi * hi) by (nonlinear_arith)
        requires
            s * s <= x < (s + 1) * (s + 1),
            xx == x * (p * p),
            lo == s * p,
            hi == (s + 1) * p,
            p > 0,
    ;
    assert(lo <= big < hi) by (nonlinear_arith)
        requires
            lo * lo <= xx < hi * hi,
            big * big <= xx < (big + 1) * (big + 1),
            lo >= 0,
            hi >= 0,
            big >= 0,
    ;
    let t = (big - lo) as nat;
    assert(hi == lo + p) by (nonlinear_arith)
        requires
            lo == s * p,
            hi == (s + 1) * p,
    ;
    assert(big == p * s + t) by (nonlinear_arith)
        requires
            t == big - lo,
            lo == s * p,
    ;
    lemma_fundamental_div_mod_converse(big as int, p as int, s as int, t as int);
    if s * s == x {
        assert(lo * lo == xx) by (nonlinear_arith)
            requires
                s * s == x,
                xx == x * (p * p),
                lo == s * p,
        ;
        assert(xx < (lo + 1) * (lo + 1)) by (nonlinear_arith)
            requires
                lo * lo == xx,
                lo >= 0,
        ;
        lemma_isqrt_unique(xx, lo);
    } else {
        if big * big == xx && t == 0 {
            assert(s * s == x) by (nonlinear_arith)
                requires
                    big == s * p,
                    big * big == xx,
                    xx == x * (p * p),
                    p > 0,
            ;
        }
    }
}

/// The square root of a pattern.
///
/// Of a positive finite number it is the exact root, rounded: the root of the
/// significand is carried to 100 binary places, and what lies beyond them is
/// told by the sticky flag. A zero is its own root, whatever its sign; other
/// negative numbers have none.
#[verifier::opaque]
pub open spec fn sqrt_spec(fmt: Format, a: nat) -> nat {
    match decode(fmt, a) {
        Value::Nan => fmt.nan(),
        Value::Inf { neg } => if neg {
            fmt.nan()
        } else {
            fmt.inf()
        },
        Value::Fin { neg, mant, exp } => if mant == 0 {
            fmt.zero(neg)
        } else if neg {
            fmt.nan()
        } else {
            let odd = exp % 2;
            let rad = mant * pow2((200 + odd) as nat);
            let root = isqrt(rad);
            round(fmt, false, root, (exp - odd) / 2 - 100, root * root != rad)
        },
    }
}

/// The square root of a machine word, rounded down.
pub fn isqrt_u128(x: u128) -> (r: u64)
    ensures
        r == isqrt(x as nat),
{
    let mut r: u128 = 0;
    let mut bit: u32 = 64;
    proof {
        lemma2_to64();
        lemma_pow2_128();
        lemma_pow2_adds(64, 64);
    }
    while bit > 0
        invariant
            bit <= 64,
            r + pow2(bit as nat) <= 0x1_0000_0000_0000_0000,
            r * r <= x,
            x < (r + pow2(bit as nat)) * (r + pow2(bit as nat)),
        decreases bit,
    {
        bit = bit - 1;
        let step: u128 = pow2_u128(bit);
        proof {
            lemma_pow2_unfold((bit + 1) as nat);
        }
        let cand: u128 = r + step;
        proof {
            assert(cand * cand < 0x1_0000_0000_0000_0000_0000_0000_0000_0000) by (nonlinear_arith)
                requires
                    0 <= cand < 0x1_0000_0000_0000_0000,
            ;
        }
        if cand * cand <= x {
            r = cand;
        }
    }
    proof {
        lemma2_to64();
        lemma_isqrt_unique(x as nat, r as nat);
    }
    r as u64
}

/// What `sqrt_finite` computes on machine words is what the definition
/// asks for: the root of the significand carried to fewer places, with the
/// lost bits folded into the sticky flag.
#[verifier::rlimit(40)]
proof fn lemma_sqrt_places(fmt: Format, mant: nat, exp: int, places: nat, rad: nat, root: nat)
    requires
        mant > 0,
        places <= 127,
        places % 2 == exp % 2,
        rad == mant * pow2(places),
        0x4000_0000_0000_0000_0000_0000_0000_0000 <= rad,
        root == isqrt(rad),
    ensures
        root >= 0x8000_0000_0000_0000,
        ({
            let odd = exp % 2;
            let full = mant * pow2((200 + odd) as nat);
            let big = isqrt(full);
            round(fmt, false, big, (exp - odd) / 2 - 100, big * big != full) == round(
                fmt,
                false,
                root,
                (exp - places) / 2,
                root * root != rad,
            )
        }),
{
    let odd = exp % 2;
    let j = ((200 + odd - places) / 2) as nat;
    assert(2 * j == 200 + odd - places);
    let full = mant * pow2((200 + odd) as nat);
    lemma_pow2_adds(places, 2 * j);
    assert(full == rad * pow2(2 * j)) by (nonlinear_arith)
        requires
            full == mant * pow2((200 + odd) as nat),
            pow2((200 + odd) as nat) == pow2(places) * pow2(2 * j),
            rad == mant * pow2(places),
    ;
    lemma_root_places(rad, j);
    lemma_isqrt_bounds(rad);
    assert(root >= 0x8000_0000_0000_0000) by (nonlinear_arith)
        requires
            rad < (root + 1) * (root + 1),
            rad >= 0x8000_0000_0000_0000 * 0x8000_0000_0000_0000,
            root >= 0,
    ;
    fmt.lemma_constants();
    let big = isqrt(full);
    lemma_round_compress(fmt, false, big, (exp - odd) / 2 - 100, big * big != full, j);
    assert((exp - places) / 2 == (exp - odd) / 2 - 100 + j);
}

/// Root of a positive finite number `mant * 2^exp`.
#[verifier::rlimit(40)]
fn sqrt_finite(fmt: Format, mant: u64, exp: i32) -> (r: u64)
    requires
        0 < mant < 0x20_0000_0000_0000,
        -5000 <= exp <= 5000,
    ensures
        ({
            let odd = exp % 2;
            let rad = mant as nat * pow2((200 + odd) as nat);
            let root = isqrt(rad);
            r == round(fmt, false, root, (exp - odd) / 2 - 100, root * root != rad)
        }),
{
    proof {
        lemma_significand_len(mant as nat);
    }
    let odd: i32 = (exp + 5000) % 2;
    let len: u32 = bit_len_u128(mant as u128);
    let room: u32 = 128 - len;
    // as many places as fit, of the same parity as the exponent
    let places: u32 = if (room % 2) as i32 == odd {
        room
    } else {
        (room - 1) as u32
    };
    let w: u128 = pow2_u128(places);
    proof {
        lemma_fill_even(mant as nat, places as nat);
    }
    let rad: u128 = (mant as u128) * w;
    let root: u64 = isqrt_u128(rad);
    proof {
        assert(root * root < 0x1_0000_0000_0000_0000_0000_0000_0000_0000) by (nonlinear_arith)
            requires
                0 <= root < 0x1_0000_0000_0000_0000,
        ;
    }
    let exact: bool = (root as u128) * (root as u128) == rad;
    let k: i32 = (exp - (places as i32) + 6000) / 2 - 3000;
    proof {
        lemma_sqrt_places(fmt, mant as nat, exp as int, places as nat, rad as nat, root as nat);
        assert(k == (exp - places) / 2);
    }
    round_pack(fmt, false, root as u128, k, !exact)
}

/// A positive number below `2^53` has between one and 53 bits.
proof fn lemma_significand_len(m: nat)
    requires
        0 < m < 0x20_0000_0000_0000,
    ensures
        1 <= bit_len(m) <= 53,
{
    lemma2_to64_rest();
    lemma_bit_len_bounds(m);
    lemma_bit_len_le(m, 53);
}

/// A positive number below `2^53` moved up by all the places that fit into
/// 128 bits, or by one fewer, has one of its two top bits set.
proof fn lemma_fill_even(m: nat, places: nat)
    requires
        0 < m < 0x20_0000_0000_0000,
        127 - bit_len(m) <= places <= 128 - bit_len(m),
    ensures
        0x4000_0000_0000_0000_0000_0000_0000_0000 <= m * pow2(places)
            < 0x1_0000_0000_0000_0000_0000_0000_0000_0000,
{
    lemma_pow2_128();
    lemma_bit_len_bounds(m);
    let len = bit_len(m);
    lemma_pow2_adds(126, 2);
    lemma2_to64();
    lemma_pow2_adds(len, places);
    lemma_pow2_adds((len - 1) as nat, places);
    lemma_pow2_pos(places);
    lemma_mul_strict_inequality(m as int, pow2(len) as int, pow2(places) as int);
    lemma_mul_inequality(pow2((len - 1) as nat) as int, m as int, pow2(places) as int);
    if len + places < 128 {
        lemma_pow2_strictly_increases(len + places, 128);
    }
    if len - 1 + places > 126 {
        lemma_pow2_strictly_increases(126, (len - 1 + places) as nat);
    }
}

/// Takes the square root of `a`.
pub fn fsqrt(fmt: Format, a: u64) -> (r: u64)
    ensures
        r == sqrt_spec(fmt, a as nat),
{
    reveal(sqrt_spec);
    match unpack(fmt, a) {
        Unpacked::Nan => fmt.nan_bits(),
        Unpacked::Inf { neg } => if neg {
            fmt.nan_bits()
        } else {
            fmt.inf_bits()
        },
        Unpacked::Fin { neg, mant, exp } => {
            proof {
                fmt.lemma_constants();
                lemma2_to64();
            }
            if mant == 0 {
                fmt.zero_bits(neg)
            } else if neg {
                fmt.nan_bits()
            } else {
                sqrt_finite(fmt, mant, exp)
            }
        },
    }
}

} // verus!
