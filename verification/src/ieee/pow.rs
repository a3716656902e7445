//! Powers of two and bit lengths: the integer facts that the encoding and the
//! rounding of binary floating-point numbers rest on.
use vstd::arithmetic::div_mod::*;
use vstd::arithmetic::mul::*;
use vstd::arithmetic::power2::*;
use vstd::prelude::*;

verus! {

/// Number of binary digits needed to write `n`; zero for zero.
pub open spec fn bit_len(n: nat) -> nat
    decreases n,
{
    if n == 0 {
        0
    } else {
        1 + bit_len(n / 2)
    }
}

/// A positive `n` lies in `[2^(len-1), 2^len)` where `len` is its bit length.
pub proof fn lemma_bit_len_bounds(n: nat)
    ensures
        n < pow2(bit_len(n)),
        n > 0 ==> bit_len(n) >= 1 && pow2((bit_len(n) - 1) as nat) <= n,
    decreases n,
{
    if n == 0 {
        lemma_pow2_pos(0);
    } else {
        lemma_bit_len_bounds(n / 2);
        lemma_pow2_unfold(bit_len(n));
        if n / 2 > 0 {
            lemma_pow2_unfold((bit_len(n) - 1) as nat);
        } else {
            lemma2_to64();
        }
    }
}

/// The bit length is the only `b` with `2^(b-1) <= n < 2^b`.
pub proof fn lemma_bit_len_unique(n: nat, b: nat)
    requires
        n > 0,
        b >= 1,
        pow2((b - 1) as nat) <= n,
        n < pow2(b),
    ensures
        bit_len(n) == b,
{
    lemma_bit_len_bounds(n);
    let l = bit_len(n);
    if l < b {
        if l < b - 1 {
            lemma_pow2_strictly_increases(l, (b - 1) as nat);
        }
    } else if l > b {
        if b < l - 1 {
            lemma_pow2_strictly_increases(b, (l - 1) as nat);
        }
    }
}

/// A number below `2^b` has at most `b` bits.
pub proof fn lemma_bit_len_le(n: nat, b: nat)
    requires
        n < pow2(b),
    ensures
        bit_len(n) <= b,
{
    lemma_bit_len_bounds(n);
    if n > 0 && bit_len(n) > b {
        if b < bit_len(n) - 1 {
            lemma_pow2_strictly_increases(b, (bit_len(n) - 1) as nat);
        }
    }
}

/// A number that reaches `2^b` has more than `b` bits.
pub proof fn lemma_bit_len_gt(n: nat, b: nat)
    requires
        n >= pow2(b),
    ensures
        bit_len(n) > b,
{
    lemma_bit_len_bounds(n);
    if bit_len(n) < b {
        lemma_pow2_strictly_increases(bit_len(n), b);
    }
}

/// Multiplying by `2^j` adds `j` to the bit length of a positive number.
pub proof fn lemma_bit_len_scale(n: nat, j: nat)
    requires
        n > 0,
    ensures
        bit_len(n * pow2(j)) == bit_len(n) + j,
{
    lemma_bit_len_bounds(n);
    let l = bit_len(n);
    lemma_pow2_adds((l - 1) as nat, j);
    lemma_pow2_adds(l, j);
    lemma_pow2_pos(j);
    lemma_mul_inequality(pow2((l - 1) as nat) as int, n as int, pow2(j) as int);
    lemma_mul_strict_inequality(n as int, pow2(l) as int, pow2(j) as int);
    lemma_pow2_pos((l - 1) as nat);
    lemma_pow2_pos((l - 1 + j) as nat);
    lemma_bit_len_unique(n * pow2(j), l + j);
}

/// Dropping the `j` lowest bits of a number that has more than `j` bits takes
/// `j` from its bit length.
pub proof fn lemma_bit_len_drop(n: nat, j: nat)
    requires
        n >= pow2(j),
    ensures
        bit_len(n / pow2(j)) + j == bit_len(n),
{
    lemma_pow2_pos(j);
    let d = pow2(j);
    let t = n / d;
    let l = bit_len(n);
    lemma_bit_len_gt(n, j);
    lemma_bit_len_bounds(n);
    lemma_fundamental_div_mod(n as int, d as int);
    lemma_mod_bound(n as int, d as int);
    lemma_pow2_adds((l - j) as nat, j);
    lemma_pow2_adds((l - 1 - j) as nat, j);
    let hi = pow2((l - j) as nat);
    let lo = pow2((l - 1 - j) as nat);
    // t < hi: otherwise n >= hi * d = pow2(l)
    if t >= hi {
        lemma_mul_inequality(hi as int, t as int, d as int);
        lemma_mul_is_commutative(d as int, t as int);
        assert(false);
    }
    // t >= lo: otherwise t + 1 <= lo and n < (t + 1) * d <= lo * d = pow2(l - 1)
    if t < lo {
        lemma_mul_inequality((t + 1) as int, lo as int, d as int);
        lemma_mul_is_distributive_add_other_way(d as int, t as int, 1);
        lemma_mul_is_commutative(d as int, t as int);
        assert(false);
    }
    lemma_pow2_pos((l - 1 - j) as nat);
    lemma_bit_len_unique(t, (l - j) as nat);
}

/// `2^k` for `k < 128`, put together from the powers whose exponents are
/// the binary digits of `k`.
pub fn pow2_u128(k: u32) -> (r: u128)
    requires
        k < 128,
    ensures
        r == pow2(k as nat),
{
    proof {
        lemma2_to64();
        lemma_pow2_128();
    }
    let mut r: u128 = 1;
    let mut rest: u32 = k;
    if rest >= 64 {
        r = 0x1_0000_0000_0000_0000;
        rest = rest - 64;
    }
    assert(r == pow2((k - rest) as nat) && rest < 64);
    if rest >= 32 {
        proof {
            lemma_pow2_adds((k - rest) as nat, 32);
            lemma_pow2_strictly_increases((k - rest + 32) as nat, 128);
        }
        r = r * 0x1_0000_0000;
        rest = rest - 32;
    }
    assert(r == pow2((k - rest) as nat) && rest < 32);
    if rest >= 16 {
        proof {
            lemma_pow2_adds((k - rest) as nat, 16);
            lemma_pow2_strictly_increases((k - rest + 16) as nat, 128);
        }
        r = r * 0x1_0000;
        rest = rest - 16;
    }
    assert(r == pow2((k - rest) as nat) && rest < 16);
    if rest >= 8 {
        proof {
            lemma_pow2_adds((k - rest) as nat, 8);
            lemma_pow2_strictly_increases((k - rest + 8) as nat, 128);
        }
        r = r * 0x100;
        rest = rest - 8;
    }
    assert(r == pow2((k - rest) as nat) && rest < 8);
    if rest >= 4 {
        proof {
            lemma_pow2_adds((k - rest) as nat, 4);
            lemma_pow2_strictly_increases((k - rest + 4) as nat, 128);
        }
        r = r * 0x10;
        rest = rest - 4;
    }
    assert(r == pow2((k - rest) as nat) && rest < 4);
    if rest >= 2 {
        proof {
            lemma_pow2_adds((k - rest) as nat, 2);
            lemma_pow2_strictly_increases((k - rest + 2) as nat, 128);
        }
        r = r * 4;
        rest = rest - 2;
    }
    assert(r == pow2((k - rest) as nat) && rest < 2);
    if rest >= 1 {
        proof {
            lemma_pow2_adds((k - rest) as nat, 1);
            lemma_pow2_strictly_increases((k - rest + 1) as nat, 128);
        }
        r = r * 2;
    }
    r
}

/// The value of `2^128`, one more than the largest `u128`.
pub proof fn lemma_pow2_128()
    ensures
        pow2(128) == 0x1_0000_0000_0000_0000_0000_0000_0000_0000,
{
    lemma2_to64();
    lemma_pow2_adds(64, 64);
}

/// Takes `2^j` out of `x` where it is that long, counting the bits taken.
fn take_bits(x: u128, j: u32, taken: u32) -> (r: (u128, u32))
    requires
        0 < j <= 64,
        taken + bit_len(x as nat) <= 128,
        x < pow2(2 * j as nat),
    ensures
        r.1 + bit_len(r.0 as nat) == taken + bit_len(x as nat),
        r.0 < pow2(j as nat),
        r.0 <= x,
{
    let w: u128 = pow2_u128(j);
    proof {
        lemma_pow2_pos(j as nat);
        lemma_pow2_adds(j as nat, j as nat);
    }
    if x >= w {
        proof {
            lemma_bit_len_drop(x as nat, j as nat);
            lemma_fundamental_div_mod(x as int, w as int);
            lemma_mod_bound(x as int, w as int);
            if x / w >= w {
                lemma_mul_inequality(w as int, (x / w) as int, w as int);
                lemma_mul_is_commutative(w as int, (x / w) as int);
                assert(false);
            }
        }
        (x / w, taken + j)
    } else {
        (x, taken)
    }
}

/// The bit length of a machine word, found by halving the range six times.
pub fn bit_len_u128(n: u128) -> (r: u32)
    ensures
        r == bit_len(n as nat),
        r <= 128,
{
    proof {
        lemma_pow2_128();
        lemma2_to64();
        lemma_bit_len_le(n as nat, 128);
    }
    let (x, taken) = take_bits(n, 64, 0);
    let (x, taken) = take_bits(x, 32, taken);
    let (x, taken) = take_bits(x, 16, taken);
    let (x, taken) = take_bits(x, 8, taken);
    let (x, taken) = take_bits(x, 4, taken);
    let (x, taken) = take_bits(x, 2, taken);
    let (x, taken) = take_bits(x, 1, taken);
    proof {
        assert(x < 2);
        assert(bit_len(0) == 0);
        assert(bit_len(1) == 1) by {
            assert(bit_len(1) == 1 + bit_len(0));
        }
    }
    if x >= 1 {
        taken + 1
    } else {
        taken
    }
}

} // verus!
