//! Conversions: from double to single precision, and from double precision
//! to a machine integer.
use crate::ieee::format::{Format, Unpacked, Value, decode, unpack};
use crate::ieee::pow::pow2_u128;
use crate::ieee::rounding::{lemma_round_negate, round, round_pack};
use vstd::arithmetic::power2::*;
use vstd::prelude::*;

verus! {

/// The binary32 pattern nearest to a binary64 pattern, ties to even; beyond
/// the range of binary32 an infinity.
#[verifier::opaque]
pub open spec fn narrow_spec(a: nat) -> nat {
    match decode(Format::Binary64, a) {
        Value::Nan => Format::Binary32.nan(),
        Value::Inf { neg } => Format::Binary32.infinity(neg),
        Value::Fin { neg, mant, exp } => round(Format::Binary32, neg, mant, exp, false),
    }
}

/// Converts a binary64 pattern to binary32.
pub fn narrow(a: u64) -> (r: u32)
    ensures
        r == narrow_spec(a as nat),
{
    reveal(narrow_spec);
    match unpack(Format::Binary64, a) {
        Unpacked::Nan => Format::Binary32.nan_bits() as u32,
        Unpacked::Inf { neg } => Format::Binary32.infinity_bits(neg) as u32,
        Unpacked::Fin { neg, mant, exp } => {
            let r = round_pack(Format::Binary32, neg, mant as u128, exp, false);
            proof {
                lemma_round_negate(Format::Binary32, neg, mant as nat, exp as int, false);
            }
            r as u32
        },
    }
}

/// The integer part of a binary64 number, cut to the range of `i32`: the
/// number rounded towards zero, the nearest end of the range where that is
/// out of it, and zero for a NaN.
pub open spec fn truncated(a: nat) -> int {
    match decode(Format::Binary64, a) {
        Value::Nan => 0,
        Value::Inf { neg } => if neg {
            i32::MIN as int
        } else {
            i32::MAX as int
        },
        Value::Fin { neg, mant, exp } => {
            let whole: int = if exp >= 0 {
                (mant * pow2(exp as nat)) as int
            } else {
                mant as int / pow2((-exp) as nat) as int
            };
            if neg {
                if whole >= 0x8000_0000 {
                    i32::MIN as int
                } else {
                    -whole
                }
            } else {
                if whole >= 0x7fff_ffff {
                    i32::MAX as int
                } else {
                    whole
                }
            }
        },
    }
}

/// Converts a binary64 pattern to an `i32`, towards zero and saturating.
pub fn truncate(a: u64) -> (r: i32)
    ensures
        r == truncated(a as nat),
{
    match unpack(Format::Binary64, a) {
        Unpacked::Nan => 0,
        Unpacked::Inf { neg } => if neg {
            i32::MIN
        } else {
            i32::MAX
        },
        Unpacked::Fin { neg, mant, exp } => {
            proof {
                lemma2_to64();
                lemma2_to64_rest();
            }
            let whole: u64 = if mant == 0 {
                proof {
                    if exp >= 0 {
                        vstd::arithmetic::mul::lemma_mul_basics(pow2(exp as nat) as int);
                    } else {
                        lemma_pow2_pos((-exp) as nat);
                        vstd::arithmetic::div_mod::lemma_basic_div(0, pow2((-exp) as nat) as int);
                    }
                }
                0
            } else if exp >= 32 {
                proof {
                    if exp > 32 {
                        lemma_pow2_strictly_increases(32, exp as nat);
                    }
                    assert(mant * pow2(exp as nat) >= 0x1_0000_0000) by (nonlinear_arith)
                        requires
                            mant >= 1,
                            pow2(exp as nat) >= 0x1_0000_0000,
                    ;
                }
                0x1_0000_0000
            } else if exp >= 0 {
                let w: u128 = pow2_u128(exp as u32);
                proof {
                    if exp < 31 {
                        lemma_pow2_strictly_increases(exp as nat, 31);
                    }
                    vstd::arithmetic::mul::lemma_mul_upper_bound(
                        mant as int,
                        0x20_0000_0000_0000,
                        w as int,
                        0x8000_0000,
                    );
                }
                let v: u128 = (mant as u128) * w;
                if v >= 0x1_0000_0000 {
                    0x1_0000_0000
                } else {
                    v as u64
                }
            } else if exp <= -64 {
                proof {
                    lemma_pow2_strictly_increases(53, (-exp) as nat);
                    vstd::arithmetic::div_mod::lemma_basic_div(
                        mant as int,
                        pow2((-exp) as nat) as int,
                    );
                }
                0
            } else {
                let w: u128 = pow2_u128((-exp) as u32);
                proof {
                    lemma_pow2_pos((-exp) as nat);
                }
                ((mant as u128) / w) as u64
            };
            if neg {
                if whole >= 0x8000_0000 {
                    i32::MIN
                } else {
                    -(whole as i32)
                }
            } else {
                if whole >= 0x7fff_ffff {
                    i32::MAX
                } else {
                    whole as i32
                }
            }
        },
    }
}

} // verus!
