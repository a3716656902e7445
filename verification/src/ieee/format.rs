//! The two interchange formats of IEEE 754 that the simulation uses, and how
//! a bit pattern of either denotes a number.
//!
//! A bit pattern is carried in a `u64`; a binary32 pattern occupies its low
//! 32 bits. A finite pattern denotes `(-1)^neg * mant * 2^exp`.
use vstd::arithmetic::div_mod::*;
use vstd::arithmetic::power2::*;
use vstd::prelude::*;

verus! {

/// An IEEE 754 binary interchange format.
#[derive(Clone, Copy, PartialEq, Eq, Structural, Debug)]
pub enum Format {
    /// Single precision: 1 sign bit, 8 exponent bits, 23 fraction bits.
    Binary32,
    /// Double precision: 1 sign bit, 11 exponent bits, 52 fraction bits.
    Binary64,
}

/// What a bit pattern denotes.
pub enum Value {
    /// Not a number.
    Nan,
    /// An infinity.
    Inf { neg: bool },
    /// The number `(-1)^neg * mant * 2^exp`.
    Fin { neg: bool, mant: nat, exp: int },
}

/// A decoded bit pattern, in machine integers.
#[derive(Clone, Copy, Debug)]
pub enum Unpacked {
    Nan,
    Inf { neg: bool },
    Fin { neg: bool, mant: u64, exp: i32 },
}

impl View for Unpacked {
    type V = Value;

    open spec fn view(&self) -> Value {
        match *self {
            Unpacked::Nan => Value::Nan,
            Unpacked::Inf { neg } => Value::Inf { neg },
            Unpacked::Fin { neg, mant, exp } => Value::Fin { neg, mant: mant as nat, exp: exp as int },
        }
    }
}

impl Format {
    /// Number of significant bits, the implicit leading bit included.
    pub open spec fn precision(self) -> nat {
        match self {
            Format::Binary32 => 24,
            Format::Binary64 => 53,
        }
    }

    /// Exponent of the last bit of a subnormal number: the smallest positive
    /// number of the format is `2^min_exp`.
    pub open spec fn min_exp(self) -> int {
        match self {
            Format::Binary32 => -149,
            Format::Binary64 => -1074,
        }
    }

    /// Width of the exponent field.
    pub open spec fn exp_bits(self) -> nat {
        match self {
            Format::Binary32 => 8,
            Format::Binary64 => 11,
        }
    }

    /// Weight of the implicit leading bit within the significand:
    /// `2^(precision - 1)`.
    pub open spec fn hidden(self) -> nat {
        match self {
            Format::Binary32 => 0x80_0000,
            Format::Binary64 => 0x10_0000_0000_0000,
        }
    }

    /// The pattern of positive infinity: exponent field all ones, fraction
    /// zero.
    pub open spec fn inf(self) -> nat {
        match self {
            Format::Binary32 => 0x7f80_0000,
            Format::Binary64 => 0x7ff0_0000_0000_0000,
        }
    }

    /// The sign bit.
    pub open spec fn sign(self) -> nat {
        match self {
            Format::Binary32 => 0x8000_0000,
            Format::Binary64 => 0x8000_0000_0000_0000,
        }
    }

    /// The pattern that every operation gives for "not a number": positive
    /// sign, quiet bit set, no payload.
    pub open spec fn nan(self) -> nat {
        match self {
            Format::Binary32 => 0x7fc0_0000,
            Format::Binary64 => 0x7ff8_0000_0000_0000,
        }
    }

    /// A zero of the given sign.
    pub open spec fn zero(self, neg: bool) -> nat {
        if neg {
            self.sign()
        } else {
            0
        }
    }

    /// An infinity of the given sign.
    pub open spec fn infinity(self, neg: bool) -> nat {
        if neg {
            self.sign() + self.inf()
        } else {
            self.inf()
        }
    }

    /// How the constants of a format hang together.
    pub proof fn lemma_constants(self)
        ensures
            self.hidden() == pow2((self.precision() - 1) as nat),
            2 * self.hidden() == pow2(self.precision()),
            self.inf() == (pow2(self.exp_bits()) - 1) * self.hidden(),
            self.sign() == pow2(self.exp_bits()) * self.hidden(),
            self.nan() == self.inf() + self.hidden() / 2,
    {
        lemma2_to64();
        lemma2_to64_rest();
    }

    /// Number of significant bits.
    pub fn precision_bits(self) -> (r: i64)
        ensures
            r == self.precision(),
    {
        match self {
            Format::Binary32 => 24,
            Format::Binary64 => 53,
        }
    }

    /// Exponent of the last bit of a subnormal number.
    pub fn min_exponent(self) -> (r: i64)
        ensures
            r == self.min_exp(),
    {
        match self {
            Format::Binary32 => -149,
            Format::Binary64 => -1074,
        }
    }

    /// Weight of the implicit leading bit within the significand.
    pub fn hidden_bit(self) -> (r: u64)
        ensures
            r == self.hidden(),
    {
        match self {
            Format::Binary32 => 0x80_0000,
            Format::Binary64 => 0x10_0000_0000_0000,
        }
    }

    /// The pattern of positive infinity.
    pub fn inf_bits(self) -> (r: u64)
        ensures
            r == self.inf(),
    {
        match self {
            Format::Binary32 => 0x7f80_0000,
            Format::Binary64 => 0x7ff0_0000_0000_0000,
        }
    }

    /// The sign bit.
    pub fn sign_bit(self) -> (r: u64)
        ensures
            r == self.sign(),
    {
        match self {
            Format::Binary32 => 0x8000_0000,
            Format::Binary64 => 0x8000_0000_0000_0000,
        }
    }

    /// The NaN that every operation gives.
    pub fn nan_bits(self) -> (r: u64)
        ensures
            r == self.nan(),
    {
        match self {
            Format::Binary32 => 0x7fc0_0000,
            Format::Binary64 => 0x7ff8_0000_0000_0000,
        }
    }

    /// A zero of the given sign.
    pub fn zero_bits(self, neg: bool) -> (r: u64)
        ensures
            r == self.zero(neg),
    {
        if neg {
            self.sign_bit()
        } else {
            0
        }
    }

    /// An infinity of the given sign.
    pub fn infinity_bits(self, neg: bool) -> (r: u64)
        ensures
            r == self.infinity(neg),
    {
        if neg {
            self.sign_bit() + self.inf_bits()
        } else {
            self.inf_bits()
        }
    }
}

/// The pattern without its sign bit.
pub open spec fn magnitude(fmt: Format, bits: nat) -> nat {
    if bits >= fmt.sign() {
        (bits - fmt.sign()) as nat
    } else {
        bits
    }
}

/// What `bits` denotes in `fmt`.
///
/// With a zero exponent field the number is subnormal, `frac * 2^min_exp`;
/// otherwise the leading bit is implicit and each step of the exponent field
/// doubles the weight of the last bit.
pub open spec fn decode(fmt: Format, bits: nat) -> Value {
    let neg = bits >= fmt.sign();
    let mag = magnitude(fmt, bits);
    if mag > fmt.inf() {
        Value::Nan
    } else if mag == fmt.inf() {
        Value::Inf { neg }
    } else {
        let field = mag / fmt.hidden();
        let frac = mag % fmt.hidden();
        if field == 0 {
            Value::Fin { neg, mant: frac, exp: fmt.min_exp() }
        } else {
            Value::Fin { neg, mant: fmt.hidden() + frac, exp: fmt.min_exp() + field - 1 }
        }
    }
}

/// A decoded finite value has the shape that the format allows: a
/// significand within the precision, normalised wherever the exponent is
/// above the minimum.
pub open spec fn canonical(fmt: Format, v: Value) -> bool {
    match v {
        Value::Fin { neg, mant, exp } => {
            &&& mant < 2 * fmt.hidden()
            &&& fmt.min_exp() <= exp <= fmt.min_exp() + pow2(fmt.exp_bits()) - 3
            &&& exp > fmt.min_exp() ==> mant >= fmt.hidden()
        },
        _ => true,
    }
}

/// Every decoded value is canonical.
pub proof fn lemma_decode_canonical(fmt: Format, bits: nat)
    ensures
        canonical(fmt, decode(fmt, bits)),
{
    fmt.lemma_constants();
    lemma2_to64();
    let mag = magnitude(fmt, bits);
    if mag < fmt.inf() {
        let h = fmt.hidden() as int;
        lemma_fundamental_div_mod(mag as int, h);
        lemma_mod_bound(mag as int, h);
        let field = mag as int / h;
        if field > pow2(fmt.exp_bits()) - 2 {
            assert(h * field >= h * (pow2(fmt.exp_bits()) - 1)) by (nonlinear_arith)
                requires
                    h > 0,
                    field >= pow2(fmt.exp_bits()) - 1,
            ;
            assert(h * (pow2(fmt.exp_bits()) - 1) == (pow2(fmt.exp_bits()) - 1) * h)
                by (nonlinear_arith);
            assert(false);
        }
        assert(field >= 0) by (nonlinear_arith)
            requires
                mag >= 0,
                h > 0,
                field == mag as int / h,
        ;
    }
}

/// Decodes `bits`.
pub fn unpack(fmt: Format, bits: u64) -> (r: Unpacked)
    ensures
        r@ == decode(fmt, bits as nat),
        canonical(fmt, r@),
{
    proof {
        lemma_decode_canonical(fmt, bits as nat);
        fmt.lemma_constants();
        lemma2_to64();
    }
    let sign = fmt.sign_bit();
    let neg = bits >= sign;
    let mag: u64 = if neg {
        bits - sign
    } else {
        bits
    };
    let inf = fmt.inf_bits();
    if mag > inf {
        Unpacked::Nan
    } else if mag == inf {
        Unpacked::Inf { neg }
    } else {
        let h = fmt.hidden_bit();
        let field: u64 = mag / h;
        let frac: u64 = mag % h;
        let emin = fmt.min_exponent();
        if field == 0 {
            Unpacked::Fin { neg, mant: frac, exp: emin as i32 }
        } else {
            Unpacked::Fin { neg, mant: h + frac, exp: (emin + field as i64 - 1) as i32 }
        }
    }
}

/// Flips the sign bit: the negation of every value, a NaN left a NaN.
pub open spec fn negate(fmt: Format, bits: nat) -> nat {
    if bits >= fmt.sign() {
        (bits - fmt.sign()) as nat
    } else {
        bits + fmt.sign()
    }
}

} // verus!
