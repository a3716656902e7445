use gravity_sim::ieee::arith::{fadd, fdiv, fmul, fneg, fsub};
use gravity_sim::ieee::convert::narrow;
use gravity_sim::ieee::order::{ge, le, lt, nan};
use gravity_sim::ieee::root::{fsqrt, isqrt_u128};
use gravity_sim::ieee::format::{unpack, Format, Unpacked};
use gravity_sim::ieee::pow::{bit_len_u128, pow2_u128};
use gravity_sim::ieee::rounding::round_pack;

/// A small deterministic generator, so that every run sees the same inputs.
struct Lcg(u64);

impl Lcg {
    fn next(&mut self) -> u64 {
        self.0 = self.0.wrapping_mul(6364136223846793005).wrapping_add(1442695040888963407);
        let hi = self.0 >> 32;
        self.0 = self.0.wrapping_mul(6364136223846793005).wrapping_add(1442695040888963407);
        (hi << 32) | (self.0 >> 32)
    }

    /// A pattern whose exponent field lies within `spread` of that of `near`.
    fn near64(&mut self, near: u64, spread: u64) -> u64 {
        let field = (near >> 52) & 0x7ff;
        let delta = self.next() % (2 * spread + 1);
        let field = (field + delta).saturating_sub(spread).min(0x7ff);
        let rest = self.next();
        (rest & 0x800f_ffff_ffff_ffff) | (field << 52)
    }

    fn near32(&mut self, near: u32, spread: u32) -> u32 {
        let field = (near >> 23) & 0xff;
        let delta = (self.next() as u32) % (2 * spread + 1);
        let field = (field + delta).saturating_sub(spread).min(0xff);
        let rest = self.next() as u32;
        (rest & 0x807f_ffff) | (field << 23)
    }
}

fn agree64(got: u64, want: f64) -> bool {
    if want.is_nan() {
        f64::from_bits(got).is_nan()
    } else {
        got == want.to_bits()
    }
}

fn agree32(got: u64, want: f32) -> bool {
    if want.is_nan() {
        got <= 0xffff_ffff && f32::from_bits(got as u32).is_nan()
    } else {
        got == want.to_bits() as u64
    }
}

#[test]
fn add_matches_hardware_on_random_patterns() {
    let mut g = Lcg(1);
    for _ in 0..20000 {
        let a = g.next();
        let b = g.next();
        let want = f64::from_bits(a) + f64::from_bits(b);
        assert!(agree64(fadd(Format::Binary64, a, b), want), "{:#x} + {:#x}", a, b);
    }
}

#[test]
fn add_matches_hardware_on_close_exponents() {
    let mut g = Lcg(2);
    for _ in 0..40000 {
        let a = g.next();
        let b = g.near64(a, 70);
        let want = f64::from_bits(a) + f64::from_bits(b);
        assert!(agree64(fadd(Format::Binary64, a, b), want), "{:#x} + {:#x}", a, b);
    }
}

#[test]
fn sub_matches_hardware_on_close_exponents() {
    let mut g = Lcg(3);
    for _ in 0..40000 {
        let a = g.next();
        let b = g.near64(a, 3);
        let want = f64::from_bits(a) - f64::from_bits(b);
        assert!(agree64(fsub(Format::Binary64, a, b), want), "{:#x} - {:#x}", a, b);
    }
}

#[test]
fn add_matches_hardware_on_subnormals() {
    let mut g = Lcg(4);
    for _ in 0..20000 {
        let a = g.next() & 0x801f_ffff_ffff_ffff;
        let b = g.next() & 0x801f_ffff_ffff_ffff;
        let want = f64::from_bits(a) + f64::from_bits(b);
        assert!(agree64(fadd(Format::Binary64, a, b), want), "{:#x} + {:#x}", a, b);
    }
}

#[test]
fn add_single_matches_hardware() {
    let mut g = Lcg(5);
    for _ in 0..40000 {
        let a = g.next() as u32;
        let b = g.near32(a, 30);
        let want = f32::from_bits(a) + f32::from_bits(b);
        assert!(agree32(fadd(Format::Binary32, a as u64, b as u64), want), "{:#x} + {:#x}", a, b);
    }
}

#[test]
fn mul_matches_hardware_on_random_patterns() {
    let mut g = Lcg(6);
    for _ in 0..20000 {
        let a = g.next();
        let b = g.next();
        let want = f64::from_bits(a) * f64::from_bits(b);
        assert!(agree64(fmul(Format::Binary64, a, b), want), "{:#x} * {:#x}", a, b);
    }
}

#[test]
fn mul_matches_hardware_near_the_ends_of_the_range() {
    let mut g = Lcg(7);
    for _ in 0..40000 {
        let a = g.next();
        // an exponent field that mirrors that of `a` around the bias, so that
        // products land near one, near overflow or near underflow
        let field = (a >> 52) & 0x7ff;
        let offsets = [0u64, 1020, 1023, 1024, 2046, 2090, 2100];
        let target = offsets[(g.next() % 7) as usize];
        let mirrored = target.saturating_sub(field).min(0x7fe);
        let b = g.near64(mirrored << 52, 2);
        let want = f64::from_bits(a) * f64::from_bits(b);
        assert!(agree64(fmul(Format::Binary64, a, b), want), "{:#x} * {:#x}", a, b);
    }
}

#[test]
fn signed_zeros_and_infinities_add_as_the_standard_says() {
    let pz = 0.0f64.to_bits();
    let nz = (-0.0f64).to_bits();
    let inf = f64::INFINITY.to_bits();
    let ninf = f64::NEG_INFINITY.to_bits();
    let one = 1.0f64.to_bits();
    assert_eq!(fadd(Format::Binary64, pz, nz), pz);
    assert_eq!(fadd(Format::Binary64, nz, nz), nz);
    assert_eq!(fadd(Format::Binary64, one, (-1.0f64).to_bits()), pz);
    assert_eq!(fadd(Format::Binary64, inf, one), inf);
    assert_eq!(fadd(Format::Binary64, ninf, one), ninf);
    assert_eq!(fadd(Format::Binary64, inf, ninf), 0x7ff8_0000_0000_0000);
    assert_eq!(fmul(Format::Binary64, inf, pz), 0x7ff8_0000_0000_0000);
    assert_eq!(fmul(Format::Binary64, ninf, one), ninf);
    assert_eq!(fmul(Format::Binary64, nz, one), nz);
    assert_eq!(fadd(Format::Binary64, f64::MAX.to_bits(), f64::MAX.to_bits()), inf);
}

#[test]
fn div_matches_hardware_on_random_patterns() {
    let mut g = Lcg(8);
    for _ in 0..20000 {
        let a = g.next();
        let b = g.next();
        let want = f64::from_bits(a) / f64::from_bits(b);
        assert!(agree64(fdiv(Format::Binary64, a, b), want), "{:#x} / {:#x}", a, b);
    }
}

#[test]
fn div_matches_hardware_on_close_exponents() {
    let mut g = Lcg(9);
    for _ in 0..40000 {
        let a = g.next();
        let b = g.near64(a, 2);
        let want = f64::from_bits(a) / f64::from_bits(b);
        assert!(agree64(fdiv(Format::Binary64, a, b), want), "{:#x} / {:#x}", a, b);
    }
}

#[test]
fn div_matches_hardware_near_the_ends_of_the_range() {
    let mut g = Lcg(10);
    for _ in 0..40000 {
        let a = g.next();
        let field = (a >> 52) & 0x7ff;
        let offsets = [0i64, 1, 52, 1020, 1022, 1023, 1024, 1075, -1020, -1023, -1024, -1075];
        let shift = offsets[(g.next() % 12) as usize];
        let other = (field as i64 + shift).clamp(0, 0x7fe) as u64;
        let b = g.near64(other << 52, 1);
        let want = f64::from_bits(a) / f64::from_bits(b);
        assert!(agree64(fdiv(Format::Binary64, a, b), want), "{:#x} / {:#x}", a, b);
    }
}

#[test]
fn div_by_small_integers_matches_hardware() {
    for n in 1..200u32 {
        for d in 1..200u32 {
            let want = n as f64 / d as f64;
            let got = fdiv(Format::Binary64, (n as f64).to_bits(), (d as f64).to_bits());
            assert_eq!(got, want.to_bits(), "{} / {}", n, d);
        }
    }
}

#[test]
fn division_special_cases() {
    let pz = 0.0f64.to_bits();
    let nz = (-0.0f64).to_bits();
    let inf = f64::INFINITY.to_bits();
    let ninf = f64::NEG_INFINITY.to_bits();
    let one = 1.0f64.to_bits();
    let qnan = 0x7ff8_0000_0000_0000u64;
    assert_eq!(fdiv(Format::Binary64, pz, pz), qnan);
    assert_eq!(fdiv(Format::Binary64, inf, ninf), qnan);
    assert_eq!(fdiv(Format::Binary64, one, pz), inf);
    assert_eq!(fdiv(Format::Binary64, one, nz), ninf);
    assert_eq!(fdiv(Format::Binary64, pz, one), pz);
    assert_eq!(fdiv(Format::Binary64, nz, one), nz);
    assert_eq!(fdiv(Format::Binary64, one, inf), pz);
    assert_eq!(fdiv(Format::Binary64, one, ninf), nz);
    assert_eq!(fdiv(Format::Binary64, ninf, one), ninf);
    assert_eq!(fdiv(Format::Binary64, 1.0f64.to_bits(), 60.0f64.to_bits()), (1.0f64 / 60.0).to_bits());
}

#[test]
fn sqrt_matches_hardware_on_random_patterns() {
    let mut g = Lcg(11);
    for _ in 0..40000 {
        let a = g.next();
        let want = f64::from_bits(a).sqrt();
        assert!(agree64(fsqrt(Format::Binary64, a), want), "sqrt {:#x}", a);
    }
}

#[test]
fn sqrt_matches_hardware_on_subnormals_and_squares() {
    let mut g = Lcg(12);
    for _ in 0..20000 {
        let a = g.next() & 0x001f_ffff_ffff_ffff;
        let want = f64::from_bits(a).sqrt();
        assert!(agree64(fsqrt(Format::Binary64, a), want), "sqrt {:#x}", a);
    }
    for n in 0..3000u64 {
        let sq = ((n * n) as f64).to_bits();
        assert_eq!(fsqrt(Format::Binary64, sq), (n as f64).to_bits());
        let near = ((n * n + 1) as f64).to_bits();
        assert_eq!(fsqrt(Format::Binary64, near), ((n * n + 1) as f64).sqrt().to_bits());
    }
}

#[test]
fn sqrt_special_cases() {
    let qnan = 0x7ff8_0000_0000_0000u64;
    assert_eq!(fsqrt(Format::Binary64, 0), 0);
    assert_eq!(fsqrt(Format::Binary64, (-0.0f64).to_bits()), (-0.0f64).to_bits());
    assert_eq!(fsqrt(Format::Binary64, (-1.0f64).to_bits()), qnan);
    assert_eq!(fsqrt(Format::Binary64, f64::INFINITY.to_bits()), f64::INFINITY.to_bits());
    assert_eq!(fsqrt(Format::Binary64, f64::NEG_INFINITY.to_bits()), qnan);
    assert_eq!(fsqrt(Format::Binary64, 2.0f64.to_bits()), 2.0f64.sqrt().to_bits());
    assert_eq!(fsqrt(Format::Binary64, f64::MAX.to_bits()), f64::MAX.sqrt().to_bits());
    assert_eq!(fsqrt(Format::Binary64, 1), f64::from_bits(1).sqrt().to_bits());
}

#[test]
fn integer_square_root_rounds_down() {
    assert_eq!(isqrt_u128(0), 0);
    assert_eq!(isqrt_u128(1), 1);
    assert_eq!(isqrt_u128(3), 1);
    assert_eq!(isqrt_u128(4), 2);
    assert_eq!(isqrt_u128(99), 9);
    assert_eq!(isqrt_u128(100), 10);
    assert_eq!(isqrt_u128(u128::MAX), u64::MAX);
    assert_eq!(isqrt_u128((u64::MAX as u128) * (u64::MAX as u128)), u64::MAX);
    assert_eq!(isqrt_u128((u64::MAX as u128) * (u64::MAX as u128) - 1), u64::MAX - 1);
}

#[test]
fn comparisons_match_hardware() {
    let mut g = Lcg(13);
    for i in 0..60000 {
        let a = g.next();
        let b = if i % 3 == 0 { g.next() } else if i % 3 == 1 { g.near64(a, 1) } else { a ^ (g.next() & 0x8000_0000_0000_0001) };
        let (x, y) = (f64::from_bits(a), f64::from_bits(b));
        assert_eq!(le(Format::Binary64, a, b), x <= y, "{:#x} <= {:#x}", a, b);
        assert_eq!(lt(Format::Binary64, a, b), x < y, "{:#x} < {:#x}", a, b);
        assert_eq!(ge(Format::Binary64, a, b), x >= y, "{:#x} >= {:#x}", a, b);
        assert_eq!(nan(Format::Binary64, a), x.is_nan());
    }
}

#[test]
fn comparisons_of_zeros_infinities_and_nans() {
    let pz = 0.0f64.to_bits();
    let nz = (-0.0f64).to_bits();
    let inf = f64::INFINITY.to_bits();
    let ninf = f64::NEG_INFINITY.to_bits();
    let qnan = f64::NAN.to_bits();
    assert!(le(Format::Binary64, pz, nz));
    assert!(le(Format::Binary64, nz, pz));
    assert!(!lt(Format::Binary64, nz, pz));
    assert!(le(Format::Binary64, ninf, inf));
    assert!(le(Format::Binary64, inf, inf));
    assert!(!lt(Format::Binary64, inf, inf));
    assert!(lt(Format::Binary64, ninf, pz));
    assert!(!le(Format::Binary64, qnan, qnan));
    assert!(!ge(Format::Binary64, qnan, pz));
    assert!(!le(Format::Binary64, pz, qnan));
}

#[test]
fn single_precision_comparisons_match_hardware() {
    let mut g = Lcg(14);
    for _ in 0..40000 {
        let a = g.next() as u32;
        let b = g.near32(a, 1);
        let (x, y) = (f32::from_bits(a), f32::from_bits(b));
        assert_eq!(le(Format::Binary32, a as u64, b as u64), x <= y, "{:#x} <= {:#x}", a, b);
        assert_eq!(lt(Format::Binary32, a as u64, b as u64), x < y, "{:#x} < {:#x}", a, b);
    }
}

#[test]
fn narrowing_matches_hardware() {
    let mut g = Lcg(15);
    for i in 0..60000 {
        let a = if i % 2 == 0 {
            g.next()
        } else {
            // exponents around the range of single precision
            let field = 1023 - 160 + g.next() % 320;
            (g.next() & 0x800f_ffff_ffff_ffff) | (field << 52)
        };
        let want = f64::from_bits(a) as f32;
        assert!(agree32(narrow(a) as u64, want), "narrow {:#x}", a);
    }
}

#[test]
fn narrowing_rounds_ties_to_even_and_overflows_to_infinity() {
    // 1 + 2^-24 lies halfway between 1 and the next single: the tie goes to 1
    assert_eq!(narrow((1.0f64 + 2f64.powi(-24)).to_bits()), 1.0f32.to_bits());
    // 1 + 3 * 2^-24 lies halfway between two singles: the tie goes to the even one
    assert_eq!(narrow((1.0f64 + 3.0 * 2f64.powi(-24)).to_bits()), (1.0f32 + 2f32.powi(-22)).to_bits());
    assert_eq!(narrow(1e300f64.to_bits()), f32::INFINITY.to_bits());
    assert_eq!(narrow((-1e300f64).to_bits()), f32::NEG_INFINITY.to_bits());
    assert_eq!(narrow(1e-300f64.to_bits()), 0);
    assert_eq!(narrow(5.0f64.to_bits()), 5.0f32.to_bits());
}

#[test]
fn negation_flips_the_sign_only() {
    assert_eq!(fneg(Format::Binary64, 1.5f64.to_bits()), (-1.5f64).to_bits());
    assert_eq!(fneg(Format::Binary64, (-0.0f64).to_bits()), 0);
    assert_eq!(fneg(Format::Binary64, f64::INFINITY.to_bits()), f64::NEG_INFINITY.to_bits());
    assert_eq!(fneg(Format::Binary32, 2.0f32.to_bits() as u64), (-2.0f32).to_bits() as u64);
}

fn notable64() -> Vec<u64> {
    let mut v: Vec<u64> = Vec::new();
    let values = [
        0.0f64,
        1.0,
        2.0,
        0.5,
        1.5,
        3.0,
        1e300,
        1e-300,
        1e30,
        5.0,
        696_000.0,
        6.673e-20,
        1.0 / 60.0,
        f64::MAX,
        f64::MIN_POSITIVE,
        f64::EPSILON,
        f64::INFINITY,
        f64::NAN,
    ];
    for x in values {
        v.push(x.to_bits());
        v.push((-x).to_bits());
    }
    // subnormals and neighbours of the boundaries
    for bits in [1u64, 2, 3, 0x000f_ffff_ffff_ffff, 0x0010_0000_0000_0001, 0x7fef_ffff_ffff_fffe, 0x3ff0_0000_0000_0001, 0x3fef_ffff_ffff_ffff, 0x7ff0_0000_0000_0001] {
        v.push(bits);
        v.push(bits | 0x8000_0000_0000_0000);
    }
    v
}

fn notable32() -> Vec<u32> {
    let mut v: Vec<u32> = Vec::new();
    let values = [0.0f32, 1.0, 0.5, 1.75, 0.0091743, 0.366972, 1e30, 1e-30, f32::MAX, f32::MIN_POSITIVE, f32::INFINITY, f32::NAN];
    for x in values {
        v.push(x.to_bits());
        v.push((-x).to_bits());
    }
    for bits in [1u32, 2, 0x007f_ffff, 0x0080_0001, 0x7f7f_fffe, 0x3f80_0001] {
        v.push(bits);
        v.push(bits | 0x8000_0000);
    }
    v
}

#[test]
fn every_operation_matches_hardware_on_notable_values() {
    let all = notable64();
    for &a in &all {
        let x = f64::from_bits(a);
        assert!(agree64(fsqrt(Format::Binary64, a), x.sqrt()), "sqrt {:#x}", a);
        assert!(agree32(narrow(a) as u64, x as f32), "narrow {:#x}", a);
        for &b in &all {
            let y = f64::from_bits(b);
            assert!(agree64(fadd(Format::Binary64, a, b), x + y), "{:#x} + {:#x}", a, b);
            assert!(agree64(fsub(Format::Binary64, a, b), x - y), "{:#x} - {:#x}", a, b);
            assert!(agree64(fmul(Format::Binary64, a, b), x * y), "{:#x} * {:#x}", a, b);
            assert!(agree64(fdiv(Format::Binary64, a, b), x / y), "{:#x} / {:#x}", a, b);
            assert_eq!(le(Format::Binary64, a, b), x <= y, "{:#x} <= {:#x}", a, b);
            assert_eq!(lt(Format::Binary64, a, b), x < y, "{:#x} < {:#x}", a, b);
            assert_eq!(ge(Format::Binary64, a, b), x >= y, "{:#x} >= {:#x}", a, b);
        }
    }
}

#[test]
fn single_precision_matches_hardware_on_notable_values() {
    let all = notable32();
    for &a in &all {
        let x = f32::from_bits(a);
        assert!(agree32(fsqrt(Format::Binary32, a as u64), x.sqrt()), "sqrt {:#x}", a);
        for &b in &all {
            let y = f32::from_bits(b);
            assert!(agree32(fadd(Format::Binary32, a as u64, b as u64), x + y), "{:#x} + {:#x}", a, b);
            assert!(agree32(fsub(Format::Binary32, a as u64, b as u64), x - y), "{:#x} - {:#x}", a, b);
            assert!(agree32(fmul(Format::Binary32, a as u64, b as u64), x * y), "{:#x} * {:#x}", a, b);
            assert!(agree32(fdiv(Format::Binary32, a as u64, b as u64), x / y), "{:#x} / {:#x}", a, b);
            assert_eq!(le(Format::Binary32, a as u64, b as u64), x <= y, "{:#x} <= {:#x}", a, b);
        }
    }
}

#[test]
fn zero_times_a_large_number_is_zero() {
    assert_eq!(fmul(Format::Binary64, 0, 1e300f64.to_bits()), 0);
    assert_eq!(fmul(Format::Binary64, (-0.0f64).to_bits(), 1e300f64.to_bits()), (-0.0f64).to_bits());
    assert_eq!(fmul(Format::Binary64, 1e300f64.to_bits(), 0), 0);
    assert_eq!(fdiv(Format::Binary64, 0, 1e-300f64.to_bits()), 0);
}

#[test]
fn single_precision_mul_div_sqrt_match_hardware() {
    let mut g = Lcg(16);
    for _ in 0..30000 {
        let a = g.next() as u32;
        let b = g.next() as u32;
        let (x, y) = (f32::from_bits(a), f32::from_bits(b));
        assert!(agree32(fmul(Format::Binary32, a as u64, b as u64), x * y), "{:#x} * {:#x}", a, b);
        assert!(agree32(fdiv(Format::Binary32, a as u64, b as u64), x / y), "{:#x} / {:#x}", a, b);
        assert!(agree32(fsqrt(Format::Binary32, a as u64), x.sqrt()), "sqrt {:#x}", a);
        let c = g.near32(a, 3);
        let z = f32::from_bits(c);
        assert!(agree32(fdiv(Format::Binary32, a as u64, c as u64), x / z), "{:#x} / {:#x}", a, c);
        assert!(agree32(fmul(Format::Binary32, a as u64, c as u64), x * z), "{:#x} * {:#x}", a, c);
    }
}

#[test]
fn powers_of_two_and_bit_lengths() {
    for k in 0..128u32 {
        assert_eq!(pow2_u128(k), 1u128 << k);
        assert_eq!(bit_len_u128(1u128 << k), k + 1);
        assert_eq!(bit_len_u128((1u128 << k) - 1), k);
        assert_eq!(bit_len_u128((1u128 << k) | 1), k + 1);
    }
    assert_eq!(bit_len_u128(0), 0);
    assert_eq!(bit_len_u128(u128::MAX), 128);
    assert_eq!(bit_len_u128(0x20_0000_0000_0000 - 1), 53);
}

#[test]
fn unpacking_gives_sign_significand_and_exponent() {
    // 1.0 = 2^52 * 2^-52
    match unpack(Format::Binary64, 1.0f64.to_bits()) {
        Unpacked::Fin { neg, mant, exp } => assert_eq!((neg, mant, exp), (false, 1u64 << 52, -52)),
        other => panic!("{:?}", other),
    }
    // -6.5 = -(13 * 2^50) * 2^-50
    match unpack(Format::Binary64, (-6.5f64).to_bits()) {
        Unpacked::Fin { neg, mant, exp } => assert_eq!((neg, mant, exp), (true, 13u64 << 49, -50)),
        other => panic!("{:?}", other),
    }
    // the smallest subnormal
    match unpack(Format::Binary64, 1) {
        Unpacked::Fin { neg, mant, exp } => assert_eq!((neg, mant, exp), (false, 1, -1074)),
        other => panic!("{:?}", other),
    }
    match unpack(Format::Binary64, 0x8000_0000_0000_0000) {
        Unpacked::Fin { neg, mant, exp } => assert_eq!((neg, mant, exp), (true, 0, -1074)),
        other => panic!("{:?}", other),
    }
    assert!(matches!(unpack(Format::Binary64, f64::INFINITY.to_bits()), Unpacked::Inf { neg: false }));
    assert!(matches!(unpack(Format::Binary64, f64::NEG_INFINITY.to_bits()), Unpacked::Inf { neg: true }));
    assert!(matches!(unpack(Format::Binary64, f64::NAN.to_bits()), Unpacked::Nan));
    match unpack(Format::Binary32, 1.0f32.to_bits() as u64) {
        Unpacked::Fin { neg, mant, exp } => assert_eq!((neg, mant, exp), (false, 1u64 << 23, -23)),
        other => panic!("{:?}", other),
    }
    // a word with bits above the single-precision pattern denotes no number
    assert!(matches!(unpack(Format::Binary32, 1u64 << 40), Unpacked::Nan));
}

#[test]
fn rounding_goes_to_nearest_and_ties_go_to_even() {
    let one = 1.0f64.to_bits();
    // 2^53 + 1 lies halfway between two doubles: the tie goes to 2^53
    assert_eq!(round_pack(Format::Binary64, false, (1u128 << 53) + 1, 0, false), 9007199254740992.0f64.to_bits());
    // with something beyond the halfway point it goes up
    assert_eq!(round_pack(Format::Binary64, false, (1u128 << 53) + 1, 0, true), 9007199254740994.0f64.to_bits());
    // 2^53 + 3 lies halfway too: the tie goes to the even 2^53 + 4
    assert_eq!(round_pack(Format::Binary64, false, (1u128 << 53) + 3, 0, false), 9007199254740996.0f64.to_bits());
    assert_eq!(round_pack(Format::Binary64, false, 1, 0, false), one);
    assert_eq!(round_pack(Format::Binary64, true, 1 << 20, -20, false), (-1.0f64).to_bits());
    assert_eq!(round_pack(Format::Binary64, false, 3, -1, false), 1.5f64.to_bits());
    assert_eq!(round_pack(Format::Binary64, false, 0, 900, false), 0);
    assert_eq!(round_pack(Format::Binary64, true, 0, -5000, true), (-0.0f64).to_bits());
    // half the smallest subnormal is a tie between zero and it: zero is even
    assert_eq!(round_pack(Format::Binary64, false, 1, -1075, false), 0);
    assert_eq!(round_pack(Format::Binary64, false, 1, -1075, true), 1);
    assert_eq!(round_pack(Format::Binary64, false, 3, -1075, false), 2);
    // beyond the largest finite number
    assert_eq!(round_pack(Format::Binary64, false, 1, 1024, false), f64::INFINITY.to_bits());
    assert_eq!(round_pack(Format::Binary64, true, 1, 2_000_000_000, false), f64::NEG_INFINITY.to_bits());
    assert_eq!(round_pack(Format::Binary64, false, u128::MAX, 896, false), f64::INFINITY.to_bits());
    assert_eq!(round_pack(Format::Binary64, false, u128::MAX, -2_000_000_000, true), 0);
    assert_eq!(round_pack(Format::Binary32, false, 3, -1, false), 1.5f32.to_bits() as u64);
    assert_eq!(round_pack(Format::Binary32, false, (1 << 24) + 1, 0, false), 16777216.0f32.to_bits() as u64);
}
