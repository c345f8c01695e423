//! Audio samples as binary32 bit patterns.
//!
//! A sample is a `u32` that holds the bits of a binary32 floating-point number.
//! What a finite pattern stands for is read here as an integer, in units of
//! `2^-149`: the smallest positive binary32 number, of which every finite one is a
//! multiple.
use vstd::prelude::*;
use vstd::arithmetic::power2::*;
use vstd::arithmetic::div_mod::*;
use vstd::arithmetic::mul::*;
use crate::rounding::{
    bit_length, div_nearest_even, lemma_bit_length_above, lemma_bit_length_below,
    lemma_bit_length_bounds, lemma_bit_length_unique, lemma_pow2_le, lemma_round_at_least,
    lemma_round_bounds,
    lemma_round_near, lemma_round_scale, power_of_two, round_significant, round_to_significant, split_significant,
};

verus! {

/// The number of significant binary digits of a binary32 number.
pub const SIGNIFICANT_BITS: u32 = 24;

/// The bits of `1.0`.
pub const ONE_BITS: u32 = 0x3f80_0000;

/// The bit that holds the sign.
pub const SIGN_BIT: u32 = 0x8000_0000;

pub open spec fn is_negative(bits: u32) -> bool {
    bits >= SIGN_BIT
}

pub open spec fn exponent_field(bits: u32) -> nat {
    ((bits / 0x80_0000) % 256) as nat
}

pub open spec fn fraction_field(bits: u32) -> nat {
    (bits % 0x80_0000) as nat
}

pub open spec fn is_finite(bits: u32) -> bool {
    exponent_field(bits) != 255
}

pub open spec fn is_nan(bits: u32) -> bool {
    exponent_field(bits) == 255 && fraction_field(bits) != 0
}

/// The absolute value of a finite sample, in units of `2^-149`.
pub open spec fn magnitude(bits: u32) -> nat {
    if exponent_field(bits) == 0 {
        fraction_field(bits)
    } else {
        (0x80_0000 + fraction_field(bits)) * pow2((exponent_field(bits) - 1) as nat)
    }
}

/// The value of a finite sample, in units of `2^-149`.
pub open spec fn value(bits: u32) -> int {
    if is_negative(bits) {
        -(magnitude(bits) as int)
    } else {
        magnitude(bits) as int
    }
}

/// The number one, in units of `2^-149`.
pub open spec fn one() -> nat {
    pow2(149)
}

pub open spec fn clamp_int(x: int, lo: int, hi: int) -> int {
    if x < lo {
        lo
    } else if x > hi {
        hi
    } else {
        x
    }
}

/// A decomposed finite sample: its magnitude is `significand * 2^shift` units.
pub struct Parts {
    pub negative: bool,
    pub significand: u32,
    pub shift: u32,
}

/// Decomposes a finite sample.
pub fn parts(bits: u32) -> (r: Parts)
    requires
        is_finite(bits),
    ensures
        r.negative == is_negative(bits),
        r.significand < 0x100_0000,
        r.shift <= 253,
        magnitude(bits) == r.significand * pow2(r.shift as nat),
        r.shift > 0 ==> r.significand >= 0x80_0000,
{
    let negative = bits >= SIGN_BIT;
    let exponent: u32 = (bits / 0x80_0000) % 256;
    let fraction: u32 = bits % 0x80_0000;
    if exponent == 0 {
        proof {
            lemma2_to64();
            assert(fraction * pow2(0) == fraction);
        }
        Parts { negative, significand: fraction, shift: 0 }
    } else {
        Parts { negative, significand: 0x80_0000 + fraction, shift: exponent - 1 }
    }
}

/// A finite sample whose exponent field lies below that of one is smaller than one, and
/// so on: magnitudes are ordered as the patterns without their sign are.
proof fn lemma_magnitude_vs_one(bits: u32)
    requires
        is_finite(bits),
    ensures
        bits % SIGN_BIT > ONE_BITS ==> magnitude(bits) > one(),
        bits % SIGN_BIT == ONE_BITS ==> magnitude(bits) == one(),
        bits % SIGN_BIT < ONE_BITS ==> magnitude(bits) < one(),
{
    let e = exponent_field(bits);
    let f = fraction_field(bits);
    lemma2_to64();
    assert(bits % SIGN_BIT == e * 0x80_0000 + f);
    lemma_pow2_adds(23, 126);
    assert(one() == 0x80_0000 * pow2(126));
    if e == 0 {
        lemma_pow2_strictly_increases(23, 149);
    } else if e == 127 {
        assert((0x80_0000 + f) * pow2(126) == one() + f * pow2(126)) by (nonlinear_arith)
            requires
                one() == 0x80_0000 * pow2(126),
        ;
        lemma_pow2_pos(126);
        assert(f > 0 ==> f * pow2(126) > 0) by (nonlinear_arith)
            requires
                pow2(126) > 0,
                f >= 0,
        ;
        assert(f == 0 ==> f * pow2(126) == 0);
    } else if e < 127 {
        let k = (e - 1) as nat;
        lemma_pow2_unfold((k + 1) as nat);
        lemma_pow2_pos(k);
        assert((0x80_0000 + f) * pow2(k) < 0x80_0000 * pow2((k + 1) as nat)) by (nonlinear_arith)
            requires
                f < 0x80_0000,
                pow2(k) > 0,
                pow2((k + 1) as nat) == 2 * pow2(k),
        ;
        if k + 1 < 126 {
            lemma_pow2_strictly_increases((k + 1) as nat, 126);
        }
        assert(0x80_0000 * pow2((k + 1) as nat) <= 0x80_0000 * pow2(126));
    } else {
        let k = (e - 1) as nat;
        lemma_pow2_strictly_increases(126, k);
        assert((0x80_0000 + f) * pow2(k) >= 0x80_0000 * pow2(k)) by (nonlinear_arith)
            requires
                f >= 0,
        ;
    }
}

/// The bits of one stand for one.
pub proof fn lemma_one_bits()
    ensures
        is_finite(ONE_BITS),
        magnitude(ONE_BITS) == one(),
        is_finite(0xbf80_0000),
        magnitude(0xbf80_0000) == one(),
{
    lemma_magnitude_vs_one(ONE_BITS);
    lemma_magnitude_vs_one(0xbf80_0000);
}

/// A sample brought into `[-1, 1]`; what is not a finite number becomes zero.
pub open spec fn clamped(sample: u32) -> u32 {
    if !is_finite(sample) {
        0
    } else if magnitude(sample) <= one() {
        sample
    } else if is_negative(sample) {
        0xbf80_0000
    } else {
        ONE_BITS
    }
}

/// Brings a sample into `[-1, 1]`; what is not a finite number becomes zero.
pub fn clamp_float_sample(sample: u32) -> (r: u32)
    ensures
        r == clamped(sample),
        !is_finite(sample) ==> r == 0,
        is_finite(sample) ==> {
            &&& is_finite(r)
            &&& is_negative(r) == is_negative(sample)
            &&& value(r) == clamp_int(value(sample), -(one() as int), one() as int)
        },
{
    let exponent: u32 = (sample / 0x80_0000) % 256;
    if exponent == 255 {
        return 0;
    }
    proof {
        lemma_pow2_pos(149);
        lemma_magnitude_vs_one(sample);
    }
    if sample % SIGN_BIT > ONE_BITS {
        if sample >= SIGN_BIT {
            proof {
                lemma_magnitude_vs_one((SIGN_BIT + ONE_BITS) as u32);
            }
            SIGN_BIT + ONE_BITS
        } else {
            proof {
                lemma_magnitude_vs_one(ONE_BITS);
            }
            ONE_BITS
        }
    } else {
        sample
    }
}

/// Whether a sample is the one nearest to `n / 2^k`, a tie going to the even significand.
pub open spec fn is_fraction(bits: u32, n: int, k: nat) -> bool {
    &&& is_finite(bits)
    &&& is_negative(bits) == (n < 0)
    &&& magnitude(bits) == round_significant((if n < 0 { -n } else { n }) as nat, 24) * pow2(
        (149 - k) as nat,
    )
}

/// Sign and magnitude determine a finite sample.
pub proof fn lemma_sample_determined(a: u32, b: u32)
    requires
        is_finite(a),
        is_finite(b),
        is_negative(a) == is_negative(b),
        magnitude(a) == magnitude(b),
    ensures
        a == b,
{
    lemma2_to64();
    lemma_normal_length(a);
    lemma_normal_length(b);
    let e = exponent_field(a);
    assert(exponent_field(b) == e);
    if e > 0 {
        let t = pow2((e - 1) as nat);
        lemma_pow2_pos((e - 1) as nat);
        let x = 0x80_0000 + fraction_field(a);
        let y = 0x80_0000 + fraction_field(b);
        lemma_mul_equality_converse(t as int, x as int, y as int);
    }
    assert(a % SIGN_BIT == e * 0x80_0000 + fraction_field(a));
    assert(b % SIGN_BIT == e * 0x80_0000 + fraction_field(b));
}

/// The exponent field gives the length of a magnitude.
proof fn lemma_normal_length(bits: u32)
    requires
        is_finite(bits),
    ensures
        exponent_field(bits) == 0 ==> bit_length(magnitude(bits)) <= 23,
        exponent_field(bits) > 0 ==> bit_length(magnitude(bits)) == 23 + exponent_field(bits),
{
    lemma2_to64();
    let e = exponent_field(bits);
    let f = fraction_field(bits);
    if e == 0 {
        lemma_bit_length_below(f, 23);
    } else {
        let k = (e - 1) as nat;
        lemma_pow2_adds(23, k);
        lemma_pow2_adds(24, k);
        lemma_pow2_pos(k);
        assert(0x80_0000 * pow2(k) <= (0x80_0000 + f) * pow2(k) < 0x100_0000 * pow2(k)) by (nonlinear_arith)
            requires
                0 <= f < 0x80_0000,
                pow2(k) > 0,
        ;
        lemma_bit_length_unique(magnitude(bits), (24 + k) as nat);
    }
}

/// The sample nearest to `n / 2^k`.
pub fn sample_from_fraction(n: i64, k: u32) -> (r: u32)
    requires
        -0x8000_0000 <= n <= 0x8000_0000,
        k <= 31,
    ensures
        is_fraction(r, n as int, k as nat),
{
    proof {
        lemma2_to64();
    }
    if n == 0 {
        proof {
            assert(bit_length(0) == 0);
            assert(round_significant(0, 24) == 0);
            assert(0 * pow2((149 - k) as nat) == 0);
        }
        return 0;
    }
    let size: u128 = if n < 0 { (-n) as u128 } else { n as u128 };
    let (kept, dropped) = split_significant(size, SIGNIFICANT_BITS);
    proof {
        if dropped > 8 {
            lemma_bit_length_below(size as nat, 32);
        }
    }
    let mut significand: u128 = kept;
    let mut shift: u32 = 149 - k + dropped;
    let ghost whole = round_significant(size as nat, 24) * pow2((149 - k) as nat);
    proof {
        lemma_pow2_adds(dropped as nat, (149 - k) as nat);
        lemma_mul_is_associative(kept as int, pow2(dropped as nat) as int, pow2((149 - k) as nat) as int);
        assert(whole == significand * pow2(shift as nat));
        if dropped == 0 {
            assert(significand > 0);
        }
    }
    let ghost start = shift;
    let ghost steps: nat = 0;
    while significand < 0x80_0000
        invariant
            0 < significand <= 0x100_0000,
            118 <= start <= 157,
            shift + steps == start,
            steps <= 23,
            significand >= pow2(steps),
            pow2(23) == 0x80_0000,
            whole == significand * pow2(shift as nat),
        decreases shift,
    {
        proof {
            if steps == 23 {
                assert(false);
            }
            lemma_pow2_unfold(shift as nat);
            lemma_pow2_unfold((steps + 1) as nat);
            assert(significand * pow2(shift as nat) == (significand * 2) * pow2((shift - 1) as nat)) by (nonlinear_arith)
                requires
                    pow2(shift as nat) == 2 * pow2((shift - 1) as nat),
            ;
            steps = steps + 1;
        }
        significand = significand * 2;
        shift = shift - 1;
    }
    let fraction: u32 = significand as u32 - 0x80_0000;
    let unsigned: u32 = (shift + 1) * 0x80_0000 + fraction;
    let bits: u32 = if n < 0 { SIGN_BIT + unsigned } else { unsigned };
    proof {
        if significand == 0x100_0000 {
            assert(exponent_field(bits) == shift + 2);
            assert(fraction_field(bits) == 0);
            lemma_pow2_unfold((shift + 1) as nat);
            assert(0x100_0000 * pow2(shift as nat) == 0x80_0000 * pow2((shift + 1) as nat));
        } else {
            assert(exponent_field(bits) == shift + 1);
            assert(fraction_field(bits) == fraction);
        }
    }
    bits
}

/// A fraction of at most one gives a sample of at most one.
pub proof fn lemma_fraction_in_range(bits: u32, n: int, k: nat)
    requires
        is_fraction(bits, n, k),
        k <= 31,
        -(pow2(k) as int) <= n <= pow2(k),
    ensures
        magnitude(bits) <= one(),
{
    let size = (if n < 0 { -n } else { n }) as nat;
    lemma_pow2_adds(k, (149 - k) as nat);
    if size == pow2(k) {
        lemma_round_scale(1, k, 24);
        lemma2_to64();
        lemma_bit_length_below(1, 24);
        assert(1 * pow2(k) == pow2(k));
    } else {
        lemma_round_bounds(size, k, 24);
    }
    assert(round_significant(size, 24) * pow2((149 - k) as nat) <= pow2(k) * pow2((149 - k) as nat)) by (nonlinear_arith)
        requires
            round_significant(size, 24) <= pow2(k),
    ;
}

/// The integer that a sample becomes when it is multiplied by `k`, rounded as a binary32
/// product is, cut off towards zero and brought into `[lo, hi]`.
///
/// An infinite sample gives the bound on its side, what is not a number gives zero.
pub open spec fn scaled_integer(bits: u32, k: nat, lo: int, hi: int) -> int {
    if is_nan(bits) {
        0
    } else if !is_finite(bits) {
        if is_negative(bits) {
            lo
        } else {
            hi
        }
    } else {
        let whole = (round_significant(magnitude(bits) * k, 24) / one()) as int;
        clamp_int(if is_negative(bits) { -whole } else { whole }, lo, hi)
    }
}

/// The whole part of `r * 2^shift` units.
proof fn lemma_whole_part(r: nat, shift: nat)
    ensures
        shift >= 149 ==> (r * pow2(shift)) / one() == r * pow2((shift - 149) as nat),
        shift < 149 ==> (r * pow2(shift)) / one() == r / pow2((149 - shift) as nat),
{
    if shift >= 149 {
        let left = (shift - 149) as nat;
        lemma_pow2_adds(left, 149);
        lemma_pow2_pos(149);
        lemma_mul_is_associative(r as int, pow2(left) as int, pow2(149) as int);
        lemma_div_by_multiple((r * pow2(left)) as int, pow2(149) as int);
    } else {
        let right = (149 - shift) as nat;
        lemma_pow2_adds(shift, right);
        lemma_pow2_pos(shift);
        lemma_pow2_pos(right);
        lemma_div_denominator((r * pow2(shift)) as int, pow2(shift) as int, pow2(right) as int);
        lemma_div_by_multiple(r as int, pow2(shift) as int);
    }
}

/// Computes [`scaled_integer`].
pub fn scale_to_integer(bits: u32, k: u32, lo: i64, hi: i64) -> (r: i64)
    requires
        k <= 0x8000_0000,
        -0x1_0000_0000 <= lo <= 0 <= hi <= 0x1_0000_0000,
    ensures
        r == scaled_integer(bits, k as nat, lo as int, hi as int),
{
    let exponent: u32 = (bits / 0x80_0000) % 256;
    if exponent == 255 {
        if bits % 0x80_0000 != 0 {
            return 0;
        } else if bits >= SIGN_BIT {
            return lo;
        } else {
            return hi;
        }
    }
    let p = parts(bits);
    proof {
        lemma2_to64();
        lemma2_to64_rest();
        assert(p.significand * k <= 0x100_0000 * 0x8000_0000) by (nonlinear_arith)
            requires
                p.significand <= 0x100_0000,
                k <= 0x8000_0000,
        ;
    }
    let product: u128 = p.significand as u128 * k as u128;
    let rounded: u128 = round_to_significant(product, SIGNIFICANT_BITS);
    let ghost whole = round_significant(magnitude(bits) * (k as nat), 24) / one();
    proof {
        lemma_pow2_adds(24, 32);
        lemma_round_bounds(product as nat, 56, 24);
        let s = p.significand as nat;
        let t = pow2(p.shift as nat);
        assert((s * t) * (k as nat) == (s * (k as nat)) * t) by (nonlinear_arith);
        lemma_round_scale(product as nat, p.shift as nat, 24);
        lemma_whole_part(rounded as nat, p.shift as nat);
    }
    let size: u128 = whole_part(rounded, p.shift);
    let limit: u128 = if p.negative { (-lo) as u128 } else { hi as u128 };
    let near: i64 = if size > limit { limit as i64 } else { size as i64 };
    if p.negative { -near } else { near }
}

/// The whole part of `r * 2^shift` units, or anything from `2^40` up where that is larger.
fn whole_part(r: u128, shift: u32) -> (w: u128)
    requires
        r <= pow2(56),
    ensures
        ({
            let exact = ((r as nat) * pow2(shift as nat)) / one();
            if exact < pow2(40) {
                w == exact
            } else {
                w >= pow2(40)
            }
        }),
{
    proof {
        lemma_whole_part(r as nat, shift as nat);
        lemma2_to64();
        lemma2_to64_rest();
    }
    if r == 0 {
        proof {
            lemma_pow2_pos(149);
            assert(0 * pow2(shift as nat) == 0);
            lemma_div_by_multiple(0, one() as int);
        }
        return 0;
    }
    if shift >= 149 {
        let left: u32 = shift - 149;
        if left >= 40 {
            proof {
                if left > 40 {
                    lemma_pow2_strictly_increases(40, left as nat);
                }
                assert(r * pow2(left as nat) >= pow2(40)) by (nonlinear_arith)
                    requires
                        r >= 1,
                        pow2(left as nat) >= pow2(40),
                ;
            }
            power_of_two(40)
        } else {
            proof {
                lemma_pow2_strictly_increases(left as nat, 40);
                assert(r * pow2(left as nat) <= 0x100_0000_0000_0000 * 0x100_0000_0000) by (nonlinear_arith)
                    requires
                        r <= 0x100_0000_0000_0000,
                        pow2(left as nat) <= 0x100_0000_0000,
                ;
            }
            r * power_of_two(left)
        }
    } else {
        let right: u32 = 149 - shift;
        if right >= 64 {
            proof {
                if right > 64 {
                    lemma_pow2_strictly_increases(64, right as nat);
                }
                lemma_basic_div(r as int, pow2(right as nat) as int);
            }
            0
        } else {
            r / power_of_two(right)
        }
    }
}

/// The unsigned byte that a sample becomes: `127` times the sample, plus `128`, each rounded
/// as in binary32, cut off towards zero and brought into a byte.
pub open spec fn offset_byte(bits: u32) -> int {
    if is_nan(bits) {
        0
    } else if !is_finite(bits) {
        if is_negative(bits) {
            0
        } else {
            255
        }
    } else {
        let swing = round_significant(magnitude(bits) * 127, 24) as int;
        let sum = 128 * one() + (if is_negative(bits) { -swing } else { swing });
        if sum <= 0 {
            0
        } else {
            clamp_int((round_significant(sum as nat, 24) / one()) as int, 0, 255)
        }
    }
}

/// A swing far below the last digit of `128` does not move it.
proof fn lemma_tiny_swing(d: nat)
    requires
        d <= pow2(119),
    ensures
        round_significant((128 * one() + d) as nat, 24) / one() == 128,
        round_significant((128 * one() - d) as nat, 24) / one() == 128,
{
    lemma2_to64();
    lemma2_to64_rest();
    lemma_pow2_adds(7, 149);
    let mid = pow2(156);
    assert(mid == 128 * one());
    lemma_pow2_adds(37, 119);
    lemma_pow2_pos(119);
    lemma_pow2_pos(149);
    lemma_div_by_multiple(128, one() as int);
    let up = (mid + d) as nat;
    lemma_pow2_unfold(157);
    lemma_bit_length_unique(up, 157);
    let u = pow2(133);
    lemma_pow2_adds(23, 133);
    lemma_pow2_adds(14, 119);
    lemma_fundamental_div_mod_converse(up as int, u as int, 0x80_0000, d as int);
    assert(div_nearest_even(up, u) == 0x80_0000);
    assert(round_significant(up, 24) == mid);
    if d > 0 {
        let down = (mid - d) as nat;
        lemma_pow2_unfold(156);
        lemma_bit_length_unique(down, 156);
        let v = pow2(132);
        lemma_pow2_adds(24, 132);
        lemma_pow2_adds(13, 119);
        lemma_fundamental_div_mod_converse(down as int, v as int, 0xff_ffff, v - d);
        assert(div_nearest_even(down, v) == 0x100_0000);
        assert(round_significant(down, 24) == mid);
    }
}

/// Computes [`offset_byte`].
pub fn to_offset_byte(bits: u32) -> (r: u8)
    ensures
        r == offset_byte(bits),
{
    let exponent: u32 = (bits / 0x80_0000) % 256;
    if exponent == 255 {
        if bits % 0x80_0000 == 0 && bits < SIGN_BIT {
            return 255;
        } else {
            return 0;
        }
    }
    let p = parts(bits);
    let product: u128 = p.significand as u128 * 127;
    let swing: u128 = round_to_significant(product, SIGNIFICANT_BITS);
    let ghost shift = p.shift as nat;
    let ghost whole = round_significant(magnitude(bits) * 127, 24);
    proof {
        lemma2_to64();
        lemma2_to64_rest();
        let s = p.significand as nat;
        let t = pow2(shift);
        assert((s * t) * 127 == (s * 127) * t) by (nonlinear_arith);
        lemma_round_scale(product as nat, shift, 24);
        lemma_round_bounds(product as nat, 31, 24);
        assert(whole == swing * pow2(shift));
    }
    if p.shift >= 149 {
        proof {
            let left = (shift - 149) as nat;
            let x = swing as nat * pow2(left);
            lemma_pow2_adds(left, 149);
            lemma_mul_is_associative(swing as int, pow2(left) as int, pow2(149) as int);
            assert(whole == x * one());
            lemma_bit_length_above(product as nat, 24);
            lemma_pow2_le(23, (bit_length(product as nat) - 1) as nat);
            lemma_pow2_pos(left);
            lemma_pow2_pos(149);
            assert(x >= 0x80_0000) by (nonlinear_arith)
                requires
                    x == swing as nat * pow2(left),
                    swing >= 0x80_0000,
                    pow2(left) >= 1,
            ;
            let n = (128 + x) as nat;
            assert(n * one() == 128 * one() + whole) by (nonlinear_arith)
                requires
                    n == 128 + x,
                    whole == x * one(),
            ;
            lemma_round_scale(n, 149, 24);
            lemma_div_by_multiple(round_significant(n, 24) as int, one() as int);
            lemma_bit_length_bounds(n);
            lemma_round_bounds(n, bit_length(n), 24);
            lemma_bit_length_above(n, 24);
            lemma_pow2_le(23, (bit_length(n) - 1) as nat);
            assert(x * one() >= 128 * one()) by (nonlinear_arith)
                requires
                    x >= 128,
            ;
        }
        assert(offset_byte(bits) == if p.negative { 0int } else { 255 });
        if p.negative { 0 } else { 255 }
    } else if p.shift >= 89 {
        let right: u32 = 149 - p.shift;
        let unit: u128 = power_of_two(right);
        proof {
            lemma_pow2_le(right as nat, 60);
            lemma_pow2_adds(right as nat, shift);
            lemma_mul_is_associative(128, unit as int, pow2(shift) as int);
            assert(128 * one() == (128 * unit) * pow2(shift));
            lemma_pow2_pos(shift);
            lemma_pow2_adds(60, 60);
            lemma_pow2_le(68, 120);
        }
        let base: u128 = 128 * unit;
        if p.negative && swing >= base {
            proof {
                assert(swing * pow2(shift) >= base * pow2(shift)) by (nonlinear_arith)
                    requires
                        swing >= base,
                ;
            }
            return 0;
        }
        let sum: u128 = if p.negative { base - swing } else { base + swing };
        let rounded: u128 = round_to_significant(sum, SIGNIFICANT_BITS);
        proof {
            assert(sum * pow2(shift) == 128 * one() + (if p.negative { -(whole as int) } else { whole as int }))
                by (nonlinear_arith)
                requires
                    sum == base + (if p.negative { -(swing as int) } else { swing as int }),
                    whole == swing * pow2(shift),
                    128 * one() == base * pow2(shift),
            ;
            assert(sum * pow2(shift) > 0) by (nonlinear_arith)
                requires
                    sum > 0,
                    pow2(shift) > 0,
            ;
            lemma_round_scale(sum as nat, shift, 24);
            lemma_whole_part(rounded as nat, shift);
        }
        let level: u128 = rounded / unit;
        assert(offset_byte(bits) == clamp_int(level as int, 0, 255));
        if level > 255 { 255 } else { level as u8 }
    } else {
        proof {
            lemma_pow2_le(shift, 88);
            lemma_pow2_adds(31, 88);
            assert(swing * pow2(shift) <= pow2(31) * pow2(88)) by (nonlinear_arith)
                requires
                    0 <= swing <= pow2(31),
                    0 <= pow2(shift) <= pow2(88),
            ;
            lemma_tiny_swing(whole);
            lemma_pow2_le(119, 149);
            lemma_pow2_pos(149);
            assert(offset_byte(bits) == 128);
        }
        128
    }
}

/// Patterns are read as binary32 numbers: from zero on, each stands for the next number, one unit
/// further as long as the exponent field is zero or one, and twice as far for each exponent more.
/// The sign bit turns a number into its negative.
pub proof fn lemma_patterns_in_steps(bits: u32)
    requires
        bits < 0x7f7f_ffff,
    ensures
        value(0) == 0,
        is_finite(bits),
        is_finite((bits + 1) as u32),
        value((bits + 1) as u32) - value(bits) == if bits < 0x80_0000 {
            1
        } else {
            pow2((bits / 0x80_0000 - 1) as nat) as int
        },
        is_finite((bits + 0x8000_0000) as u32),
        value((bits + 0x8000_0000) as u32) == -value(bits),
{
    lemma2_to64();
    let e = exponent_field(bits);
    let f = fraction_field(bits);
    let next = (bits + 1) as u32;
    let negative = (bits + 0x8000_0000) as u32;
    assert(e == bits / 0x80_0000);
    assert(exponent_field(negative) == e && fraction_field(negative) == f);
    if f < 0x7f_ffff {
        assert(exponent_field(next) == e && fraction_field(next) == f + 1);
        if e > 0 {
            let t = pow2((e - 1) as nat);
            assert((0x80_0000 + f + 1) * t == (0x80_0000 + f) * t + t) by (nonlinear_arith);
        }
    } else {
        assert(exponent_field(next) == e + 1 && fraction_field(next) == 0);
        if e > 0 {
            lemma_pow2_unfold(e);
            let t = pow2((e - 1) as nat);
            assert((0x80_0000 + f) * t == 0xff_ffff * t) by (nonlinear_arith)
                requires
                    f == 0x7f_ffff,
            ;
            assert((0x80_0000 + 0) * pow2(e) == 0x100_0000 * t) by (nonlinear_arith)
                requires
                    pow2(e) == 2 * t,
            ;
        } else {
            assert((0x80_0000 + 0) * pow2(0) == 0x80_0000);
        }
    }
}

/// Clamping leaves a sample between minus one and one as it is, gives the nearer of the two for
/// any other finite sample, and silence for what is no finite number.
pub proof fn lemma_clamped_sample(sample: u32)
    ensures
        is_finite(clamped(sample)),
        -(pow2(149) as int) <= value(clamped(sample)) <= pow2(149),
        is_finite(sample) && -(pow2(149) as int) <= value(sample) <= pow2(149) ==> clamped(sample)
            == sample,
        is_finite(sample) && value(sample) > pow2(149) ==> value(clamped(sample)) == pow2(149),
        is_finite(sample) && value(sample) < -(pow2(149) as int) ==> value(clamped(sample)) == -(
        pow2(149) as int),
        !is_finite(sample) ==> value(clamped(sample)) == 0,
{
    lemma_one_bits();
    lemma_pow2_pos(149);
    assert(magnitude(0) == 0);
}

/// A sample that stands for a fraction of few digits is that fraction.
pub proof fn lemma_fraction_exact(bits: u32, n: int, k: nat)
    requires
        is_fraction(bits, n, k),
        -0x100_0000 < n < 0x100_0000,
        k <= 31,
    ensures
        value(bits) * pow2(k) == n * pow2(149),
{
    let size = (if n < 0 { -n } else { n }) as nat;
    lemma2_to64();
    lemma_bit_length_below(size, 24);
    lemma_pow2_adds((149 - k) as nat, k);
    let t = pow2((149 - k) as nat) as int;
    let u = pow2(k) as int;
    let w = pow2(149) as int;
    assert((size * t) * u == size * w) by (nonlinear_arith)
        requires
            t * u == w,
    ;
    if n < 0 {
        assert((-(size * t)) * u == n * w) by (nonlinear_arith)
            requires
                (size * t) * u == size * w,
                n == -size,
        ;
    }
}

/// A sample that stands for a fraction is as near to it as a binary32 number has to be.
pub proof fn lemma_fraction_near(bits: u32, n: int, k: nat)
    requires
        is_fraction(bits, n, k),
        k <= 31,
    ensures
        ({
            let size = if n < 0 {
                -n
            } else {
                n
            };
            -(size * pow2(149)) <= (value(bits) * pow2(k) - n * pow2(149)) * 0x100_0000 <= size
                * pow2(149)
        }),
{
    let size = (if n < 0 { -n } else { n }) as nat;
    let r = round_significant(size, 24) as int;
    lemma2_to64();
    lemma_round_near(size, 24);
    lemma_pow2_adds((149 - k) as nat, k);
    lemma_pow2_pos(149);
    let t = pow2((149 - k) as nat) as int;
    let u = pow2(k) as int;
    let w = pow2(149) as int;
    let v = value(bits);
    assert((r * t) * u == r * w) by (nonlinear_arith)
        requires
            t * u == w,
    ;
    let d = if n < 0 { -(r - size) } else { r - size };
    assert(v * u - n * w == d * w) by (nonlinear_arith)
        requires
            (r * t) * u == r * w,
            v == (if n < 0 { -(r * t) } else { r * t }),
            n == (if n < 0 { -(size as int) } else { size as int }),
            d == (if n < 0 { -(r - size) } else { r - size }),
    ;
    assert(-(size * w) <= (d * w) * 0x100_0000 <= size * w) by (nonlinear_arith)
        requires
            -(size as int) <= d * 0x100_0000 <= size,
            w > 0,
    ;
}

/// What is not a finite number: an infinite sample becomes the bound on its side, and what is not
/// a number becomes zero.
pub proof fn lemma_not_finite(bits: u32, k: nat, lo: int, hi: int)
    ensures
        bits == 0x7f80_0000 ==> scaled_integer(bits, k, lo, hi) == hi && offset_byte(bits) == 255,
        bits == 0xff80_0000 ==> scaled_integer(bits, k, lo, hi) == lo && offset_byte(bits) == 0,
        bits as int % 0x8000_0000 > 0x7f80_0000 ==> scaled_integer(bits, k, lo, hi) == 0
            && offset_byte(bits) == 0,
        bits as int % 0x8000_0000 >= 0x7f80_0000 <==> !is_finite(bits),
{
}

/// A finite sample becomes the integer below its multiple, seen from zero, brought into the
/// bounds; that multiple is as exact as a binary32 product.
pub proof fn lemma_scaled_near(bits: u32, k: nat, lo: int, hi: int)
    requires
        is_finite(bits),
        lo <= 0 <= hi,
    ensures
        ({
            let r = scaled_integer(bits, k, lo, hi);
            let size = if r < 0 {
                -r
            } else {
                r
            };
            let exact = k * (if value(bits) < 0 {
                -value(bits)
            } else {
                value(bits)
            });
            &&& lo <= r <= hi
            &&& value(bits) >= 0 ==> r >= 0
            &&& value(bits) <= 0 ==> r <= 0
            &&& 0x100_0000 * (size * pow2(149)) <= 0x100_0001 * exact
            &&& lo < r < hi ==> 0x100_0000 * (size * pow2(149) + pow2(149)) > 0xff_ffff * exact
        }),
{
    let x = magnitude(bits) * k;
    let r = round_significant(x, 24);
    let w = pow2(149) as int;
    lemma2_to64();
    lemma_pow2_pos(149);
    lemma_round_near(x, 24);
    let q = r as int / w;
    lemma_fundamental_div_mod(r as int, w);
    lemma_mod_bound(r as int, w);
    lemma_mul_is_commutative(w, q);
    lemma_mul_is_commutative(magnitude(bits) as int, k as int);
    let s = scaled_integer(bits, k, lo, hi);
    let size = if s < 0 { -s } else { s };
    assert(q >= 0) by {
        lemma_div_pos_is_pos(r as int, w);
    }
    if magnitude(bits) == 0 {
        assert(0 * k == 0);
        assert(r == 0);
        lemma_div_by_multiple(0, w);
        assert(0 * w == 0);
    }
    assert(0 <= size <= q);
    assert(size * w <= q * w) by (nonlinear_arith)
        requires
            0 <= size <= q,
            w > 0,
    ;
}

/// Where the multiple of a sample is an integer of few digits, the sample becomes that integer,
/// brought into the bounds; one becomes the factor itself, and zero becomes zero.
pub proof fn lemma_scaled_exact(bits: u32, k: nat, lo: int, hi: int, n: int)
    requires
        is_finite(bits),
        lo <= 0 <= hi,
        -0x100_0000 < n < 0x100_0000,
        value(bits) * k == n * pow2(149),
    ensures
        lo <= n <= hi ==> scaled_integer(bits, k, lo, hi) == n,
        n < lo ==> scaled_integer(bits, k, lo, hi) == lo,
        n > hi ==> scaled_integer(bits, k, lo, hi) == hi,
{
    let size = (if n < 0 { -n } else { n }) as nat;
    let w = pow2(149);
    lemma2_to64();
    lemma_pow2_pos(149);
    let m = magnitude(bits);
    assert(m * k == size * w && (size > 0 ==> is_negative(bits) == (n < 0))) by (nonlinear_arith)
        requires
            value(bits) * k == n * w,
            value(bits) == (if is_negative(bits) { -(m as int) } else { m as int }),
            size == (if n < 0 { -n } else { n }),
            w > 0,
            k >= 0,
            m >= 0,
    ;
    lemma_bit_length_below(size, 24);
    lemma_round_scale(size, 149, 24);
    lemma_div_by_multiple(size as int, w as int);
}

/// A sample between minus one and one becomes the byte below 128 plus 127 times the sample, as
/// exact as binary32 arithmetic is.
pub proof fn lemma_offset_byte_near(bits: u32)
    requires
        is_finite(bits),
        -(pow2(149) as int) <= value(bits) <= pow2(149),
    ensures
        ({
            let b = offset_byte(bits) * pow2(149);
            let exact = 128 * pow2(149) + 127 * value(bits);
            &&& 0x8000 * (b - exact) <= pow2(149)
            &&& 0x8000 * (exact - b) < 0x8001 * pow2(149)
        }),
        0 <= offset_byte(bits) <= 255,
{
    let w = pow2(149) as int;
    let x = magnitude(bits) * 127;
    let s = round_significant(x, 24) as int;
    lemma2_to64();
    lemma_pow2_pos(149);
    lemma_round_near(x, 24);
    let sum = 128 * w + (if is_negative(bits) { -s } else { s });
    assert(sum > 0);
    lemma_round_near(sum as nat, 24);
    let r = round_significant(sum as nat, 24) as int;
    let q = r / w;
    lemma_fundamental_div_mod(r, w);
    lemma_mod_bound(r, w);
    lemma_mul_is_commutative(w, q);
    lemma_div_pos_is_pos(r, w);
    assert(q <= 255) by (nonlinear_arith)
        requires
            q * w <= r,
            r < 256 * w,
            w > 0,
    ;
}

/// Where 127 times a sample is an integer that leaves the byte in its range, the byte is 128 plus
/// that integer: silence becomes 128, and the loudest samples become 255 and 1.
pub proof fn lemma_offset_byte_exact(bits: u32, n: int)
    requires
        is_finite(bits),
        -128 < n < 128,
        value(bits) * 127 == n * pow2(149),
    ensures
        offset_byte(bits) == 128 + n,
{
    let size = (if n < 0 { -n } else { n }) as nat;
    let w = pow2(149);
    lemma2_to64();
    lemma_pow2_pos(149);
    let m = magnitude(bits);
    assert(m * 127 == size * w && (size > 0 ==> is_negative(bits) == (n < 0))) by (nonlinear_arith)
        requires
            value(bits) * 127 == n * w,
            value(bits) == (if is_negative(bits) { -(m as int) } else { m as int }),
            size == (if n < 0 { -n } else { n }),
            w > 0,
            m >= 0,
    ;
    lemma_bit_length_below(size, 24);
    lemma_round_scale(size, 149, 24);
    let level = (128 + n) as nat;
    lemma_bit_length_below(level, 24);
    lemma_round_scale(level, 149, 24);
    assert(level * w == 128 * w + n * w) by (nonlinear_arith)
        requires
            level == 128 + n,
    ;
    assert(n * w == (if n < 0 { -(size * w) } else { (size * w) as int })) by (nonlinear_arith)
        requires
            size == (if n < 0 { -n } else { n }),
    ;
    assert(level * w > 0) by (nonlinear_arith)
        requires
            level > 0,
            w > 0,
    ;
    lemma_div_by_multiple(level as int, w as int);
}

/// Beyond the loudest samples the byte stays at its end: 255 from one up, and at most 1 from minus
/// one down, until the byte is 0.
pub proof fn lemma_offset_byte_beyond(bits: u32)
    requires
        is_finite(bits),
    ensures
        value(bits) >= pow2(149) ==> offset_byte(bits) == 255,
        value(bits) <= -(pow2(149) as int) ==> 0 <= offset_byte(bits) <= 1,
        127 * value(bits) <= -128 * pow2(149) ==> offset_byte(bits) == 0,
{
    let w = pow2(149);
    let x = magnitude(bits) * 127;
    let s = round_significant(x, 24);
    lemma2_to64();
    lemma_pow2_pos(149);
    if magnitude(bits) >= w {
        lemma_round_at_least(x, 127, 149, 24);
        if x >= 128 * w {
            lemma_round_at_least(x, 128, 149, 24);
        }
        if is_negative(bits) {
            let sum = 128 * w - s;
            if sum > 0 {
                if sum == w {
                    lemma_bit_length_below(1, 24);
                    lemma_round_scale(1, 149, 24);
                    assert(1 * w == w);
                } else {
                    lemma_round_bounds(sum as nat, 149, 24);
                }
                let r = round_significant(sum as nat, 24) as int;
                lemma_div_is_ordered(r, w as int, w as int);
                lemma_div_by_self(w as int);
                lemma_div_pos_is_pos(r, w as int);
            }
        } else {
            let sum = (128 * w + s) as nat;
            lemma_round_at_least(sum, 255, 149, 24);
            let r = round_significant(sum, 24) as int;
            lemma_div_by_multiple(255, w as int);
            lemma_div_is_ordered(255 * w as int, r, w as int);
        }
    }
}

} // verus!
