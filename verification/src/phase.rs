//! The position of the resampler between two source frames.
//!
//! The resampler shows a source frame, moves on by the ratio of the two sample rates,
//! and drops the source frames that it has passed. Position and ratio are binary64
//! numbers; they are held here as integers, in units of `2^-84` of a source frame. That
//! unit is fine enough: the smallest ratio of two 32-bit rates lies above `2^-32`, and a
//! binary64 number from there up is a multiple of `2^-84`.
use vstd::prelude::*;
use vstd::arithmetic::power2::*;
use vstd::arithmetic::div_mod::*;
use vstd::arithmetic::mul::*;
use crate::rounding::{
    bit_length, div_nearest_even, divide_nearest_even, lemma_bit_length_below,
    lemma_div_nearest_even_exact, lemma_div_nearest_even_near, lemma_pow2_le, lemma_round_bounds,
    lemma_round_near, lemma_round_scale,
    power_of_two, round_significant, round_to_significant,
};

verus! {

/// The number of significant binary digits of a binary64 number.
pub const PHASE_BITS: u32 = 53;

/// One source frame, in phase units: `2^84`.
pub const FRAME_UNITS: u128 = 0x10_0000_0000_0000_0000_0000;

/// One source frame, in phase units.
pub open spec fn frame() -> nat {
    pow2(84)
}

/// The power of two that brings `n / d` into the range of 53-digit integers.
pub open spec fn is_ratio_exponent(n: nat, d: nat, e: nat) -> bool {
    pow2(52) * d <= n * pow2(e) < pow2(53) * d
}

/// The quotient of two sample rates as a binary64 number, in phase units.
pub open spec fn ratio(source: u32, target: u32) -> nat {
    let e = choose|e: nat| is_ratio_exponent(source as nat, target as nat, e);
    div_nearest_even(source as nat * pow2(e), target as nat) * pow2((84 - e) as nat)
}

/// The position before passed frames are dropped.
pub open spec fn moved(position: nat, ratio: nat) -> nat {
    round_significant(position + ratio, 53)
}

/// The number of source frames to drop after a frame that was shown at `position`.
pub open spec fn passed(position: nat, ratio: nat) -> nat {
    let whole = moved(position, ratio) / frame();
    if whole > usize::MAX {
        usize::MAX as nat
    } else {
        whole
    }
}

/// The position at which the next frame is shown.
pub open spec fn next_position(position: nat, ratio: nat) -> nat {
    (moved(position, ratio) - passed(position, ratio) * frame()) as nat
}

/// The position after `frames` frames.
pub open spec fn position_after(start: nat, ratio: nat, frames: nat) -> nat
    decreases frames,
{
    if frames == 0 {
        start
    } else {
        next_position(position_after(start, ratio, (frames - 1) as nat), ratio)
    }
}

/// The index of the source frame that output frame `frames` shows, counted from the
/// source frame that the first one shows.
pub open spec fn source_frame(start: nat, ratio: nat, frames: nat) -> nat
    decreases frames,
{
    if frames == 0 {
        0
    } else {
        source_frame(start, ratio, (frames - 1) as nat) + passed(
            position_after(start, ratio, (frames - 1) as nat),
            ratio,
        )
    }
}

/// A later output frame does not show an earlier source frame.
pub proof fn lemma_source_frame_monotone(start: nat, ratio: nat, a: nat, b: nat)
    requires
        a <= b,
    ensures
        source_frame(start, ratio, a) <= source_frame(start, ratio, b),
    decreases b,
{
    if a < b {
        lemma_source_frame_monotone(start, ratio, a, (b - 1) as nat);
    }
}

/// There is one ratio exponent at most.
proof fn lemma_ratio_exponent_unique(n: nat, d: nat, a: nat, b: nat)
    requires
        n > 0,
        d > 0,
        is_ratio_exponent(n, d, a),
        is_ratio_exponent(n, d, b),
    ensures
        a == b,
{
    lemma2_to64();
    lemma2_to64_rest();
    if a < b {
        lemma_pow2_unfold((a + 1) as nat);
        lemma_pow2_le((a + 1) as nat, b);
        assert(n * pow2(b) >= 2 * (n * pow2(a))) by (nonlinear_arith)
            requires
                pow2(b) >= 2 * pow2(a),
        ;
    } else if b < a {
        lemma_pow2_unfold((b + 1) as nat);
        lemma_pow2_le((b + 1) as nat, a);
        assert(n * pow2(a) >= 2 * (n * pow2(b))) by (nonlinear_arith)
            requires
                pow2(a) >= 2 * pow2(b),
        ;
    }
}

proof fn lemma_frame_units()
    ensures
        frame() == FRAME_UNITS,
        pow2(32) == 0x1_0000_0000,
        pow2(116) == 0x10_0000_0000_0000_0000_0000_0000_0000,
        pow2(117) == 0x20_0000_0000_0000_0000_0000_0000_0000,
{
    lemma2_to64();
    lemma_pow2_adds(20, 64);
    lemma_pow2_adds(32, 84);
    lemma_pow2_unfold(117);
}

/// A rate that is `k` times the target rate moves on by exactly `k` frames.
pub proof fn lemma_ratio_of_multiple(source: u32, target: u32, k: nat)
    requires
        target > 0,
        k > 0,
        source == k * target,
    ensures
        ratio(source, target) == k * frame(),
{
    lemma2_to64();
    lemma2_to64_rest();
    lemma_frame_units();
    assert(k <= source) by (nonlinear_arith)
        requires
            source == k * target,
            target >= 1,
            k > 0,
    ;
    crate::rounding::lemma_bit_length_bounds(k);
    lemma_bit_length_below(k, 32);
    let l = bit_length(k);
    let e = (53 - l) as nat;
    let t = target as nat;
    lemma_pow2_adds((l - 1) as nat, e);
    lemma_pow2_adds(l, e);
    lemma_pow2_pos(e);
    let m = k * pow2(e);
    assert(pow2(52) <= m < pow2(53)) by (nonlinear_arith)
        requires
            pow2((l - 1) as nat) <= k < pow2(l),
            pow2((l - 1) as nat) * pow2(e) == pow2(52),
            pow2(l) * pow2(e) == pow2(53),
            pow2(e) > 0,
            m == k * pow2(e),
    ;
    assert(source as nat * pow2(e) == m * t) by (nonlinear_arith)
        requires
            source == k * t,
            m == k * pow2(e),
    ;
    assert(pow2(52) * t <= m * t < pow2(53) * t) by (nonlinear_arith)
        requires
            pow2(52) <= m < pow2(53),
            t > 0,
    ;
    assert(is_ratio_exponent(source as nat, t, e));
    let c = choose|c: nat| is_ratio_exponent(source as nat, target as nat, c);
    lemma_ratio_exponent_unique(source as nat, t, e, c);
    lemma_div_nearest_even_exact(m, t);
    lemma_pow2_adds(e, (84 - e) as nat);
    lemma_mul_is_associative(k as int, pow2(e) as int, pow2((84 - e) as nat) as int);
}

/// From a whole position, output frame `f` shows source frame `k * f` where the source rate
/// is `k` times the target rate: every frame at equal rates, every `k`-th one otherwise.
pub proof fn lemma_whole_ratio_steps(k: nat, frames: nat)
    requires
        k < 0x1_0000_0000,
    ensures
        position_after(0, k * frame(), frames) == 0,
        source_frame(0, k * frame(), frames) == k * frames,
    decreases frames,
{
    if frames > 0 {
        lemma_whole_ratio_steps(k, (frames - 1) as nat);
        lemma_frame_units();
        lemma2_to64();
        lemma2_to64_rest();
        lemma_bit_length_below(k, 53);
        lemma_round_scale(k, 84, 53);
        assert(moved(0, k * frame()) == k * frame());
        lemma_div_by_multiple(k as int, frame() as int);
        assert(passed(0, k * frame()) == k);
        assert(k * frames == k * (frames - 1) + k) by (nonlinear_arith);
    }
}

/// Going on from a later frame leads to the same positions and source frames.
pub proof fn lemma_steps_add(start: nat, ratio: nat, a: nat, b: nat)
    ensures
        position_after(start, ratio, a + b) == position_after(
            position_after(start, ratio, a),
            ratio,
            b,
        ),
        source_frame(start, ratio, a + b) == source_frame(start, ratio, a) + source_frame(
            position_after(start, ratio, a),
            ratio,
            b,
        ),
    decreases b,
{
    if b > 0 {
        lemma_steps_add(start, ratio, a, (b - 1) as nat);
        assert((a + b - 1) as nat == a + (b - 1) as nat);
    }
}

/// An odd number that divides a multiple of `2^a` leaves the power to the quotient.
proof fn lemma_odd_divisor(s: nat, d: nat, m: nat, a: nat) -> (t: nat)
    requires
        s * pow2(a) == m * d,
        m % 2 == 1,
    ensures
        d == pow2(a) * t,
        s == m * t,
    decreases a,
{
    if a == 0 {
        lemma2_to64();
        assert(s * pow2(0) == s);
        assert(pow2(0) * d == d);
        d
    } else {
        let b = (a - 1) as nat;
        lemma_pow2_unfold(a);
        let half = (d / 2) as nat;
        let i = m / 2;
        assert(m * d == 2 * (i * d) + d) by (nonlinear_arith)
            requires
                m == 2 * i + 1,
        ;
        assert(s * pow2(a) == 2 * (s * pow2(b))) by (nonlinear_arith)
            requires
                pow2(a) == 2 * pow2(b),
        ;
        assert(d == 2 * half);
        assert(m * d == 2 * (m * half)) by (nonlinear_arith)
            requires
                d == 2 * half,
        ;
        let t = lemma_odd_divisor(s, half, m, b);
        assert(pow2(a) * t == 2 * (pow2(b) * t)) by (nonlinear_arith)
            requires
                pow2(a) == 2 * pow2(b),
        ;
        t
    }
}

/// The quotient of the rates `m * t` and `2^a * t` is exactly `m / 2^a`.
proof fn lemma_exact_ratio(source: u32, target: u32, m: nat, a: nat, t: nat)
    requires
        t > 0,
        m > 0,
        source == m * t,
        target == pow2(a) * t,
    ensures
        a < 32,
        m < 0x1_0000_0000,
        ratio(source, target) == m * pow2((84 - a) as nat),
{
    lemma2_to64();
    lemma2_to64_rest();
    lemma_pow2_pos(a);
    assert(m <= source) by (nonlinear_arith)
        requires
            source == m * t,
            t >= 1,
    ;
    assert(pow2(a) <= target) by (nonlinear_arith)
        requires
            target == pow2(a) * t,
            t >= 1,
            pow2(a) > 0,
    ;
    if a >= 32 {
        lemma_pow2_le(32, a);
    }
    crate::rounding::lemma_bit_length_bounds(m);
    lemma_bit_length_below(m, 32);
    let l = bit_length(m);
    let c = (53 - l) as nat;
    let e = (c + a) as nat;
    let q = m * pow2(c);
    lemma_pow2_adds((l - 1) as nat, c);
    lemma_pow2_adds(l, c);
    lemma_pow2_adds(c, a);
    lemma_pow2_pos(c);
    assert(pow2(52) <= q < pow2(53)) by (nonlinear_arith)
        requires
            pow2((l - 1) as nat) <= m < pow2(l),
            pow2((l - 1) as nat) * pow2(c) == pow2(52),
            pow2(l) * pow2(c) == pow2(53),
            pow2(c) > 0,
            q == m * pow2(c),
    ;
    let d = target as nat;
    assert(source as nat * pow2(e) == q * d) by (nonlinear_arith)
        requires
            source == m * t,
            d == pow2(a) * t,
            pow2(e) == pow2(c) * pow2(a),
            q == m * pow2(c),
    ;
    assert(pow2(52) * d <= q * d < pow2(53) * d) by (nonlinear_arith)
        requires
            pow2(52) <= q < pow2(53),
            d > 0,
    ;
    assert(is_ratio_exponent(source as nat, d, e));
    let x = choose|x: nat| is_ratio_exponent(source as nat, target as nat, x);
    lemma_ratio_exponent_unique(source as nat, d, e, x);
    lemma_div_nearest_even_exact(q, d);
    lemma_pow2_adds(c, (84 - e) as nat);
    lemma_mul_is_associative(m as int, pow2(c) as int, pow2((84 - e) as nat) as int);
}

/// One step by `m / 2^a` frames from a position that is a multiple of `1 / 2^a`.
proof fn lemma_exact_step(n: nat, m: nat, a: nat)
    requires
        a < 32,
        m < 0x1_0000_0000,
        n < pow2(a),
    ensures
        ({
            let unit = pow2((84 - a) as nat);
            &&& passed(n * unit, m * unit) == (n + m) / pow2(a)
            &&& next_position(n * unit, m * unit) == ((n + m) % pow2(a)) * unit
        }),
{
    lemma2_to64();
    lemma2_to64_rest();
    let up = (84 - a) as nat;
    let unit = pow2(up);
    let part = pow2(a);
    lemma_pow2_pos(a);
    lemma_pow2_pos(up);
    lemma_pow2_adds(a, up);
    lemma_pow2_le(a, 31);
    let sum = n + m;
    assert(n * unit + m * unit == sum * unit) by (nonlinear_arith)
        requires
            sum == n + m,
    ;
    lemma_bit_length_below(sum, 53);
    lemma_round_scale(sum, up, 53);
    assert(moved(n * unit, m * unit) == sum * unit);
    let whole = sum / part;
    let rest = sum % part;
    lemma_fundamental_div_mod(sum as int, part as int);
    lemma_mod_bound(sum as int, part as int);
    assert(sum * unit == frame() * whole + rest * unit) by (nonlinear_arith)
        requires
            sum == part * whole + rest,
            part * unit == frame(),
    ;
    assert(0 <= rest * unit < frame()) by (nonlinear_arith)
        requires
            0 <= rest < part,
            unit > 0,
            part * unit == frame(),
    ;
    lemma_fundamental_div_mod_converse(
        (sum * unit) as int,
        frame() as int,
        whole as int,
        (rest * unit) as int,
    );
    assert(whole <= 0xffff_ffff) by {
        if a == 0 {
            assert(part == 1);
            assert(n == 0);
        } else {
            lemma_pow2_le(1, a);
            assert(part >= 2);
            assert(whole <= 0xffff_ffff) by (nonlinear_arith)
                requires
                    sum == part * whole + rest,
                    rest >= 0,
                    part >= 2,
                    sum < 0x1_0000_0000 + part,
                    part <= 0x8000_0000,
            ;
        }
    }
    lemma_mul_is_commutative(frame() as int, whole as int);
}

/// Where the source rate is `m / 2^a` times the target rate, a walk from a whole position leads
/// output frame `k` to source frame `k * m / 2^a`, cut off.
pub proof fn lemma_exact_ratio_steps(source: u32, target: u32, m: nat, a: nat, k: nat)
    requires
        source > 0,
        target > 0,
        source * pow2(a) == m * target,
    ensures
        source_frame(0, ratio(source, target), k) == (k * m) / pow2(a),
    decreases a,
{
    lemma_pow2_pos(a);
    if m % 2 == 0 && a > 0 {
        let b = (a - 1) as nat;
        let h = (m / 2) as nat;
        lemma_pow2_unfold(a);
        lemma_pow2_pos(b);
        assert(source * pow2(b) == h * target) by (nonlinear_arith)
            requires
                source * pow2(a) == m * target,
                pow2(a) == 2 * pow2(b),
                m == 2 * h,
        ;
        lemma_exact_ratio_steps(source, target, h, b, k);
        assert(k * m == 2 * (k * h)) by (nonlinear_arith)
            requires
                m == 2 * h,
        ;
        lemma_div_multiples_vanish_quotient(2, (k * h) as int, pow2(b) as int);
    } else {
        let t = if a == 0 {
            lemma2_to64();
            assert(source * pow2(0) == source);
            target as nat
        } else {
            lemma_odd_divisor(source as nat, target as nat, m, a)
        };
        if a == 0 {
            assert(pow2(0) * t == t);
        }
        assert(t > 0 && m > 0) by (nonlinear_arith)
            requires
                source == m * t,
                source > 0,
        ;
        lemma_exact_ratio(source, target, m, a, t);
        lemma_exact_walk(m, a, k);
    }
}

/// The walk in steps of `m / 2^a` frames, from a whole position.
proof fn lemma_exact_walk(m: nat, a: nat, k: nat)
    requires
        a < 32,
        m < 0x1_0000_0000,
    ensures
        ({
            let unit = pow2((84 - a) as nat);
            &&& position_after(0, m * unit, k) == ((k * m) % pow2(a)) * unit
            &&& source_frame(0, m * unit, k) == (k * m) / pow2(a)
        }),
    decreases k,
{
    let unit = pow2((84 - a) as nat);
    let part = pow2(a);
    lemma_pow2_pos(a);
    if k == 0 {
        assert(0 * m == 0);
        lemma_basic_div(0, part as int);
        lemma_small_mod(0, part);
        assert(0 * unit == 0);
    } else {
        let j = (k - 1) as nat;
        lemma_exact_walk(m, a, j);
        let n = (j * m) % part;
        let f = (j * m) / part;
        lemma_fundamental_div_mod((j * m) as int, part as int);
        lemma_mod_bound((j * m) as int, part as int);
        lemma_exact_step(n, m, a);
        assert(k * m == j * m + m) by (nonlinear_arith)
            requires
                k == j + 1,
        ;
        let q = (n + m) / part;
        let r = (n + m) % part;
        lemma_fundamental_div_mod((n + m) as int, part as int);
        lemma_mod_bound((n + m) as int, part as int);
        assert(k * m == (f + q) * part + r) by (nonlinear_arith)
            requires
                k * m == j * m + m,
                j * m == part * f + n,
                n + m == part * q + r,
        ;
        lemma_fundamental_div_mod_converse((k * m) as int, part as int, (f + q) as int, r as int);
    }
}

/// Computes [`ratio`].
pub fn rate_ratio(source: u32, target: u32) -> (r: u128)
    requires
        source > 0,
        target > 0,
    ensures
        r == ratio(source, target),
        r <= source * FRAME_UNITS,
{
    proof {
        lemma2_to64();
        lemma2_to64_rest();
        lemma_frame_units();
    }
    let floor: u128 = 0x10_0000_0000_0000 * target as u128;
    let mut scaled: u128 = source as u128 * 0x10_0000;
    let mut exponent: u32 = 20;
    while scaled < floor
        invariant
            source > 0,
            target > 0,
            floor == 0x10_0000_0000_0000 * target,
            scaled == source * pow2(exponent as nat),
            scaled < 2 * floor,
            20 <= exponent <= 84,
            pow2(84) == FRAME_UNITS,
        decreases 84 - exponent,
    {
        proof {
            if exponent == 84 {
                assert(source * pow2(84) >= pow2(84)) by (nonlinear_arith)
                    requires
                        source >= 1,
                ;
                assert(false);
            }
            lemma_pow2_unfold((exponent + 1) as nat);
            assert(source * pow2((exponent + 1) as nat) == 2 * (source * pow2(exponent as nat))) by (nonlinear_arith)
                requires
                    pow2((exponent + 1) as nat) == 2 * pow2(exponent as nat),
            ;
        }
        scaled = scaled * 2;
        exponent = exponent + 1;
    }
    let digits: u128 = divide_nearest_even(scaled, target as u128);
    proof {
        let e = exponent as nat;
        assert(is_ratio_exponent(source as nat, target as nat, e));
        let c = choose|c: nat| is_ratio_exponent(source as nat, target as nat, c);
        lemma_ratio_exponent_unique(source as nat, target as nat, e, c);
        assert(digits <= scaled) by {
            lemma_fundamental_div_mod(scaled as int, target as int);
            let q = scaled as int / target as int;
            let r = scaled as int % target as int;
            if target == 1 {
                assert(q == scaled);
                assert(r == 0);
            } else {
                assert(2 * q <= scaled) by (nonlinear_arith)
                    requires
                        scaled == target * q + r,
                        target >= 2,
                        r >= 0,
                        q >= 0,
                ;
            }
        }
        lemma_pow2_adds(e, (84 - e) as nat);
        let rest = pow2((84 - e) as nat);
        assert(digits * rest <= source * pow2(84)) by (nonlinear_arith)
            requires
                digits <= scaled,
                scaled == source * pow2(e),
                pow2(e) * rest == pow2(84),
                rest >= 0,
        ;
        assert(source * pow2(84) <= 0xffff_ffff * FRAME_UNITS) by (nonlinear_arith)
            requires
                source <= 0xffff_ffff,
                pow2(84) == FRAME_UNITS,
        ;
    }
    digits * power_of_two(84 - exponent)
}

/// Moves on by `ratio`: the source frames passed, and the new position.
pub fn advance(position: u128, ratio: u128) -> (r: (usize, u128))
    requires
        position <= FRAME_UNITS,
        ratio <= 0xffff_ffff * FRAME_UNITS,
    ensures
        r.0 == passed(position as nat, ratio as nat),
        r.1 == next_position(position as nat, ratio as nat),
        r.1 <= FRAME_UNITS,
{
    proof {
        lemma_frame_units();
    }
    let sum: u128 = position + ratio;
    let target: u128 = round_to_significant(sum, PHASE_BITS);
    proof {
        if sum == pow2(116) {
            lemma2_to64();
            lemma2_to64_rest();
            lemma_bit_length_below(1, 53);
            lemma_round_scale(1, 116, 53);
            assert(1 * pow2(116) == pow2(116));
        } else {
            lemma_round_bounds(sum as nat, 116, 53);
        }
        assert(target <= 0x10_0000_0000_0000_0000_0000_0000_0000);
    }
    let whole: u128 = target / FRAME_UNITS;
    if whole > usize::MAX as u128 {
        assert(usize::MAX >= 0xffff_ffff);
        assert(whole <= 0x1_0000_0000);
        (usize::MAX, target - usize::MAX as u128 * FRAME_UNITS)
    } else {
        (whole as usize, target - whole * FRAME_UNITS)
    }
}

/// There is a ratio exponent from `e` on, where the rates are not brought into range before.
proof fn lemma_ratio_exponent_exists(n: nat, d: nat, e: nat) -> (r: nat)
    requires
        0 < n,
        0 < d < 0x1_0000_0000,
        e <= 84,
        n * pow2(e) < pow2(53) * d,
    ensures
        is_ratio_exponent(n, d, r),
        r <= 84,
    decreases 84 - e,
{
    lemma2_to64();
    lemma2_to64_rest();
    lemma_frame_units();
    if pow2(52) * d <= n * pow2(e) {
        e
    } else {
        if e == 84 {
            assert(n * pow2(84) >= pow2(84)) by (nonlinear_arith)
                requires
                    n >= 1,
            ;
        }
        lemma_pow2_unfold((e + 1) as nat);
        assert(n * pow2((e + 1) as nat) == 2 * (n * pow2(e))) by (nonlinear_arith)
            requires
                pow2((e + 1) as nat) == 2 * pow2(e),
        ;
        lemma_ratio_exponent_exists(n, d, (e + 1) as nat)
    }
}

/// The ratio of two rates is their quotient, up to a part in `2^53` of it.
pub proof fn lemma_ratio_near(source: u32, target: u32)
    requires
        source > 0,
        target > 0,
    ensures
        -(source * pow2(84)) <= (ratio(source, target) * target - source * pow2(84)) * pow2(53)
            <= source * pow2(84),
{
    lemma2_to64();
    lemma2_to64_rest();
    let n = source as nat;
    let d = target as nat;
    assert(n * pow2(0) == n);
    let found = lemma_ratio_exponent_exists(n, d, 0);
    let e = choose|e: nat| is_ratio_exponent(n, d, e);
    lemma_ratio_exponent_unique(n, d, found, e);
    let up = pow2((84 - e) as nat);
    let scaled = n * pow2(e);
    let q = div_nearest_even(scaled, d);
    lemma_div_nearest_even_near(scaled, d);
    lemma_pow2_adds(e, (84 - e) as nat);
    let off = (q * d - scaled) as int;
    assert(ratio(source, target) * d - n * pow2(84) == off * up) by (nonlinear_arith)
        requires
            ratio(source, target) == q * up,
            off == q * d - scaled,
            scaled == n * pow2(e),
            pow2(e) * up == pow2(84),
    ;
    assert(n * pow2(84) == scaled * up) by (nonlinear_arith)
        requires
            scaled == n * pow2(e),
            pow2(e) * up == pow2(84),
    ;
    assert(-scaled <= off * pow2(53) <= scaled);
    assert(-(scaled * up) <= (off * up) * pow2(53) <= scaled * up) by (nonlinear_arith)
        requires
            -scaled <= off * pow2(53) <= scaled,
            up >= 0,
    ;
}

/// The ratio is no more than the source rate, in frames.
pub proof fn lemma_ratio_at_most(source: u32, target: u32)
    requires
        source > 0,
        target > 0,
    ensures
        ratio(source, target) <= 0xffff_ffff * pow2(84),
{
    lemma2_to64();
    lemma2_to64_rest();
    lemma_frame_units();
    let s = source as int;
    let t = target as int;
    let r = ratio(source, target) as int;
    let frame = pow2(84) as int;
    if target == 1 {
        assert(s == s * 1);
        lemma_ratio_of_multiple(source, target, source as nat);
    } else {
        lemma_ratio_near(source, target);
        assert((r * t - s * frame) * pow2(53) <= s * frame);
        assert(r * t - s * frame <= s * frame) by (nonlinear_arith)
            requires
                (r * t - s * frame) * pow2(53) <= s * frame,
                pow2(53) >= 1,
                s * frame >= 0,
        ;
        assert(2 * r <= r * t) by (nonlinear_arith)
            requires
                t >= 2,
                r >= 0,
        ;
    }
    assert(s * frame <= 0xffff_ffff * frame) by (nonlinear_arith)
        requires
            s <= 0xffff_ffff,
            frame >= 0,
    ;
}

/// A step goes on by the ratio, up to a part in `2^53` of where it leads, and nothing of it is
/// lost: the frames that are passed and the new position make up where it leads.
pub proof fn lemma_step_near(position: nat, ratio: nat)
    requires
        position <= pow2(84),
        ratio <= 0xffff_ffff * pow2(84),
    ensures
        -((position + ratio) as int) <= (passed(position, ratio) * pow2(84) + next_position(
            position,
            ratio,
        ) - position - ratio) * pow2(53) <= position + ratio,
        0 <= next_position(position, ratio) <= pow2(84),
        passed(position, ratio) < usize::MAX ==> next_position(position, ratio) < pow2(84),
{
    lemma_frame_units();
    let sum = position + ratio;
    let target = moved(position, ratio);
    lemma_round_near(sum, 53);
    assert(sum <= pow2(116)) by {
        lemma_pow2_adds(32, 84);
    }
    if sum == pow2(116) {
        lemma2_to64();
        lemma2_to64_rest();
        lemma_bit_length_below(1, 53);
        lemma_round_scale(1, 116, 53);
        assert(1 * pow2(116) == pow2(116));
    } else {
        lemma_round_bounds(sum, 116, 53);
    }
    assert(target <= pow2(116));
    let whole = target / frame();
    lemma_fundamental_div_mod(target as int, frame() as int);
    lemma_mod_bound(target as int, frame() as int);
    assert(whole <= 0x1_0000_0000);
    lemma_mul_is_commutative(frame() as int, whole as int);
    if whole > usize::MAX {
        assert(usize::MAX >= 0xffff_ffff);
        assert(whole == 0x1_0000_0000);
    }
    assert(passed(position, ratio) * pow2(84) + next_position(position, ratio) == target);
}

/// The walk keeps pace: after `k` frames it has gone on by `k` times the ratio, up to a part in
/// `2^53` of the steps taken.
pub proof fn lemma_walk_keeps_pace(start: nat, ratio: nat, k: nat)
    requires
        start <= pow2(84),
        ratio <= 0xffff_ffff * pow2(84),
    ensures
        0 <= position_after(start, ratio, k) <= pow2(84),
        -(k * (pow2(84) + ratio)) <= (source_frame(start, ratio, k) * pow2(84) + position_after(
            start,
            ratio,
            k,
        ) - start - k * ratio) * pow2(53) <= k * (pow2(84) + ratio),
    decreases k,
{
    let big = pow2(53) as int;
    if k == 0 {
        assert(0 * ratio == 0);
        assert(0 * (pow2(84) + ratio) == 0);
        assert(source_frame(start, ratio, 0) == 0);
        assert(0 * pow2(84) == 0);
        assert(0 * big == 0);
    } else {
        let j = (k - 1) as nat;
        lemma_walk_keeps_pace(start, ratio, j);
        let pos = position_after(start, ratio, j);
        let f = source_frame(start, ratio, j);
        lemma_step_near(pos, ratio);
        let gone = passed(pos, ratio);
        let next = next_position(pos, ratio);
        let unit = pow2(84) as int;
        let before = f * unit + pos - start - j * ratio;
        let step = gone * unit + next - pos - ratio;
        let after = (f + gone) * unit + next - start - k * ratio;
        assert(after == before + step) by (nonlinear_arith)
            requires
                before == f * unit + pos - start - j * ratio,
                step == gone * unit + next - pos - ratio,
                after == (f + gone) * unit + next - start - k * ratio,
                k == j + 1,
        ;
        assert(after * big == before * big + step * big) by (nonlinear_arith)
            requires
                after == before + step,
        ;
        assert(k * (unit + ratio) == j * (unit + ratio) + (unit + ratio)) by (nonlinear_arith)
            requires
                k == j + 1,
        ;
    }
}

} // verus!
