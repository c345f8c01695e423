//! Rounding of natural numbers to a fixed number of significant bits.
//!
//! Binary floating point keeps the leading bits of a number and rounds the rest
//! away, to the nearest representable number and to the even one of two that are
//! equally near. This module states that on natural numbers and computes it on
//! `u128`; [`crate::sample`] and [`crate::phase`] read their values as naturals in
//! a unit small enough for everything they meet to be whole.
use vstd::prelude::*;
use vstd::arithmetic::power2::*;
use vstd::arithmetic::div_mod::*;
use vstd::arithmetic::mul::*;

verus! {

/// The number of binary digits of `n`; zero has none.
pub open spec fn bit_length(n: nat) -> nat
    decreases n,
{
    if n == 0 {
        0
    } else {
        1 + bit_length(n / 2)
    }
}

/// `n / d` rounded to the nearest integer, a tie going to the even neighbour.
pub open spec fn div_nearest_even(n: nat, d: nat) -> nat
    recommends
        d > 0,
{
    let q = n / d;
    let r = n % d;
    if 2 * r < d || (2 * r == d && q % 2 == 0) {
        q
    } else {
        q + 1
    }
}

/// `n` rounded to its `p` leading binary digits.
pub open spec fn round_significant(n: nat, p: nat) -> nat {
    if bit_length(n) <= p {
        n
    } else {
        let unit = pow2((bit_length(n) - p) as nat);
        div_nearest_even(n, unit) * unit
    }
}

/// A positive number lies between the powers of two that its bit length names.
pub proof fn lemma_bit_length_bounds(n: nat)
    requires
        n > 0,
    ensures
        bit_length(n) > 0,
        pow2((bit_length(n) - 1) as nat) <= n < pow2(bit_length(n)),
    decreases n,
{
    let l = bit_length(n);
    if n == 1 {
        assert(bit_length(0) == 0);
        assert(bit_length(1) == 1 + bit_length(0));
        lemma2_to64();
    } else {
        lemma_bit_length_bounds(n / 2);
        lemma_pow2_unfold(l);
        lemma_pow2_unfold((l - 1) as nat);
    }
}

/// The powers of two around a number determine its bit length.
pub proof fn lemma_bit_length_unique(n: nat, l: nat)
    requires
        l > 0,
        pow2((l - 1) as nat) <= n < pow2(l),
    ensures
        bit_length(n) == l,
{
    lemma_pow2_pos((l - 1) as nat);
    lemma_bit_length_bounds(n);
    let k = bit_length(n);
    if k < l {
        if k < l - 1 {
            lemma_pow2_strictly_increases(k, (l - 1) as nat);
        }
    } else if k > l {
        if l < k - 1 {
            lemma_pow2_strictly_increases(l, (k - 1) as nat);
        }
    }
}

/// A number below `2^p` has at most `p` digits.
pub proof fn lemma_bit_length_below(n: nat, p: nat)
    requires
        n < pow2(p),
    ensures
        bit_length(n) <= p,
{
    if n > 0 {
        lemma_bit_length_bounds(n);
        if bit_length(n) > p {
            if p < bit_length(n) - 1 {
                lemma_pow2_strictly_increases(p, (bit_length(n) - 1) as nat);
            }
        }
    }
}

/// Powers of two grow with the exponent.
pub proof fn lemma_pow2_le(a: nat, b: nat)
    requires
        a <= b,
    ensures
        pow2(a) <= pow2(b),
{
    if a < b {
        lemma_pow2_strictly_increases(a, b);
    }
}

/// A number from `2^(p-1)` up has at least `p` digits.
pub proof fn lemma_bit_length_above(n: nat, p: nat)
    requires
        p > 0,
        n >= pow2((p - 1) as nat),
    ensures
        bit_length(n) >= p,
{
    lemma_pow2_pos((p - 1) as nat);
    lemma_bit_length_bounds(n);
    if bit_length(n) < p {
        lemma_pow2_le(bit_length(n), (p - 1) as nat);
    }
}

/// Division with rounding only depends on the ratio.
pub proof fn lemma_div_nearest_even_double(n: nat, d: nat)
    requires
        d > 0,
    ensures
        div_nearest_even(2 * n, 2 * d) == div_nearest_even(n, d),
{
    let q = n / d;
    let r = n % d;
    lemma_fundamental_div_mod(n as int, d as int);
    assert(2 * n == q * (2 * d) + 2 * r) by (nonlinear_arith)
        requires
            n == d * q + r,
    ;
    lemma_fundamental_div_mod_converse(2 * n as int, 2 * d as int, q as int, 2 * r as int);
}

/// Division with rounding is exact where the divisor divides.
pub proof fn lemma_div_nearest_even_exact(q: nat, d: nat)
    requires
        d > 0,
    ensures
        div_nearest_even(q * d, d) == q,
{
    lemma_fundamental_div_mod_converse((q * d) as int, d as int, q as int, 0);
    lemma_mul_is_commutative(q as int, d as int);
}

/// Doubling a number doubles its rounding.
pub proof fn lemma_round_double(n: nat, p: nat)
    ensures
        round_significant(2 * n, p) == 2 * round_significant(n, p),
{
    if n == 0 {
    } else {
        let l = bit_length(n);
        assert((2 * n) / 2 == n);
        assert(bit_length(2 * n) == l + 1);
        lemma2_to64();
        if l + 1 <= p {
        } else if l <= p {
            let unit = pow2((l + 1 - p) as nat);
            assert(unit == 2);
            lemma_div_nearest_even_exact(n, 2);
            assert(2 * n == n * 2);
        } else {
            let unit = pow2((l - p) as nat);
            lemma_pow2_pos((l - p) as nat);
            lemma_pow2_unfold((l + 1 - p) as nat);
            assert(pow2((l + 1 - p) as nat) == 2 * unit);
            lemma_div_nearest_even_double(n, unit);
            let k = div_nearest_even(n, unit);
            assert(k * (2 * unit) == 2 * (k * unit)) by (nonlinear_arith);
        }
    }
}

/// Rounding commutes with multiplication by a power of two.
pub proof fn lemma_round_scale(n: nat, k: nat, p: nat)
    ensures
        round_significant(n * pow2(k), p) == round_significant(n, p) * pow2(k),
    decreases k,
{
    if k == 0 {
        lemma2_to64();
        assert(n * pow2(0) == n);
        assert(round_significant(n, p) * pow2(0) == round_significant(n, p));
    } else {
        let h = pow2((k - 1) as nat);
        lemma_round_scale(n, (k - 1) as nat, p);
        lemma_pow2_unfold(k);
        lemma_round_double(n * h, p);
        assert(n * pow2(k) == 2 * (n * h)) by (nonlinear_arith)
            requires
                pow2(k) == 2 * h,
        ;
        let r = round_significant(n, p);
        assert(r * pow2(k) == 2 * (r * h)) by (nonlinear_arith)
            requires
                pow2(k) == 2 * h,
        ;
    }
}

/// The digits that rounding keeps of a number too long for `p` digits.
pub proof fn lemma_leading_digits(n: nat, p: nat)
    requires
        p > 0,
        bit_length(n) > p,
    ensures
        pow2((p - 1) as nat) <= div_nearest_even(n, pow2((bit_length(n) - p) as nat)) <= pow2(p),
{
    lemma_bit_length_bounds(n);
    let s = (bit_length(n) - p) as nat;
    let unit = pow2(s);
    lemma_pow2_pos(s);
    let q = n / unit;
    lemma_pow2_adds(p, s);
    lemma_pow2_adds((p - 1) as nat, s);
    let top = pow2(p);
    let low = pow2((p - 1) as nat);
    lemma_fundamental_div_mod(n as int, unit as int);
    assert(q < top) by (nonlinear_arith)
        requires
            n == unit * q + n % unit,
            n % unit >= 0,
            n < top * unit,
            unit > 0,
    ;
    assert(q >= low) by (nonlinear_arith)
        requires
            n == unit * q + n % unit,
            0 <= n % unit < unit,
            n >= low * unit,
            unit > 0,
    ;
}

/// Rounding does not leave the closed interval of powers of two that a number lies in.
pub proof fn lemma_round_bounds(n: nat, l: nat, p: nat)
    requires
        p > 0,
        n < pow2(l),
    ensures
        round_significant(n, p) <= pow2(l),
        n > 0 ==> round_significant(n, p) >= pow2((bit_length(n) - 1) as nat),
{
    if n > 0 {
        lemma_bit_length_bounds(n);
        lemma_bit_length_below(n, l);
        let b = bit_length(n);
        if b > p {
            let s = (b - p) as nat;
            let unit = pow2(s);
            let k = div_nearest_even(n, unit);
            lemma_leading_digits(n, p);
            lemma_pow2_adds(p, s);
            lemma_pow2_adds((p - 1) as nat, s);
            let top = pow2(p);
            let low = pow2((p - 1) as nat);
            assert(low * unit <= k * unit <= top * unit) by (nonlinear_arith)
                requires
                    low <= k <= top,
            ;
        }
        if b < l {
            lemma_pow2_strictly_increases(b, l);
        }
    }
}

/// Computes [`div_nearest_even`].
pub fn divide_nearest_even(n: u128, d: u128) -> (r: u128)
    requires
        d > 0,
    ensures
        r == div_nearest_even(n as nat, d as nat),
{
    let quotient: u128 = n / d;
    let remainder: u128 = n % d;
    let rest: u128 = d - remainder;
    if remainder < rest || (remainder == rest && quotient % 2 == 0) {
        quotient
    } else {
        assert(quotient < u128::MAX) by (nonlinear_arith)
            requires
                quotient == n / d,
                d >= 2,
                n <= u128::MAX,
        ;
        quotient + 1
    }
}

/// Splits `n` into its `p` leading digits, rounded, and the number of digits dropped.
pub fn split_significant(n: u128, p: u32) -> (r: (u128, u32))
    requires
        0 < p <= 64,
        n < 0x4000_0000_0000_0000_0000_0000_0000_0000,
    ensures
        round_significant(n as nat, p as nat) == r.0 * pow2(r.1 as nat),
        r.0 <= pow2(p as nat),
        r.1 == 0 ==> r.0 == n,
        r.1 > 0 ==> r.0 >= pow2((p - 1) as nat),
        r.1 > 0 ==> r.1 + p == bit_length(n as nat),
        r.1 <= 126,
{
    let limit: u128 = power_of_two(p);
    let mut unit: u128 = 1;
    let mut dropped: u32 = 0;
    proof {
        lemma2_to64();
        lemma_pow2_126();
    }
    while n / unit >= limit
        invariant
            0 < p <= 64,
            limit == pow2(p as nat),
            n < 0x4000_0000_0000_0000_0000_0000_0000_0000,
            pow2(126) == 0x4000_0000_0000_0000_0000_0000_0000_0000,
            unit == pow2(dropped as nat),
            unit > 0,
            dropped <= 126,
            dropped > 0 ==> pow2((p + dropped - 1) as nat) <= n,
        decreases 127 - dropped,
    {
        proof {
            lemma_fundamental_div_mod(n as int, unit as int);
            let q = (n / unit) as int;
            assert(limit * unit <= n) by (nonlinear_arith)
                requires
                    n == unit * q + (n % unit),
                    q >= limit,
                    n % unit >= 0,
                    unit > 0,
            ;
            lemma_pow2_adds(p as nat, dropped as nat);
            assert(pow2((p + dropped) as nat) <= n);
            if dropped >= 126 {
                lemma_pow2_strictly_increases(126, (p + dropped) as nat);
            }
            lemma_pow2_unfold((dropped + 1) as nat);
            lemma_pow2_strictly_increases(dropped as nat, 126);
        }
        unit = unit * 2;
        dropped = dropped + 1;
    }
    proof {
        lemma_fundamental_div_mod(n as int, unit as int);
        let q = (n / unit) as int;
        assert(n < limit * unit) by (nonlinear_arith)
            requires
                n == unit * q + (n % unit),
                q < limit,
                n % unit < unit,
                unit > 0,
        ;
        lemma_pow2_adds(p as nat, dropped as nat);
    }
    if dropped == 0 {
        proof {
            assert(limit * unit == limit) by (nonlinear_arith)
                requires
                    unit == 1,
            ;
            lemma_bit_length_below(n as nat, p as nat);
            assert(n * pow2(0) == n);
        }
        (n, 0)
    } else {
        let kept: u128 = divide_nearest_even(n, unit);
        proof {
            lemma_bit_length_unique(n as nat, (p + dropped) as nat);
            lemma_leading_digits(n as nat, p as nat);
        }
        (kept, dropped)
    }
}

/// Computes [`round_significant`].
pub fn round_to_significant(n: u128, p: u32) -> (r: u128)
    requires
        0 < p <= 64,
        n < 0x4000_0000_0000_0000_0000_0000_0000_0000,
    ensures
        r == round_significant(n as nat, p as nat),
{
    let (kept, dropped) = split_significant(n, p);
    proof {
        lemma_pow2_126();
        lemma_round_bounds(n as nat, 126, p as nat);
    }
    kept * power_of_two(dropped)
}

proof fn lemma_pow2_126()
    ensures
        pow2(126) == 0x4000_0000_0000_0000_0000_0000_0000_0000,
{
    lemma2_to64();
    lemma_pow2_adds(63, 63);
    assert(0x8000_0000_0000_0000 * 0x8000_0000_0000_0000 == 0x4000_0000_0000_0000_0000_0000_0000_0000) by (nonlinear_arith);
    lemma2_to64_rest();
}

/// `2^e`.
pub fn power_of_two(e: u32) -> (r: u128)
    requires
        e < 127,
    ensures
        r == pow2(e as nat),
{
    let mut r: u128 = 1;
    let mut i: u32 = 0;
    proof {
        lemma2_to64();
        lemma_pow2_126();
    }
    while i < e
        invariant
            i <= e < 127,
            r == pow2(i as nat),
            pow2(126) == 0x4000_0000_0000_0000_0000_0000_0000_0000,
        decreases e - i,
    {
        proof {
            lemma_pow2_unfold((i + 1) as nat);
            lemma_pow2_strictly_increases(i as nat, 126);
        }
        r = r * 2;
        i = i + 1;
    }
    r
}

/// Dividing to the nearest integer is off by half a divisor at most, and by just that much only
/// where the result is even.
pub proof fn lemma_div_nearest_even_near(n: nat, d: nat)
    requires
        d > 0,
    ensures
        -(d as int) <= 2 * (div_nearest_even(n, d) * d - n) <= d,
        2 * (div_nearest_even(n, d) * d - n) == d ==> div_nearest_even(n, d) % 2 == 0,
        2 * (n - div_nearest_even(n, d) * d) == d ==> div_nearest_even(n, d) % 2 == 0,
{
    let q = n / d;
    let r = n % d;
    lemma_fundamental_div_mod(n as int, d as int);
    lemma_mod_bound(n as int, d as int);
    assert((q + 1) * d == q * d + d) by (nonlinear_arith);
    lemma_mul_is_commutative(d as int, q as int);
}

/// A number that is rounded to `p` binary digits is off by a part in `2^p` of itself at most.
pub proof fn lemma_round_near(n: nat, p: nat)
    requires
        p > 0,
    ensures
        -(n as int) <= (round_significant(n, p) - n) * pow2(p) <= n,
{
    let l = bit_length(n);
    lemma_pow2_pos(p);
    if l > p {
        lemma_bit_length_bounds(n);
        let k = (l - p) as nat;
        let u = pow2(k);
        lemma_pow2_pos(k);
        lemma_div_nearest_even_near(n, u);
        lemma_pow2_adds(k, p);
        lemma_pow2_unfold(l);
        let off = (round_significant(n, p) - n) as int;
        assert(-(u as int) <= 2 * off <= u);
        assert(u * pow2(p) == 2 * pow2((l - 1) as nat));
        assert(-(2 * n) <= 2 * off * pow2(p) <= 2 * n) by (nonlinear_arith)
            requires
                -(u as int) <= 2 * off <= u,
                u * pow2(p) <= 2 * n,
                pow2(p) > 0,
        ;
        assert(2 * off * pow2(p) == 2 * (off * pow2(p))) by (nonlinear_arith);
    } else {
        assert(0 * pow2(p) == 0);
    }
}

/// A number that is rounded to `p` digits has no more than `p` of them, followed by zeros.
pub proof fn lemma_round_has_few_digits(n: nat, p: nat) -> (r: (nat, nat))
    requires
        p > 0,
    ensures
        round_significant(n, p) == r.0 * pow2(r.1),
        r.0 <= pow2(p),
        r.1 > 0 ==> bit_length(n) == p + r.1,
{
    let l = bit_length(n);
    lemma2_to64();
    if l > p {
        lemma_leading_digits(n, p);
        (div_nearest_even(n, pow2((l - p) as nat)), (l - p) as nat)
    } else {
        if n > 0 {
            lemma_bit_length_bounds(n);
            lemma_pow2_le(l, p);
        }
        assert(n * pow2(0) == n);
        (n, 0)
    }
}

/// Rounding does not take a number below one of few digits that it is not below.
pub proof fn lemma_round_at_least(n: nat, m: nat, k: nat, p: nat)
    requires
        p > 0,
        m <= pow2(p),
        n >= m * pow2(k),
    ensures
        round_significant(n, p) >= m * pow2(k),
{
    let l = bit_length(n);
    if l > p {
        lemma_bit_length_bounds(n);
        let u = (l - p) as nat;
        let unit = pow2(u);
        lemma_pow2_pos(u);
        if k >= u {
            let up = pow2((k - u) as nat);
            lemma_pow2_adds((k - u) as nat, u);
            assert(m * pow2(k) == (m * up) * unit) by (nonlinear_arith)
                requires
                    pow2(k) == up * unit,
            ;
            let q = n / unit;
            lemma_fundamental_div_mod(n as int, unit as int);
            lemma_mod_bound(n as int, unit as int);
            assert(q >= m * up) by (nonlinear_arith)
                requires
                    n == unit * q + n % unit,
                    n % unit < unit,
                    n >= (m * up) * unit,
                    unit > 0,
            ;
            let d = div_nearest_even(n, unit);
            assert(d * unit >= (m * up) * unit) by (nonlinear_arith)
                requires
                    d >= m * up,
                    unit > 0,
            ;
        } else {
            lemma_round_bounds(n, l, p);
            lemma_pow2_adds(p, k);
            lemma_pow2_le(p + k, (l - 1) as nat);
            assert(m * pow2(k) <= pow2(p) * pow2(k)) by (nonlinear_arith)
                requires
                    m <= pow2(p),
            ;
        }
    }
}

} // verus!
