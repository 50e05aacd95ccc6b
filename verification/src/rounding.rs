//! Rounding of exact quotients to single precision.
//!
//! A magnitude is a natural number of units, one unit being the least positive
//! single-precision value. A magnitude is representable when it is a significand of at most
//! 24 bits times a power of two; `nearest` picks the representable magnitude closest to an exact
//! quotient and, halfway between two, the one with the even significand.

use vstd::arithmetic::div_mod::*;
use vstd::arithmetic::power2::*;
use vstd::prelude::*;

verus! {

/// One more than the largest significand.
pub const SIGNIFICAND_LIMIT: u64 = 0x100_0000;

/// The smallest significand of a normal number.
pub const HIDDEN_BIT: u64 = 0x80_0000;

/// `n / d` rounded to the nearest integer, ties going to the even one.
pub open spec fn round_half_even(n: nat, d: nat) -> nat
    recommends
        d > 0,
{
    let quotient = n / d;
    let remainder = n % d;
    if 2 * remainder < d || (2 * remainder == d && quotient % 2 == 0) {
        quotient
    } else {
        quotient + 1
    }
}

/// The least exponent at which the significand of `n / d` stays below 24 bits.
pub open spec fn quantum(n: nat, d: nat) -> nat
    decreases n - d,
{
    if d == 0 || n < SIGNIFICAND_LIMIT * d {
        0
    } else {
        1 + quantum(n, 2 * d)
    }
}

/// The magnitude nearest to `n / d` among those with a 24-bit significand.
pub open spec fn nearest(n: nat, d: nat) -> nat
    recommends
        d > 0,
{
    let e = quantum(n, d);
    round_half_even(n, d * pow2(e)) * pow2(e)
}

/// `n / d` multiplied by two to the power `k`, as a numerator.
pub open spec fn scaled_numerator(n: nat, k: int) -> nat {
    if k >= 0 {
        n * pow2(k as nat)
    } else {
        n
    }
}

/// `n / d` multiplied by two to the power `k`, as a denominator.
pub open spec fn scaled_denominator(d: nat, k: int) -> nat {
    if k >= 0 {
        d
    } else {
        d * pow2((-k) as nat)
    }
}

/// The rounding of `n / d` times two to the power `k`.
pub open spec fn nearest_scaled(n: nat, d: nat, k: int) -> nat {
    nearest(scaled_numerator(n, k), scaled_denominator(d, k))
}

pub proof fn lemma_round_half_even_scale(n: nat, d: nat, c: nat)
    requires
        d > 0,
        c > 0,
    ensures
        d * c > 0,
        round_half_even(n * c, d * c) == round_half_even(n, d),
{
    let q = n / d;
    let r = n % d;
    lemma_fundamental_div_mod(n as int, d as int);
    assert(d * c > 0) by (nonlinear_arith)
        requires
            d > 0,
            c > 0,
    ;
    assert(n * c == q * (d * c) + r * c) by (nonlinear_arith)
        requires
            n == d * q + r,
    ;
    assert(0 <= r * c < d * c) by (nonlinear_arith)
        requires
            0 <= r < d,
            c > 0,
    ;
    lemma_fundamental_div_mod_converse((n * c) as int, (d * c) as int, q as int, (r * c) as int);
    assert(2 * (r * c) < d * c <==> 2 * r < d) by (nonlinear_arith)
        requires
            c > 0,
    ;
    assert(2 * (r * c) == d * c <==> 2 * r == d) by (nonlinear_arith)
        requires
            c > 0,
    ;
}

/// A bracket of `n / d` between two powers of two determines its quantum.
pub proof fn lemma_quantum_is(n: nat, d: nat, e: nat)
    requires
        d > 0,
        n < SIGNIFICAND_LIMIT * (d * pow2(e)),
        e > 0 ==> n >= SIGNIFICAND_LIMIT * (d * pow2((e - 1) as nat)),
    ensures
        quantum(n, d) == e,
    decreases e,
{
    lemma_pow2(0);
    lemma2_to64();
    if e == 0 {
        assert(d * pow2(0) == d);
    } else {
        let f = (e - 1) as nat;
        lemma_pow2_pos(f);
        assert(d * pow2(f) >= d) by (nonlinear_arith)
            requires
                pow2(f) >= 1,
        ;
        lemma_pow2_unfold(e);
        assert(d * pow2(e) == (2 * d) * pow2(f)) by (nonlinear_arith)
            requires
                pow2(e) == 2 * pow2(f),
        ;
        if f > 0 {
            lemma_pow2_unfold(f);
            assert(d * pow2(f) == (2 * d) * pow2((f - 1) as nat)) by (nonlinear_arith)
                requires
                    pow2(f) == 2 * pow2((f - 1) as nat),
            ;
        }
        lemma_quantum_is(n, 2 * d, f);
    }
}

/// The quantum brackets `n / d` between two powers of two.
pub proof fn lemma_quantum_bounds(n: nat, d: nat)
    requires
        d > 0,
    ensures
        n < SIGNIFICAND_LIMIT * (d * pow2(quantum(n, d))),
        quantum(n, d) > 0 ==> n >= SIGNIFICAND_LIMIT * (d * pow2((quantum(n, d) - 1) as nat)),
    decreases n - d,
{
    lemma2_to64();
    if n < SIGNIFICAND_LIMIT * d {
        assert(d * pow2(0) == d);
    } else {
        lemma_quantum_bounds(n, 2 * d);
        let f = quantum(n, 2 * d);
        let e = quantum(n, d);
        lemma_pow2_unfold(e);
        assert(d * pow2(e) == (2 * d) * pow2(f)) by (nonlinear_arith)
            requires
                pow2(e) == 2 * pow2(f),
        ;
        if f > 0 {
            lemma_pow2_unfold(f);
            assert(d * pow2(f) == (2 * d) * pow2((f - 1) as nat)) by (nonlinear_arith)
                requires
                    pow2(f) == 2 * pow2((f - 1) as nat),
            ;
        } else {
            assert(d * pow2(0) == d);
        }
    }
}

pub proof fn lemma_quantum_scale(n: nat, d: nat, c: nat)
    requires
        d > 0,
        c > 0,
    ensures
        d * c > 0,
        quantum(n * c, d * c) == quantum(n, d),
{
    let e = quantum(n, d);
    lemma_quantum_bounds(n, d);
    assert(d * c > 0) by (nonlinear_arith)
        requires
            d > 0,
            c > 0,
    ;
    assert(n * c < SIGNIFICAND_LIMIT * (d * c * pow2(e))) by (nonlinear_arith)
        requires
            n < SIGNIFICAND_LIMIT * (d * pow2(e)),
            c > 0,
    ;
    if e > 0 {
        let f = (e - 1) as nat;
        assert(n * c >= SIGNIFICAND_LIMIT * (d * c * pow2(f))) by (nonlinear_arith)
            requires
                n >= SIGNIFICAND_LIMIT * (d * pow2(f)),
                c > 0,
        ;
    }
    lemma_quantum_is(n * c, d * c, e);
}

/// Only the quotient matters: a common factor does not change the rounding.
pub proof fn lemma_nearest_scale(n: nat, d: nat, c: nat)
    requires
        d > 0,
        c > 0,
    ensures
        d * c > 0,
        nearest(n * c, d * c) == nearest(n, d),
{
    let e = quantum(n, d);
    lemma_quantum_scale(n, d, c);
    lemma_pow2_pos(e);
    assert(d * pow2(e) > 0) by (nonlinear_arith)
        requires
            d > 0,
            pow2(e) > 0,
    ;
    lemma_round_half_even_scale(n, d * pow2(e), c);
    assert(d * pow2(e) * c == d * c * pow2(e)) by (nonlinear_arith);
}

/// A quotient truncated after at least two extra bits rounds as the exact one does, provided
/// that its last bit records whether anything was cut off.
proof fn lemma_round_truncated(n: nat, d: nat, half: nat)
    requires
        d > 0,
        half > 0,
    ensures
        d * (2 * half) > 0,
        round_half_even(n, d * (2 * half)) == round_half_even(
            2 * (n / d) + (if n % d > 0 {
                1nat
            } else {
                0nat
            }),
            4 * half,
        ),
{
    let q = n / d;
    let r = n % d;
    let s: nat = if r > 0 {
        1
    } else {
        0
    };
    let top = q / (2 * half);
    let rest = q % (2 * half);
    lemma_fundamental_div_mod(n as int, d as int);
    lemma_fundamental_div_mod(q as int, (2 * half) as int);
    assert(d * (2 * half) > 0) by (nonlinear_arith)
        requires
            d > 0,
            half > 0,
    ;
    let whole = d * (2 * half);
    let low = rest * d + r;
    assert(n == top * whole + low) by (nonlinear_arith)
        requires
            n == d * q + r,
            q == (2 * half) * top + rest,
            whole == d * (2 * half),
            low == rest * d + r,
    ;
    assert(low < whole) by (nonlinear_arith)
        requires
            rest < 2 * half,
            r < d,
            whole == d * (2 * half),
            low == rest * d + r,
    ;
    lemma_fundamental_div_mod_converse(n as int, whole as int, top as int, low as int);
    let sig = 2 * q + s;
    assert(sig == top * (4 * half) + (2 * rest + s)) by (nonlinear_arith)
        requires
            sig == 2 * q + s,
            q == (2 * half) * top + rest,
    ;
    lemma_fundamental_div_mod_converse(
        sig as int,
        (4 * half) as int,
        top as int,
        (2 * rest + s) as int,
    );
    if rest < half {
        assert(2 * low < whole) by (nonlinear_arith)
            requires
                rest + 1 <= half,
                r < d,
                whole == d * (2 * half),
                low == rest * d + r,
        ;
    } else if rest == half {
        assert(2 * low == whole + 2 * r) by (nonlinear_arith)
            requires
                rest == half,
                whole == d * (2 * half),
                low == rest * d + r,
        ;
    } else {
        assert(2 * low > whole) by (nonlinear_arith)
            requires
                rest >= half + 1,
                d > 0,
                whole == d * (2 * half),
                low == rest * d + r,
        ;
    }
}

/// The quotient of `n` by `d`, truncated, with a last bit that records a remainder.
pub open spec fn truncated(n: nat, d: nat) -> nat {
    2 * (n / d) + (if n % d > 0 {
        1nat
    } else {
        0nat
    })
}

/// A quotient truncated to at least 27 bits rounds to single precision as the exact one does.
proof fn lemma_nearest_truncated(n: nat, d: nat, a: nat, b: nat)
    requires
        d > 0,
        truncated(n, d) >= pow2(26),
    ensures
        nearest(n * pow2(a), d * pow2(b)) == nearest(truncated(n, d) * pow2(a), 2 * pow2(b)),
{
    let sig = truncated(n, d);
    let q = n / d;
    let num = sig * pow2(a);
    let den = 2 * pow2(b);
    let e = quantum(num, den);
    lemma_fundamental_div_mod(n as int, d as int);
    lemma2_to64();
    lemma_pow2_pos(a);
    lemma_pow2_pos(b);
    lemma_pow2_pos(e);
    lemma_quantum_bounds(num, den);
    // The exponent leaves at least two bits to round away.
    assert(b + e >= a + 2) by {
        if b + e < a + 2 {
            lemma_pow2_adds(25, b + e);
            lemma_pow2_adds(b, e);
            lemma_pow2_adds(26, a);
            assert(num >= pow2(26) * pow2(a)) by (nonlinear_arith)
                requires
                    num == sig * pow2(a),
                    sig >= pow2(26),
            ;
            assert(SIGNIFICAND_LIMIT * (den * pow2(e)) == pow2(25) * (pow2(b) * pow2(e)))
                by (nonlinear_arith)
                requires
                    den == 2 * pow2(b),
                    pow2(25) == 2 * SIGNIFICAND_LIMIT,
            ;
            if 26 + a > 25 + (b + e) {
                lemma_pow2_strictly_increases(25 + (b + e), 26 + a);
            }
            assert(false);
        }
    }
    let drop = (b + e - a) as nat;
    let half = pow2((drop - 1) as nat);
    lemma_pow2_pos((drop - 1) as nat);
    lemma_pow2_unfold(drop);
    lemma_pow2_adds(a, drop);
    lemma_pow2_adds(b, e);
    let step = pow2(drop);
    assert(pow2(b) * pow2(e) == pow2(a) * step);
    // Both quotients have the same quantum.
    assert(sig < SIGNIFICAND_LIMIT * (2 * step)) by (nonlinear_arith)
        requires
            sig * pow2(a) < SIGNIFICAND_LIMIT * (2 * pow2(b) * pow2(e)),
            pow2(b) * pow2(e) == pow2(a) * step,
            pow2(a) > 0,
    ;
    assert(n < SIGNIFICAND_LIMIT * (d * step)) by (nonlinear_arith)
        requires
            q < SIGNIFICAND_LIMIT * step,
            n == d * q + n % d,
            0 <= n % d < d,
    ;
    assert(n * pow2(a) < SIGNIFICAND_LIMIT * (d * pow2(b) * pow2(e))) by (nonlinear_arith)
        requires
            n < SIGNIFICAND_LIMIT * (d * step),
            pow2(b) * pow2(e) == pow2(a) * step,
            pow2(a) > 0,
    ;
    if e > 0 {
        let f = (e - 1) as nat;
        lemma_pow2_unfold(e);
        assert(sig >= SIGNIFICAND_LIMIT * step) by (nonlinear_arith)
            requires
                sig * pow2(a) >= SIGNIFICAND_LIMIT * (2 * pow2(b) * pow2(f)),
                pow2(e) == 2 * pow2(f),
                pow2(b) * pow2(e) == pow2(a) * step,
                pow2(a) > 0,
        ;
        assert(step == 2 * half);
        assert(q >= SIGNIFICAND_LIMIT * half);
        assert(n >= SIGNIFICAND_LIMIT * (d * half)) by (nonlinear_arith)
            requires
                q >= SIGNIFICAND_LIMIT * half,
                n == d * q + n % d,
                n % d >= 0,
                d > 0,
        ;
        assert(n * pow2(a) >= SIGNIFICAND_LIMIT * (d * pow2(b) * pow2(f))) by (nonlinear_arith)
            requires
                n >= SIGNIFICAND_LIMIT * (d * half),
                pow2(e) == 2 * pow2(f),
                pow2(b) * pow2(e) == pow2(a) * (2 * half),
                pow2(a) > 0,
        ;
    }
    assert(d * pow2(b) > 0) by (nonlinear_arith)
        requires
            d > 0,
            pow2(b) > 0,
    ;
    lemma_quantum_is(n * pow2(a), d * pow2(b), e);
    // Both round alike once the common power of two is divided out.
    lemma_round_truncated(n, d, half);
    lemma_round_half_even_scale(n, d * (2 * half), pow2(a));
    lemma_round_half_even_scale(sig, 4 * half, pow2(a));
    assert(d * (2 * half) * pow2(a) == d * pow2(b) * pow2(e)) by (nonlinear_arith)
        requires
            pow2(b) * pow2(e) == pow2(a) * (2 * half),
    ;
    assert(4 * half * pow2(a) == den * pow2(e)) by (nonlinear_arith)
        requires
            den == 2 * pow2(b),
            pow2(b) * pow2(e) == pow2(a) * (2 * half),
    ;
}

/// Dividing with a truncated quotient of at least 27 bits loses nothing.
pub proof fn lemma_nearest_scaled_truncated(n: nat, d: nat, k: int)
    requires
        d > 0,
        truncated(n, d) >= pow2(26),
    ensures
        nearest_scaled(n, d, k) == nearest_scaled(truncated(n, d), 1, k - 1),
{
    let sig = truncated(n, d);
    lemma2_to64();
    if k >= 1 {
        let a = k as nat;
        lemma_nearest_truncated(n, d, a, 0);
        lemma_pow2_unfold(a);
        lemma_pow2_pos((a - 1) as nat);
        assert(sig * pow2(a) == sig * pow2((a - 1) as nat) * 2) by (nonlinear_arith)
            requires
                pow2(a) == 2 * pow2((a - 1) as nat),
        ;
        lemma_nearest_scale(sig * pow2((a - 1) as nat), 1, 2);
        assert(d * pow2(0) == d);
    } else {
        let b = (-k) as nat;
        lemma_nearest_truncated(n, d, 0, b);
        assert(n * pow2(0) == n);
        assert(sig * pow2(0) == sig);
        lemma_pow2_unfold((1 - k) as nat);
        if k == 0 {
            assert(d * pow2(0) == d);
            assert(n * pow2(k as nat) == n);
        }
    }
}

/// Adding or subtracting a number that is at least 26 binary orders smaller changes nothing.
pub proof fn lemma_nearest_absorbs(large: nat, gap: nat, small: nat, subtract: bool, e: nat)
    requires
        HIDDEN_BIT <= large < SIGNIFICAND_LIMIT,
        small < SIGNIFICAND_LIMIT,
        gap >= 26,
    ensures
        large * pow2(gap) >= small,
        subtract ==> nearest(((large * pow2(gap) - small) * pow2(e)) as nat, 1) == large * pow2(
            gap + e,
        ),
        !subtract ==> nearest((large * pow2(gap) + small) * pow2(e), 1) == large * pow2(gap + e),
{
    lemma2_to64();
    lemma_pow2_pos(e);
    lemma_pow2_pos(gap);
    if gap > 26 {
        lemma_pow2_strictly_increases(26, gap);
    }
    let step = pow2(gap);
    let scale = pow2(e);
    lemma_pow2_adds(gap, e);
    lemma_pow2_unfold(gap);
    let step2 = pow2((gap - 1) as nat);
    assert(large * step >= small) by (nonlinear_arith)
        requires
            large >= 1,
            step >= small,
    ;
    if !subtract {
        let n = large * step + small;
        assert(n < SIGNIFICAND_LIMIT * step) by (nonlinear_arith)
            requires
                large + 1 <= SIGNIFICAND_LIMIT,
                small < step,
                n == large * step + small,
        ;
        assert(n >= SIGNIFICAND_LIMIT * step2) by (nonlinear_arith)
            requires
                2 * large >= SIGNIFICAND_LIMIT,
                step == 2 * step2,
                n == large * step + small,
                small >= 0,
        ;
        lemma_fundamental_div_mod_converse(n as int, step as int, large as int, small as int);
        lemma_rounds_to(n, gap, e, large);
    } else if small == 0 {
        let n = (large * step) as nat;
        assert(n < SIGNIFICAND_LIMIT * step) by (nonlinear_arith)
            requires
                large + 1 <= SIGNIFICAND_LIMIT,
                0 < step,
                n == large * step,
        ;
        assert(n >= SIGNIFICAND_LIMIT * step2) by (nonlinear_arith)
            requires
                2 * large >= SIGNIFICAND_LIMIT,
                step == 2 * step2,
                n == large * step,
        ;
        lemma_fundamental_div_mod_converse(n as int, step as int, large as int, 0);
        lemma_rounds_to(n, gap, e, large);
    } else if large > HIDDEN_BIT {
        let n = (large * step - small) as nat;
        assert(n < SIGNIFICAND_LIMIT * step) by (nonlinear_arith)
            requires
                large + 1 <= SIGNIFICAND_LIMIT,
                0 < step,
                n == large * step - small,
                small >= 0,
        ;
        assert(n >= SIGNIFICAND_LIMIT * step2) by (nonlinear_arith)
            requires
                2 * (large - 1) >= SIGNIFICAND_LIMIT,
                step == 2 * step2,
                n == large * step - small,
                small <= step,
        ;
        assert(n == (large - 1) * step + (step - small)) by (nonlinear_arith)
            requires
                n == large * step - small,
        ;
        lemma_fundamental_div_mod_converse(
            n as int,
            step as int,
            large - 1,
            (step - small) as int,
        );
        lemma_rounds_to(n, gap, e, large);
    } else {
        let n = (large * step - small) as nat;
        let g = (gap - 1) as nat;
        lemma_pow2_unfold(g);
        let step3 = pow2((g - 1) as nat);
        assert(n == (SIGNIFICAND_LIMIT - 1) * step2 + (step2 - small)) by (nonlinear_arith)
            requires
                n == large * step - small,
                step == 2 * step2,
                2 * large == SIGNIFICAND_LIMIT,
        ;
        assert(n >= SIGNIFICAND_LIMIT * step3);
        lemma_fundamental_div_mod_converse(
            n as int,
            step2 as int,
            SIGNIFICAND_LIMIT - 1,
            (step2 - small) as int,
        );
        if g > 25 {
            lemma_pow2_strictly_increases(25, g);
        }
        lemma_rounds_to(n, g, e, SIGNIFICAND_LIMIT as nat);
        lemma_pow2_adds(g, e);
        lemma_pow2_unfold(gap + e);
        assert(SIGNIFICAND_LIMIT * pow2(g + e) == large * pow2(gap + e)) by (nonlinear_arith)
            requires
                pow2(gap + e) == 2 * pow2(g + e),
                2 * large == SIGNIFICAND_LIMIT,
        ;
    }
}

/// A number bracketed at the exponent `g` rounds to `m` units of that exponent, and so does
/// its multiple by a power of two.
proof fn lemma_rounds_to(n: nat, g: nat, e: nat, m: nat)
    requires
        n < SIGNIFICAND_LIMIT * pow2(g),
        g > 0,
        n >= SIGNIFICAND_LIMIT * pow2((g - 1) as nat),
        round_half_even(n, pow2(g)) == m,
    ensures
        nearest(n * pow2(e), 1) == m * pow2(g + e),
{
    lemma_pow2_pos(e);
    lemma_pow2_pos(g);
    lemma_pow2_adds(g, e);
    lemma_pow2_adds((g - 1) as nat, e);
    assert(n * pow2(e) < SIGNIFICAND_LIMIT * (1 * pow2(g + e))) by (nonlinear_arith)
        requires
            n < SIGNIFICAND_LIMIT * pow2(g),
            pow2(g + e) == pow2(g) * pow2(e),
            pow2(e) > 0,
    ;
    assert((g - 1) + e == g + e - 1);
    assert(n * pow2(e) >= SIGNIFICAND_LIMIT * (1 * pow2((g + e - 1) as nat))) by (nonlinear_arith)
        requires
            n >= SIGNIFICAND_LIMIT * pow2((g - 1) as nat),
            pow2((g + e - 1) as nat) == pow2((g - 1) as nat) * pow2(e),
            pow2(e) > 0,
    ;
    lemma_quantum_is(n * pow2(e), 1, g + e);
    lemma_round_half_even_scale(n, pow2(g), pow2(e));
    assert(1 * pow2(g + e) == pow2(g) * pow2(e));
}

/// The bit pattern of positive infinity.
pub const INFINITE_PATTERN: u32 = 0x7f80_0000;

/// The power of two that multiplies the significand of the sign-free bit pattern `p`.
pub open spec fn pattern_exponent(p: nat) -> nat {
    if p < HIDDEN_BIT {
        0
    } else {
        (p / (HIDDEN_BIT as nat) - 1) as nat
    }
}

/// The significand of the sign-free bit pattern `p`.
pub open spec fn pattern_significand(p: nat) -> nat {
    (p - pattern_exponent(p) * HIDDEN_BIT) as nat
}

/// The magnitude of the sign-free bit pattern `p` of a finite number.
pub open spec fn pattern_magnitude(p: nat) -> nat {
    pattern_significand(p) * pow2(pattern_exponent(p))
}

/// Magnitudes from here on have no finite pattern.
pub open spec fn overflow_magnitude() -> nat {
    pow2(277)
}

/// Whether `p` is the sign-free pattern of the magnitude `m`, infinite where `m` is too large.
pub open spec fn encodes(p: nat, m: nat) -> bool {
    if m < overflow_magnitude() {
        p < INFINITE_PATTERN && pattern_magnitude(p) == m
    } else {
        p == INFINITE_PATTERN
    }
}

/// The significand and exponent of a finite pattern are in range.
pub proof fn lemma_pattern_parts(p: nat)
    requires
        p < INFINITE_PATTERN,
    ensures
        pattern_exponent(p) <= 253,
        pattern_significand(p) < SIGNIFICAND_LIMIT,
        pattern_exponent(p) > 0 ==> pattern_significand(p) >= HIDDEN_BIT,
        p == pattern_exponent(p) * HIDDEN_BIT + pattern_significand(p),
{
}

/// A significand and an exponent packed into one number form the pattern of their product.
pub proof fn lemma_pattern_encodes(e: nat, m: nat)
    requires
        e <= 253,
        m <= SIGNIFICAND_LIMIT,
        e > 0 ==> m >= HIDDEN_BIT,
    ensures
        encodes((e * HIDDEN_BIT + m) as nat, m * pow2(e)),
{
    let p = (e * HIDDEN_BIT + m) as nat;
    lemma2_to64();
    lemma_pow2_pos(e);
    lemma_pow2_adds(24, 253);
    if m < SIGNIFICAND_LIMIT {
        if m >= HIDDEN_BIT {
            assert(pattern_exponent(p) == e);
        }
        assert(pattern_significand(p) == m);
        if e < 253 {
            lemma_pow2_strictly_increases(e, 253);
        }
        assert(m * pow2(e) < SIGNIFICAND_LIMIT * pow2(253)) by (nonlinear_arith)
            requires
                m < SIGNIFICAND_LIMIT,
                0 < pow2(e) <= pow2(253),
        ;
        assert(p < INFINITE_PATTERN);
    } else if e < 253 {
        assert(pattern_exponent(p) == e + 1);
        assert(pattern_significand(p) == HIDDEN_BIT);
        lemma_pow2_unfold(e + 1);
        assert(HIDDEN_BIT * pow2(e + 1) == m * pow2(e)) by (nonlinear_arith)
            requires
                pow2(e + 1) == 2 * pow2(e),
                m == 2 * HIDDEN_BIT,
        ;
        lemma_pow2_strictly_increases(e, 253);
        assert(m * pow2(e) < SIGNIFICAND_LIMIT * pow2(253)) by (nonlinear_arith)
            requires
                m == SIGNIFICAND_LIMIT,
                0 < pow2(e) < pow2(253),
        ;
    }
}

/// The rounded significand has at most 24 bits, and all of them above the least exponent.
pub proof fn lemma_significand_range(n: nat, d: nat)
    requires
        d > 0,
    ensures
        d * pow2(quantum(n, d)) > 0,
        round_half_even(n, d * pow2(quantum(n, d))) <= SIGNIFICAND_LIMIT,
        quantum(n, d) > 0 ==> round_half_even(n, d * pow2(quantum(n, d))) >= HIDDEN_BIT,
{
    let e = quantum(n, d);
    let w = d * pow2(e);
    lemma_quantum_bounds(n, d);
    lemma_pow2_pos(e);
    assert(w > 0) by (nonlinear_arith)
        requires
            d > 0,
            pow2(e) > 0,
            w == d * pow2(e),
    ;
    lemma_fundamental_div_mod(n as int, w as int);
    let q = n / w;
    assert(q < SIGNIFICAND_LIMIT) by (nonlinear_arith)
        requires
            n < SIGNIFICAND_LIMIT * w,
            n == w * q + n % w,
            n % w >= 0,
            w > 0,
    ;
    if e > 0 {
        lemma_pow2_unfold(e);
        let f = (e - 1) as nat;
        assert(n >= HIDDEN_BIT * w) by (nonlinear_arith)
            requires
                n >= SIGNIFICAND_LIMIT * (d * pow2(f)),
                pow2(e) == 2 * pow2(f),
                w == d * pow2(e),
        ;
        assert(q >= HIDDEN_BIT) by (nonlinear_arith)
            requires
                n >= HIDDEN_BIT * w,
                n == w * q + n % w,
                n % w < w,
                w > 0,
        ;
    }
}

/// Whether `sig` has exactly `len` binary digits and `e` is the quantum of `sig` times two to
/// the power `k`.
spec fn normalized(sig: nat, len: nat, k: int, e: nat) -> bool {
    &&& len > 0
    &&& pow2((len - 1) as nat) <= sig < pow2(len)
    &&& e == if len + k > 24 {
        len + k - 24
    } else {
        0
    }
}

proof fn lemma_pow2_monotone(a: nat, b: nat)
    requires
        a <= b,
    ensures
        pow2(a) <= pow2(b),
{
    if a < b {
        lemma_pow2_strictly_increases(a, b);
    }
}

proof fn lemma_round_exponent(sig: nat, len: nat, k: int, e: nat)
    requires
        normalized(sig, len, k, e),
    ensures
        scaled_denominator(1, k) > 0,
        quantum(scaled_numerator(sig, k), scaled_denominator(1, k)) == e,
{
    let n = scaled_numerator(sig, k);
    let d = scaled_denominator(1, k);
    lemma2_to64();
    let up: nat = if k >= 0 {
        k as nat
    } else {
        0
    };
    let down: nat = if k >= 0 {
        0
    } else {
        (-k) as nat
    };
    lemma_pow2_pos(up);
    lemma_pow2_pos(down);
    assert(sig * pow2(0) == sig);
    assert(n == sig * pow2(up) && d == pow2(down));
    lemma_pow2_adds(len, up);
    lemma_pow2_adds(down, e);
    lemma_pow2_adds(24, down + e);
    lemma_pow2_monotone(len + up, 24 + (down + e));
    assert(n < SIGNIFICAND_LIMIT * (d * pow2(e))) by (nonlinear_arith)
        requires
            n == sig * pow2(up),
            sig < pow2(len),
            pow2(up) > 0,
            pow2(len) * pow2(up) <= SIGNIFICAND_LIMIT * (pow2(down) * pow2(e)),
            d == pow2(down),
    ;
    if e > 0 {
        let f = (e - 1) as nat;
        lemma_pow2_adds((len - 1) as nat, up);
        lemma_pow2_adds(down, f);
        lemma_pow2_adds(24, down + f);
        assert((len - 1) + up == 24 + (down + f));
        assert(n >= SIGNIFICAND_LIMIT * (d * pow2(f))) by (nonlinear_arith)
            requires
                n == sig * pow2(up),
                sig >= pow2((len - 1) as nat),
                pow2((len - 1) as nat) * pow2(up) == SIGNIFICAND_LIMIT * (pow2(down) * pow2(f)),
                d == pow2(down),
        ;
    }
    lemma_quantum_is(n, d, e);
}

proof fn lemma_round_overflows(sig: nat, len: nat, k: int, e: nat)
    requires
        normalized(sig, len, k, e),
        e > 253,
    ensures
        nearest_scaled(sig, 1, k) >= overflow_magnitude(),
{
    let n = scaled_numerator(sig, k);
    let d = scaled_denominator(1, k);
    lemma_round_exponent(sig, len, k, e);
    lemma_significand_range(n, d);
    let m = round_half_even(n, d * pow2(e));
    lemma2_to64();
    lemma_pow2_adds(23, 254);
    lemma_pow2_monotone(254, e);
    assert(m * pow2(e) >= pow2(23) * pow2(254)) by (nonlinear_arith)
        requires
            m >= pow2(23),
            pow2(e) >= pow2(254),
    ;
}

/// Dividing by the quantum amounts to dropping `e - k` binary digits.
proof fn lemma_round_divides(sig: nat, len: nat, k: int, e: nat)
    requires
        normalized(sig, len, k, e),
        e >= k,
    ensures
        nearest_scaled(sig, 1, k) == round_half_even(sig, pow2((e - k) as nat)) * pow2(e),
        round_half_even(sig, pow2((e - k) as nat)) <= SIGNIFICAND_LIMIT,
        e > 0 ==> round_half_even(sig, pow2((e - k) as nat)) >= HIDDEN_BIT,
{
    let n = scaled_numerator(sig, k);
    let d = scaled_denominator(1, k);
    let drop = (e - k) as nat;
    lemma_round_exponent(sig, len, k, e);
    lemma_significand_range(n, d);
    lemma_pow2_pos(drop);
    if k >= 0 {
        lemma_pow2_pos(k as nat);
        lemma_round_half_even_scale(sig, pow2(drop), pow2(k as nat));
        lemma_pow2_adds(drop, k as nat);
    } else {
        lemma_pow2_adds((-k) as nat, e);
    }
}

proof fn lemma_round_exact(sig: nat, len: nat, k: int, e: nat)
    requires
        normalized(sig, len, k, e),
        e <= k,
    ensures
        k - e < 24,
        sig * pow2((k - e) as nat) < SIGNIFICAND_LIMIT,
        e > 0 ==> sig * pow2((k - e) as nat) >= HIDDEN_BIT,
        nearest_scaled(sig, 1, k) == sig * pow2((k - e) as nat) * pow2(e),
{
    let n = scaled_numerator(sig, k);
    let up = (k - e) as nat;
    let m = sig * pow2(up);
    lemma2_to64();
    lemma_round_exponent(sig, len, k, e);
    lemma_significand_range(n, 1);
    lemma_pow2_pos(e);
    lemma_pow2_pos(up);
    lemma_pow2_adds(up, e);
    assert(n == m * pow2(e)) by (nonlinear_arith)
        requires
            n == sig * pow2(k as nat),
            pow2(k as nat) == pow2(up) * pow2(e),
            m == sig * pow2(up),
    ;
    lemma_fundamental_div_mod_converse(n as int, pow2(e) as int, m as int, 0);
    assert(round_half_even(n, 1 * pow2(e)) == m);
    lemma_pow2_adds(len, up);
    lemma_pow2_monotone(len + up, 24);
    assert(m < pow2(len) * pow2(up)) by (nonlinear_arith)
        requires
            m == sig * pow2(up),
            sig < pow2(len),
            pow2(up) > 0,
    ;
}

proof fn lemma_round_vanishes(sig: nat, len: nat, k: int, e: nat)
    requires
        normalized(sig, len, k, e),
        sig < pow2(63),
        e - k >= 64,
    ensures
        nearest_scaled(sig, 1, k) == 0,
        e == 0,
{
    let drop = (e - k) as nat;
    lemma2_to64_rest();
    lemma_pow2_monotone(64, drop);
    lemma_pow2_unfold(64);
    lemma_round_divides(sig, len, k, e);
    lemma_fundamental_div_mod_converse(sig as int, pow2(drop) as int, 0, sig as int);
    assert(0 * pow2(e) == 0);
}

proof fn lemma_zero_rounds_to_zero(k: int)
    ensures
        encodes(0, nearest_scaled(0, 1, k)),
{
    let d = scaled_denominator(1, k);
    lemma2_to64();
    if k < 0 {
        lemma_pow2_pos((-k) as nat);
    } else {
        assert(0 * pow2(k as nat) == 0);
    }
    assert(quantum(0, d) == 0);
    lemma_fundamental_div_mod_converse(0, (d * pow2(0)) as int, 0, 0);
    lemma_pattern_encodes(0, 0);
}

/// The number of binary digits of `x`.
fn bit_length(x: u64) -> (len: u32)
    requires
        0 < x,
    ensures
        1 <= len <= 64,
        pow2((len - 1) as nat) <= x < pow2(len as nat),
{
    let mut rest: u64 = x / 2;
    let mut len: u32 = 1;
    proof {
        lemma2_to64();
    }
    while rest > 0
        invariant
            1 <= len <= 64,
            rest * pow2(len as nat) <= x,
            x < (rest + 1) * pow2(len as nat),
            pow2((len - 1) as nat) <= x,
        decreases rest,
    {
        proof {
            lemma2_to64();
            lemma2_to64_rest();
            if len == 64 {
                assert(rest * pow2(64) >= pow2(64)) by (nonlinear_arith)
                    requires
                        rest >= 1,
                ;
            }
            lemma_pow2_unfold((len + 1) as nat);
            let p = pow2(len as nat);
            let r2 = rest / 2;
            assert(r2 * (2 * p) <= rest * p) by (nonlinear_arith)
                requires
                    2 * r2 <= rest,
            ;
            assert((rest + 1) * p <= (r2 + 1) * (2 * p)) by (nonlinear_arith)
                requires
                    rest + 1 <= 2 * (r2 + 1),
            ;
            assert(p <= rest * p) by (nonlinear_arith)
                requires
                    rest >= 1,
            ;
        }
        rest = rest / 2;
        len = len + 1;
    }
    assert((rest + 1) * pow2(len as nat) == pow2(len as nat)) by (nonlinear_arith)
        requires
            rest == 0,
    ;
    len
}

/// Two to the power `k`.
pub(crate) fn power_of_two(k: u32) -> (p: u64)
    requires
        k < 64,
    ensures
        p == pow2(k as nat),
{
    let mut p: u64 = 1;
    let mut i: u32 = 0;
    proof {
        lemma2_to64();
    }
    while i < k
        invariant
            i <= k < 64,
            p == pow2(i as nat),
        decreases k - i,
    {
        proof {
            lemma2_to64();
            lemma2_to64_rest();
            lemma_pow2_unfold((i + 1) as nat);
            if i + 1 < 63 {
                lemma_pow2_strictly_increases((i + 1) as nat, 63);
            }
        }
        p = p * 2;
        i = i + 1;
    }
    p
}

/// The sign-free pattern of `sig` times two to the power `k`, rounded to nearest, ties to even.
pub(crate) fn round_magnitude(sig: u64, k: i32) -> (p: u32)
    requires
        sig < 0x8000_0000_0000_0000,
        -1000 <= k <= 1000,
    ensures
        encodes(p as nat, nearest_scaled(sig as nat, 1, k as int)),
{
    if sig == 0 {
        proof {
            lemma_zero_rounds_to_zero(k as int);
        }
        return 0;
    }
    let len: u32 = bit_length(sig);
    let free: i32 = len as i32 + k - 24;
    let e: i32 = if free > 0 {
        free
    } else {
        0
    };
    proof {
        if len == 64 {
            lemma2_to64_rest();
        }
        lemma_round_exponent(sig as nat, len as nat, k as int, e as nat);
    }
    if e > 253 {
        proof {
            lemma_round_overflows(sig as nat, len as nat, k as int, e as nat);
        }
        return INFINITE_PATTERN;
    }
    let shift: i32 = e - k;
    let m: u64 = if shift <= 0 {
        let up: u32 = (-shift) as u32;
        proof {
            lemma_round_exact(sig as nat, len as nat, k as int, e as nat);
            lemma2_to64();
            if up < 24 {
                lemma_pow2_strictly_increases(up as nat, 24);
            }
        }
        let factor: u64 = power_of_two(up);
        sig * factor
    } else if shift >= 64 {
        proof {
            lemma2_to64_rest();
            lemma_round_vanishes(sig as nat, len as nat, k as int, e as nat);
        }
        0
    } else {
        let d: u64 = power_of_two(shift as u32);
        proof {
            lemma_round_divides(sig as nat, len as nat, k as int, e as nat);
            lemma_pow2_pos(shift as nat);
            lemma_pow2_unfold(shift as nat);
        }
        let q: u64 = sig / d;
        let r: u64 = sig % d;
        let half: u64 = d / 2;
        if r < half || (r == half && q % 2 == 0) {
            q
        } else {
            q + 1
        }
    };
    proof {
        lemma_pattern_encodes(e as nat, m as nat);
    }
    (e as u32) * 0x80_0000 + m as u32
}

/// Zero rounds to zero.
pub proof fn lemma_nearest_zero(d: nat)
    requires
        d > 0,
    ensures
        nearest(0, d) == 0,
{
    lemma2_to64();
    assert(quantum(0, d) == 0);
    assert(d * pow2(0) == d);
    lemma_fundamental_div_mod_converse(0, d as int, 0, 0);
}

/// The distance of two natural numbers.
pub open spec fn distance(a: nat, b: nat) -> nat {
    if a >= b {
        (a - b) as nat
    } else {
        (b - a) as nat
    }
}

/// No multiple of `w` is closer to `n` than the rounded one.
proof fn lemma_round_half_even_closest(n: nat, w: nat, m: nat)
    requires
        w > 0,
    ensures
        distance(n, w * round_half_even(n, w)) <= distance(n, w * m),
{
    let q = n / w;
    let r = n % w;
    lemma_fundamental_div_mod(n as int, w as int);
    assert(w * (q + 1) == w * q + w) by (nonlinear_arith);
    if m <= q {
        assert(w * m <= w * q) by (nonlinear_arith)
            requires
                m <= q,
        ;
    } else {
        assert(w * m >= w * (q + 1)) by (nonlinear_arith)
            requires
                m >= q + 1,
        ;
    }
}

/// No magnitude with a significand of at most 24 bits is closer to `n / d` than the rounded one.
pub proof fn law_nearest_is_closest(n: nat, d: nat, m: nat, e: nat)
    requires
        d > 0,
        m <= SIGNIFICAND_LIMIT,
    ensures
        distance(n, d * nearest(n, d)) <= distance(n, d * (m * pow2(e))),
{
    let x = quantum(n, d);
    let w = d * pow2(x);
    let c = m * pow2(e);
    lemma_quantum_bounds(n, d);
    lemma_significand_range(n, d);
    let best = round_half_even(n, w);
    assert(d * (best * pow2(x)) == w * best) by (nonlinear_arith)
        requires
            w == d * pow2(x),
    ;
    if e >= x {
        let g = (e - x) as nat;
        lemma_pow2_adds(g, x);
        lemma_round_half_even_closest(n, w, m * pow2(g));
        assert(d * c == w * (m * pow2(g))) by (nonlinear_arith)
            requires
                c == m * pow2(e),
                pow2(e) == pow2(g) * pow2(x),
                w == d * pow2(x),
        ;
    } else {
        let f = (x - 1) as nat;
        lemma_pow2_unfold(x);
        lemma_pow2_monotone(e, f);
        lemma_pow2_pos(e);
        lemma_round_half_even_closest(n, w, HIDDEN_BIT as nat);
        assert(w * HIDDEN_BIT == SIGNIFICAND_LIMIT * (d * pow2(f))) by (nonlinear_arith)
            requires
                w == d * pow2(x),
                pow2(x) == 2 * pow2(f),
                SIGNIFICAND_LIMIT == 2 * HIDDEN_BIT,
        ;
        assert(c <= SIGNIFICAND_LIMIT * pow2(f)) by (nonlinear_arith)
            requires
                c == m * pow2(e),
                m <= SIGNIFICAND_LIMIT,
                pow2(e) <= pow2(f),
        ;
        assert(d * c <= SIGNIFICAND_LIMIT * (d * pow2(f))) by (nonlinear_arith)
            requires
                c <= SIGNIFICAND_LIMIT * pow2(f),
        ;
    }
}

/// Rounding is off by at most half a unit or one part in two to the power 24, and a whole number of
/// units by the latter.
pub proof fn law_nearest_error(n: nat, d: nat)
    requires
        d > 0,
    ensures
        2 * distance(n, d * nearest(n, d)) <= d || SIGNIFICAND_LIMIT * distance(
            n,
            d * nearest(n, d),
        ) <= n,
        d == 1 ==> SIGNIFICAND_LIMIT * distance(n, nearest(n, 1)) <= n,
{
    let e = quantum(n, d);
    let w = d * pow2(e);
    let best = round_half_even(n, w);
    lemma2_to64();
    lemma_quantum_bounds(n, d);
    lemma_significand_range(n, d);
    lemma_fundamental_div_mod(n as int, w as int);
    assert(d * (best * pow2(e)) == w * best) by (nonlinear_arith)
        requires
            w == d * pow2(e),
    ;
    assert(w * (n / w + 1) == w * (n / w) + w) by (nonlinear_arith);
    assert(2 * distance(n, w * best) <= w);
    if e == 0 {
        assert(d * pow2(0) == d);
    } else {
        let f = (e - 1) as nat;
        lemma_pow2_unfold(e);
        assert(w == 2 * (d * pow2(f))) by (nonlinear_arith)
            requires
                w == d * pow2(e),
                pow2(e) == 2 * pow2(f),
        ;
    }
}

/// Doubling a quotient that needs all its binary digits doubles its rounding.
pub proof fn law_nearest_doubles(n: nat, d: nat)
    requires
        d > 0,
        n >= HIDDEN_BIT * d,
    ensures
        nearest(2 * n, d) == 2 * nearest(n, d),
{
    let e = quantum(n, d);
    let w = d * pow2(e);
    lemma2_to64();
    lemma_quantum_bounds(n, d);
    lemma_significand_range(n, d);
    lemma_pow2_unfold(e + 1);
    assert(d * pow2(e + 1) == w * 2) by (nonlinear_arith)
        requires
            w == d * pow2(e),
            pow2(e + 1) == 2 * pow2(e),
    ;
    if e == 0 {
        assert(d * pow2(0) == d);
    } else {
        lemma_pow2_unfold(e);
        let f = (e - 1) as nat;
        assert(w == 2 * (d * pow2(f))) by (nonlinear_arith)
            requires
                w == d * pow2(e),
                pow2(e) == 2 * pow2(f),
        ;
    }
    lemma_quantum_is(2 * n, d, e + 1);
    lemma_round_half_even_scale(n, w, 2);
    let best = round_half_even(n, w);
    assert(best * pow2(e + 1) == 2 * (best * pow2(e))) by (nonlinear_arith)
        requires
            pow2(e + 1) == 2 * pow2(e),
    ;
}

/// A tie goes to the even significand.
pub proof fn law_nearest_breaks_ties_to_even(n: nat, d: nat)
    requires
        d > 0,
        2 * (n % (d * pow2(quantum(n, d)))) == d * pow2(quantum(n, d)),
    ensures
        round_half_even(n, d * pow2(quantum(n, d))) % 2 == 0,
{
    lemma_significand_range(n, d);
    let w = d * pow2(quantum(n, d));
    assert((n / w) % 2 == 0 || (n / w + 1) % 2 == 0);
}

/// A magnitude with a significand of at most 24 bits rounds to itself.
pub proof fn law_nearest_is_exact(m: nat, e: nat, d: nat)
    requires
        d > 0,
        m <= SIGNIFICAND_LIMIT,
    ensures
        nearest((m * pow2(e)) * d, d) == m * pow2(e),
{
    let c = m * pow2(e);
    let r = nearest(c * d, d);
    law_nearest_is_closest(c * d, d, m, e);
    assert(c * d == d * c) by (nonlinear_arith);
    assert(d * r == d * c);
    assert(r == c) by (nonlinear_arith)
        requires
            d * r == d * c,
            d > 0,
    ;
}

proof fn lemma_round_half_even_monotone(n: nat, m: nat, w: nat)
    requires
        w > 0,
        n <= m,
    ensures
        round_half_even(n, w) <= round_half_even(m, w),
{
    lemma_fundamental_div_mod(n as int, w as int);
    lemma_fundamental_div_mod(m as int, w as int);
    lemma_div_is_ordered(n as int, m as int, w as int);
}

/// Rounding keeps the order of exact quotients.
pub proof fn law_nearest_is_monotone(n: nat, d: nat, m: nat, c: nat)
    requires
        d > 0,
        c > 0,
        n * c <= m * d,
    ensures
        nearest(n, d) <= nearest(m, c),
{
    let w = d * c;
    let a = n * c;
    let b = m * d;
    lemma_nearest_scale(n, d, c);
    lemma_nearest_scale(m, c, d);
    assert(c * d == w) by (nonlinear_arith)
        requires
            w == d * c,
    ;
    let x = quantum(a, w);
    let y = quantum(b, w);
    lemma_quantum_bounds(a, w);
    lemma_quantum_bounds(b, w);
    lemma_significand_range(a, w);
    lemma_significand_range(b, w);
    lemma_pow2_pos(x);
    lemma_pow2_pos(y);
    let r = round_half_even(a, w * pow2(x));
    let s = round_half_even(b, w * pow2(y));
    if x == y {
        lemma_round_half_even_monotone(a, b, w * pow2(x));
        assert(r * pow2(x) <= s * pow2(x)) by (nonlinear_arith)
            requires
                r <= s,
        ;
    } else if x < y {
        lemma_pow2_unfold(y);
        lemma_pow2_monotone(x, (y - 1) as nat);
        assert(r * pow2(x) <= s * pow2(y)) by (nonlinear_arith)
            requires
                r <= 2 * HIDDEN_BIT,
                s >= HIDDEN_BIT,
                pow2(y) == 2 * pow2((y - 1) as nat),
                pow2(x) <= pow2((y - 1) as nat),
        ;
    } else {
        lemma_pow2_monotone(y, (x - 1) as nat);
        assert(w * pow2(y) <= w * pow2((x - 1) as nat)) by (nonlinear_arith)
            requires
                pow2(y) <= pow2((x - 1) as nat),
        ;
        assert(false);
    }
}

}
