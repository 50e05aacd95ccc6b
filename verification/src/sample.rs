//! Single-precision samples and parameter values.

use crate::number::Number;
use crate::rounding::{round_magnitude, HIDDEN_BIT, INFINITE_PATTERN, SIGNIFICAND_LIMIT};
use core::cmp::Ordering;
use vstd::arithmetic::div_mod::*;
use vstd::arithmetic::power2::*;
use vstd::prelude::*;

verus! {

/// A single-precision number, held as its bit pattern.
///
/// The arithmetic is that of the binary interchange format with 32 bits: exact results are
/// rounded to nearest, ties to even. Results that are not a number have one fixed pattern.
#[derive(Debug, Clone, Copy)]
pub struct Sample {
    /// The bit pattern: sign, eight bits of exponent, 23 bits of fraction.
    pub bits: u32,
}

impl View for Sample {
    type V = Number;

    open spec fn view(&self) -> Number {
        let negative = self.bits >= 0x8000_0000;
        let p = (self.bits % 0x8000_0000) as nat;
        if p > INFINITE_PATTERN {
            Number::Undefined
        } else if p == INFINITE_PATTERN {
            Number::Infinite { negative }
        } else {
            Number::Finite { negative, magnitude: crate::rounding::pattern_magnitude(p) }
        }
    }
}

/// Finite patterns are ordered as their magnitudes, and these stay below the overflow.
pub proof fn lemma_pattern_monotone(p: nat, q: nat)
    requires
        p < INFINITE_PATTERN,
        q < INFINITE_PATTERN,
    ensures
        p < q ==> crate::rounding::pattern_magnitude(p) < crate::rounding::pattern_magnitude(q),
        crate::rounding::pattern_magnitude(p) < crate::rounding::overflow_magnitude(),
{
    crate::rounding::lemma_pattern_parts(p);
    crate::rounding::lemma_pattern_parts(q);
    let a = crate::rounding::pattern_exponent(p);
    let b = crate::rounding::pattern_exponent(q);
    let s = crate::rounding::pattern_significand(p);
    let t = crate::rounding::pattern_significand(q);
    crate::rounding::lemma_pattern_encodes(a, s);
    if p < q {
        lemma_pow2_pos(a);
        if a == b {
            assert(s * pow2(a) < t * pow2(a)) by (nonlinear_arith)
                requires
                    s < t,
                    pow2(a) > 0,
            ;
        } else {
            lemma_pow2_unfold(a + 1);
            if a + 1 < b {
                lemma_pow2_strictly_increases(a + 1, b);
            }
            assert(s * pow2(a) < t * pow2(b)) by (nonlinear_arith)
                requires
                    s < SIGNIFICAND_LIMIT,
                    2 * t >= SIGNIFICAND_LIMIT,
                    pow2(b) >= 2 * pow2(a),
                    pow2(a) > 0,
            ;
        }
    }
}

impl Sample {
    /// The number with the given bit pattern.
    pub fn from_bits(bits: u32) -> (res: Sample)
        ensures
            res.bits == bits,
    {
        Sample { bits }
    }

    /// The bit pattern of the number.
    pub fn to_bits(self) -> (res: u32)
        ensures
            res == self.bits,
    {
        self.bits
    }

    /// Positive zero.
    pub fn zero() -> (res: Sample)
        ensures
            res.bits == 0,
            res@ == Number::zero(),
    {
        proof {
            assert(0 * pow2(0) == 0);
        }
        Sample { bits: 0 }
    }

    /// One.
    pub fn one() -> (res: Sample)
        ensures
            res.bits == 0x3f80_0000,
            res@ == Number::whole(1),
    {
        proof {
            lemma2_to64();
            lemma_pow2_adds(23, 126);
            assert(1 * pow2(149) == pow2(149));
        }
        Sample { bits: 0x3f80_0000 }
    }

    /// The whole number `n`, rounded where it has more than 24 binary digits.
    pub fn from_whole(n: u32) -> (res: Sample)
        ensures
            res@ == Number::rounded(false, n as nat * pow2(149), 1),
            n <= SIGNIFICAND_LIMIT ==> res@ == Number::whole(n as nat),
    {
        proof {
            if n <= SIGNIFICAND_LIMIT {
                crate::rounding::law_nearest_is_exact(n as nat, 149, 1);
                lemma2_to64();
                lemma_pow2_adds(24, 149);
                lemma_pow2_strictly_increases(173, 277);
                assert(n as nat * pow2(149) <= pow2(24) * pow2(149)) by (nonlinear_arith)
                    requires
                        n as nat <= pow2(24),
                ;
            }
        }
        let p: u32 = round_magnitude(n as u64, 149);
        Self::signed(false, p)
    }

    /// Whether the number is neither infinite nor undefined.
    pub fn is_finite(self) -> (res: bool)
        ensures
            res == self@.is_finite(),
    {
        self.bits % 0x8000_0000 < INFINITE_PATTERN
    }

    /// Whether the value is undefined.
    pub fn is_undefined(self) -> (res: bool)
        ensures
            res == (self@ is Undefined),
    {
        self.bits % 0x8000_0000 > INFINITE_PATTERN
    }

    /// An integer that orders patterns as their values are ordered.
    fn rank(self) -> (res: i64)
        ensures
            res == self.rank_spec(),
    {
        let p: i64 = (self.bits % 0x8000_0000) as i64;
        if self.bits >= 0x8000_0000 {
            -p
        } else {
            p
        }
    }

    spec fn rank_spec(self) -> int {
        let p = (self.bits % 0x8000_0000) as int;
        if self.bits >= 0x8000_0000 {
            -p
        } else {
            p
        }
    }

    /// Comparing ranks compares values.
    proof fn lemma_rank(self, other: Sample)
        requires
            self@ !is Undefined,
            other@ !is Undefined,
        ensures
            self.rank_spec() < other.rank_spec() <==> self@.units() < other@.units(),
            self.rank_spec() == other.rank_spec() <==> self@.units() == other@.units(),
    {
        let p = (self.bits % 0x8000_0000) as nat;
        let q = (other.bits % 0x8000_0000) as nat;
        assert(crate::rounding::pattern_magnitude(0) == 0) by {
            assert(0 * pow2(0) == 0);
        }
        lemma_pow2_pos(277);
        if p < INFINITE_PATTERN {
            lemma_pattern_monotone(p, 0);
            lemma_pattern_monotone(0, p);
        }
        if q < INFINITE_PATTERN {
            lemma_pattern_monotone(q, 0);
            lemma_pattern_monotone(0, q);
        }
        if p < INFINITE_PATTERN && q < INFINITE_PATTERN {
            lemma_pattern_monotone(p, q);
            lemma_pattern_monotone(q, p);
        }
    }
}

impl PartialEq for Sample {
    fn eq(&self, other: &Sample) -> (res: bool) {
        if self.is_undefined() || other.is_undefined() {
            return false;
        }
        proof {
            self.lemma_rank(*other);
        }
        self.rank() == other.rank()
    }
}

impl vstd::std_specs::cmp::PartialEqSpecImpl for Sample {
    open spec fn obeys_eq_spec() -> bool {
        true
    }

    open spec fn eq_spec(&self, other: &Sample) -> bool {
        self@.equals(other@)
    }
}

impl PartialOrd for Sample {
    fn partial_cmp(&self, other: &Sample) -> (res: Option<Ordering>) {
        if self.is_undefined() || other.is_undefined() {
            return None;
        }
        proof {
            self.lemma_rank(*other);
        }
        let left: i64 = self.rank();
        let right: i64 = other.rank();
        if left < right {
            Some(Ordering::Less)
        } else if left == right {
            Some(Ordering::Equal)
        } else {
            Some(Ordering::Greater)
        }
    }
}

impl vstd::std_specs::cmp::PartialOrdSpecImpl for Sample {
    open spec fn obeys_partial_cmp_spec() -> bool {
        true
    }

    open spec fn partial_cmp_spec(&self, other: &Sample) -> Option<Ordering> {
        if self@.less(other@) {
            Some(Ordering::Less)
        } else if other@.less(self@) {
            Some(Ordering::Greater)
        } else if self@.equals(other@) {
            Some(Ordering::Equal)
        } else {
            None
        }
    }
}

/// Equal quotients round alike.
proof fn lemma_nearest_same_ratio(n: nat, d: nat, m: nat, c: nat)
    requires
        d > 0,
        c > 0,
        n * c == m * d,
    ensures
        crate::rounding::nearest(n, d) == crate::rounding::nearest(m, c),
{
    crate::rounding::lemma_nearest_scale(n, d, c);
    crate::rounding::lemma_nearest_scale(m, c, d);
    assert(d * c == c * d) by (nonlinear_arith);
}

impl Sample {
    /// The undefined value that operations return.
    fn undefined() -> (res: Sample)
        ensures
            res@ == Number::Undefined,
    {
        Sample { bits: 0x7fc0_0000 }
    }

    /// The number with the given sign and sign-free pattern.
    fn signed(negative: bool, p: u32) -> (res: Sample)
        requires
            p <= INFINITE_PATTERN,
        ensures
            res.bits == if negative {
                p + 0x8000_0000
            } else {
                p as int
            },
            p == INFINITE_PATTERN ==> res@ == (Number::Infinite { negative }),
            p < INFINITE_PATTERN ==> res@ == (Number::Finite {
                negative,
                magnitude: crate::rounding::pattern_magnitude(p as nat),
            }),
    {
        if negative {
            Sample { bits: p + 0x8000_0000 }
        } else {
            Sample { bits: p }
        }
    }

    fn is_negative(self) -> (res: bool)
        ensures
            res == (self.bits >= 0x8000_0000),
    {
        self.bits >= 0x8000_0000
    }

    /// The sign-free pattern.
    fn pattern(self) -> (res: u32)
        ensures
            res == self.bits % 0x8000_0000,
    {
        self.bits % 0x8000_0000
    }

    /// The power of two and the significand of a finite number.
    fn parts(self) -> (res: (u32, u32))
        requires
            self@ is Finite,
        ensures
            res.0 == crate::rounding::pattern_exponent((self.bits % 0x8000_0000) as nat),
            res.1 == crate::rounding::pattern_significand((self.bits % 0x8000_0000) as nat),
            res.0 <= 253,
            res.1 < SIGNIFICAND_LIMIT,
            res.0 > 0 ==> res.1 >= HIDDEN_BIT,
            self@ == (Number::Finite {
                negative: self.bits >= 0x8000_0000,
                magnitude: res.1 as nat * pow2(res.0 as nat),
            }),
    {
        let p: u32 = self.pattern();
        proof {
            crate::rounding::lemma_pattern_parts(p as nat);
        }
        if p < 0x80_0000 {
            (0, p)
        } else {
            let e: u32 = p / 0x80_0000 - 1;
            (e, p - e * 0x80_0000)
        }
    }

    /// The number with its sign turned.
    pub fn negated(self) -> (res: Sample)
        ensures
            res@ == self@.negated(),
    {
        if self.bits >= 0x8000_0000 {
            Sample { bits: self.bits - 0x8000_0000 }
        } else {
            Sample { bits: self.bits + 0x8000_0000 }
        }
    }

    /// `self + other`, rounded to nearest, ties to even.
    pub fn plus(self, other: Sample) -> (res: Sample)
        ensures
            res@ == self@.plus(other@),
    {
        if self.is_undefined() || other.is_undefined() {
            return Self::undefined();
        }
        if !self.is_finite() {
            if !other.is_finite() && self.is_negative() != other.is_negative() {
                return Self::undefined();
            }
            return self;
        }
        if !other.is_finite() {
            return other;
        }
        let (e, _): (u32, u32) = self.parts();
        let (f, _): (u32, u32) = other.parts();
        if e >= f {
            self.plus_smaller(other)
        } else {
            other.plus_smaller(self)
        }
    }

    /// The sum of two finite numbers, the second of which has no larger exponent.
    fn plus_smaller(self, other: Sample) -> (res: Sample)
        requires
            self@ is Finite,
            other@ is Finite,
            crate::rounding::pattern_exponent((self.bits % 0x8000_0000) as nat)
                >= crate::rounding::pattern_exponent((other.bits % 0x8000_0000) as nat),
        ensures
            res@ == self@.plus(other@),
            res@ == other@.plus(self@),
    {
        let (e, s): (u32, u32) = self.parts();
        let (f, t): (u32, u32) = other.parts();
        let gap: u32 = e - f;
        let same: bool = self.is_negative() == other.is_negative();
        let ghost scale = pow2(f as nat);
        let ghost a = s as nat * pow2(e as nat);
        let ghost b = t as nat * scale;
        proof {
            lemma_pow2_pos(f as nat);
            lemma_pow2_pos(gap as nat);
            lemma_pow2_adds(gap as nat, f as nat);
            assert(a == (s as nat * pow2(gap as nat)) * scale) by (nonlinear_arith)
                requires
                    a == s as nat * pow2(e as nat),
                    pow2(e as nat) == pow2(gap as nat) * scale,
            ;
        }
        if gap >= 26 {
            proof {
                crate::rounding::lemma_nearest_absorbs(
                    s as nat,
                    gap as nat,
                    t as nat,
                    !same,
                    f as nat,
                );
                let large = s as nat * pow2(gap as nat);
                assert((large + t) * scale == a + b) by (nonlinear_arith)
                    requires
                        a == large * scale,
                        b == t as nat * scale,
                ;
                assert((large - t) * scale == a - b) by (nonlinear_arith)
                    requires
                        a == large * scale,
                        b == t as nat * scale,
                ;
                lemma2_to64();
                if gap > 26 {
                    lemma_pow2_strictly_increases(26, gap as nat);
                }
                assert(large > t) by (nonlinear_arith)
                    requires
                        large == s as nat * pow2(gap as nat),
                        s >= 1,
                        pow2(gap as nat) > t,
                ;
                assert(a > b) by (nonlinear_arith)
                    requires
                        a == large * scale,
                        b == t as nat * scale,
                        large > t,
                        scale > 0,
                ;
                lemma_pattern_monotone((self.bits % 0x8000_0000) as nat, 0);
                assert(gap as nat + f as nat == e as nat);
            }
            return self;
        }
        proof {
            lemma2_to64();
            lemma_pow2_strictly_increases(gap as nat, 26);
            assert(s as nat * pow2(gap as nat) < 0x4_0000_0000_0000) by (nonlinear_arith)
                requires
                    s < 0x100_0000,
                    0 < pow2(gap as nat) < 0x400_0000,
            ;
        }
        let large: u64 = s as u64 * crate::rounding::power_of_two(gap);
        let small: u64 = t as u64;
        proof {
            assert(crate::rounding::pattern_magnitude(0) == 0) by {
                assert(0 * pow2(0) == 0);
            }
            assert(large == small ==> a == b);
            assert(large + small > 0 ==> a + b > 0) by (nonlinear_arith)
                requires
                    a == large * scale,
                    b == small * scale,
                    scale > 0,
            ;
        }
        if large == 0 && small == 0 {
            return Self::signed(self.is_negative() && other.is_negative(), 0);
        }
        if same {
            proof {
                assert((large + small) * scale == a + b) by (nonlinear_arith)
                    requires
                        a == large * scale,
                        b == small * scale,
                ;
            }
            let p: u32 = round_magnitude(large + small, f as i32);
            Self::signed(self.is_negative(), p)
        } else if large > small {
            proof {
                assert((large - small) * scale == a - b && a > b) by (nonlinear_arith)
                    requires
                        a == large * scale,
                        b == small * scale,
                        large > small,
                        scale > 0,
                ;
            }
            let p: u32 = round_magnitude(large - small, f as i32);
            Self::signed(self.is_negative(), p)
        } else if large < small {
            proof {
                assert((small - large) * scale == b - a && b > a) by (nonlinear_arith)
                    requires
                        a == large * scale,
                        b == small * scale,
                        small > large,
                        scale > 0,
                ;
            }
            let p: u32 = round_magnitude(small - large, f as i32);
            Self::signed(other.is_negative(), p)
        } else {
            Self::signed(false, 0)
        }
    }

    /// `self - other`, rounded to nearest, ties to even.
    pub fn minus(self, other: Sample) -> (res: Sample)
        ensures
            res@ == self@.minus(other@),
    {
        self.plus(other.negated())
    }

    /// `self * other`, rounded to nearest, ties to even.
    pub fn times(self, other: Sample) -> (res: Sample)
        ensures
            res@ == self@.times(other@),
    {
        if self.is_undefined() || other.is_undefined() {
            return Self::undefined();
        }
        let negative: bool = self.is_negative() != other.is_negative();
        if !self.is_finite() || !other.is_finite() {
            proof {
                self.lemma_zero_pattern();
                other.lemma_zero_pattern();
            }
            if self.pattern() == 0 || other.pattern() == 0 {
                return Self::undefined();
            }
            return Self::signed(negative, INFINITE_PATTERN);
        }
        let (e, s): (u32, u32) = self.parts();
        let (f, t): (u32, u32) = other.parts();
        proof {
            assert(s * t < 0x1_0000_0000_0000) by (nonlinear_arith)
                requires
                    s < 0x100_0000,
                    t < 0x100_0000,
            ;
            lemma_product_scale(e as nat, s as nat, f as nat, t as nat);
        }
        let p: u32 = round_magnitude(s as u64 * t as u64, e as i32 + f as i32 - 149);
        Self::signed(negative, p)
    }

    /// A number is zero exactly when its sign-free pattern is.
    proof fn lemma_zero_pattern(self)
        ensures
            self@.is_zero() <==> self.bits % 0x8000_0000 == 0,
    {
        let p = (self.bits % 0x8000_0000) as nat;
        assert(crate::rounding::pattern_magnitude(0) == 0) by {
            assert(0 * pow2(0) == 0);
        }
        if p < INFINITE_PATTERN {
            lemma_pattern_monotone(0, p);
        }
    }

    /// Every bit pattern stands for a representable value.
    pub proof fn law_is_representable(self)
        ensures
            self@.representable(),
    {
        let p = (self.bits % 0x8000_0000) as nat;
        if p < INFINITE_PATTERN {
            crate::rounding::lemma_pattern_parts(p);
            lemma_pattern_monotone(p, 0);
        }
    }

    /// Apart from undefined values, a value has one bit pattern.
    pub proof fn law_value_determines_pattern(self, other: Sample)
        requires
            self@ == other@,
            self@ !is Undefined,
        ensures
            self == other,
    {
        let p = (self.bits % 0x8000_0000) as nat;
        let q = (other.bits % 0x8000_0000) as nat;
        if p < INFINITE_PATTERN && q < INFINITE_PATTERN {
            lemma_pattern_monotone(p, q);
            lemma_pattern_monotone(q, p);
        }
    }

    /// A number between two finite ones is finite.
    pub proof fn lemma_bounded_is_finite(self, low: Sample, high: Sample)
        requires
            low@.is_finite(),
            high@.is_finite(),
        ensures
            self@.within(low@, high@) ==> self@.is_finite(),
    {
        lemma_pattern_monotone((low.bits % 0x8000_0000) as nat, 0);
        lemma_pattern_monotone((high.bits % 0x8000_0000) as nat, 0);
    }

    /// Half of a finite number is finite, at most half of the largest value and, doubled, at most
    /// one unit off.
    pub proof fn lemma_halved(self)
        requires
            self@.is_finite(),
        ensures
            self@.halved().is_finite(),
            self@.halved().representable(),
            self@.halved().is_negative() == self@.is_negative(),
            self@.halved()->magnitude <= (SIGNIFICAND_LIMIT - 1) * pow2(252),
            -1 <= self@.units() - 2 * self@.halved().units() <= 1,
    {
        let n = self@->magnitude;
        let p = (self.bits % 0x8000_0000) as nat;
        let e = crate::rounding::pattern_exponent(p);
        let s = crate::rounding::pattern_significand(p);
        let r = crate::rounding::nearest(n, 2);
        crate::rounding::lemma_pattern_parts(p);
        lemma2_to64();
        lemma_pow2_pos(149);
        lemma_pow2_pos(252);
        lemma_pow2_adds(25, 252);
        crate::rounding::lemma_nearest_scale(n, 2, pow2(149));
        if e > 0 {
            let f = (e - 1) as nat;
            lemma_pow2_unfold(e);
            crate::rounding::law_nearest_is_exact(s, f, 2);
            assert(n == (s * pow2(f)) * 2) by (nonlinear_arith)
                requires
                    n == s * pow2(e),
                    pow2(e) == 2 * pow2(f),
            ;
            if f < 252 {
                lemma_pow2_strictly_increases(f, 252);
            }
            assert(s * pow2(f) <= (SIGNIFICAND_LIMIT - 1) * pow2(252)) by (nonlinear_arith)
                requires
                    s <= SIGNIFICAND_LIMIT - 1,
                    pow2(f) <= pow2(252),
            ;
        } else {
            assert(n == s) by {
                assert(s * pow2(0) == s) by (nonlinear_arith)
                    requires
                        pow2(0) == 1,
                ;
            }
            assert(crate::rounding::quantum(n, 2) == 0);
            let best = crate::rounding::round_half_even(n, 2);
            assert(best * pow2(0) == best) by (nonlinear_arith)
                requires
                    pow2(0) == 1,
            ;
            assert(2 * pow2(0) == 2);
            assert(r == crate::rounding::round_half_even(n, 2));
            lemma_pow2_strictly_increases(1, 252);
            assert(r <= (SIGNIFICAND_LIMIT - 1) * pow2(252)) by (nonlinear_arith)
                requires
                    r <= SIGNIFICAND_LIMIT - 1,
                    pow2(252) >= 1,
            ;
        }
        assert((SIGNIFICAND_LIMIT - 1) * pow2(252) < pow2(277)) by (nonlinear_arith)
            requires
                pow2(277) == 2 * SIGNIFICAND_LIMIT * pow2(252),
                pow2(252) > 0,
        ;
        crate::number::law_rounded_is_representable(
            self@.is_negative(),
            n * pow2(149),
            2 * pow2(149),
        );
    }

    /// `self / other`, rounded to nearest, ties to even.
    pub fn over(self, other: Sample) -> (res: Sample)
        ensures
            res@ == self@.over(other@),
    {
        if self.is_undefined() || other.is_undefined() {
            return Self::undefined();
        }
        let negative: bool = self.is_negative() != other.is_negative();
        proof {
            self.lemma_zero_pattern();
            other.lemma_zero_pattern();
        }
        if !self.is_finite() {
            if !other.is_finite() {
                return Self::undefined();
            }
            return Self::signed(negative, INFINITE_PATTERN);
        }
        if !other.is_finite() {
            proof {
                assert(crate::rounding::pattern_magnitude(0) == 0) by {
                    assert(0 * pow2(0) == 0);
                }
            }
            return Self::signed(negative, 0);
        }
        if other.pattern() == 0 {
            if self.pattern() == 0 {
                return Self::undefined();
            }
            return Self::signed(negative, INFINITE_PATTERN);
        }
        let (e, s): (u32, u32) = self.parts();
        let (f, t): (u32, u32) = other.parts();
        proof {
            assert(t > 0) by {
                assert(0 * pow2(f as nat) == 0);
            }
        }
        if s == 0 {
            proof {
                assert(0 * pow2(e as nat) == 0);
                crate::rounding::lemma_nearest_zero(other@->magnitude);
                assert(0 * pow2(149) == 0);
                assert(crate::rounding::pattern_magnitude(0) == 0) by {
                    assert(0 * pow2(0) == 0);
                }
                lemma_pow2_pos(277);
            }
            return Self::signed(negative, 0);
        }
        let mut wide: u64 = s as u64;
        let mut shift: i32 = 0;
        proof {
            lemma2_to64();
            assert(s as nat * pow2(0) == s) by (nonlinear_arith)
                requires
                    pow2(0) == 1,
            ;
        }
        while wide < HIDDEN_BIT
            invariant
                0 < wide < SIGNIFICAND_LIMIT,
                0 <= shift <= 23,
                wide == s as nat * pow2(shift as nat),
                shift < 23 || wide >= HIDDEN_BIT,
                wide >= pow2(shift as nat),
            decreases 23 - shift,
        {
            proof {
                lemma2_to64();
                lemma_pow2_unfold((shift + 1) as nat);
                assert(s as nat * pow2((shift + 1) as nat) == 2 * wide) by (nonlinear_arith)
                    requires
                        pow2((shift + 1) as nat) == 2 * pow2(shift as nat),
                        wide == s as nat * pow2(shift as nat),
                ;
            }
            wide = 2 * wide;
            shift = shift + 1;
        }
        let n: u64 = wide * 0x40_0000_0000;
        let d: u64 = t as u64;
        let q: u64 = n / d;
        let sticky: u64 = if n % d > 0 {
            1
        } else {
            0
        };
        let sig: u64 = 2 * q + sticky;
        let k: i32 = e as i32 - shift - f as i32 + 111;
        proof {
            lemma2_to64();
            lemma_fundamental_div_mod(n as int, d as int);
            assert(q >= 0x400_0000) by (nonlinear_arith)
                requires
                    n >= 0x80_0000 * 0x40_0000_0000,
                    n == d * q + n % d,
                    n % d < d,
                    0 < d < 0x100_0000,
            ;
            assert(q <= n) by (nonlinear_arith)
                requires
                    n == d * q + n % d,
                    n % d >= 0,
                    d >= 1,
            ;
            crate::rounding::lemma_nearest_scaled_truncated(n as nat, d as nat, k as int);
            lemma_quotient_scale(
                e as nat,
                s as nat,
                f as nat,
                t as nat,
                shift as nat,
                n as nat,
                k as int,
            );
        }
        let p: u32 = round_magnitude(sig, k - 1);
        Self::signed(negative, p)
    }

    /// The number moved into `low..=high`; an undefined value stays undefined.
    pub fn clamp(self, low: Sample, high: Sample) -> (res: Sample)
        requires
            low@.at_most(high@),
        ensures
            res@ == self@.clamped(low@, high@),
    {
        if self < low {
            low
        } else if self > high {
            high
        } else {
            self
        }
    }

    /// The larger of two numbers, and the other one where one is undefined.
    pub fn max(self, other: Sample) -> (res: Sample)
        ensures
            res@ == self@.larger(other@),
    {
        if self.is_undefined() || self < other {
            other
        } else {
            self
        }
    }
}

/// The product of two numbers, in units, as a product of significands and a power of two.
proof fn lemma_product_scale(e: nat, s: nat, f: nat, t: nat)
    ensures
        crate::rounding::nearest((s * pow2(e)) * (t * pow2(f)), pow2(149))
            == crate::rounding::nearest_scaled(s * t, 1, e + f - 149),
{
    let k = e + f - 149;
    let n = (s * pow2(e)) * (t * pow2(f));
    lemma_pow2_adds(e, f);
    assert(n == (s * t) * pow2(e + f)) by (nonlinear_arith)
        requires
            n == (s * pow2(e)) * (t * pow2(f)),
            pow2(e + f) == pow2(e) * pow2(f),
    ;
    lemma_pow2_pos(149);
    let m = crate::rounding::scaled_numerator(s * t, k);
    let c = crate::rounding::scaled_denominator(1, k);
    if k >= 0 {
        lemma_pow2_adds(k as nat, 149);
        assert(n * c == m * pow2(149)) by (nonlinear_arith)
            requires
                n == (s * t) * pow2(e + f),
                m == (s * t) * pow2(k as nat),
                c == 1,
                pow2(e + f) == pow2(k as nat) * pow2(149),
        ;
    } else {
        let j = (-k) as nat;
        lemma_pow2_pos(j);
        lemma_pow2_adds(e + f, j);
        assert(n * c == m * pow2(149)) by (nonlinear_arith)
            requires
                n == (s * t) * pow2(e + f),
                m == s * t,
                c == pow2(j),
                pow2(149) == pow2(e + f) * pow2(j),
        ;
    }
    lemma_nearest_same_ratio(n, pow2(149), m, c);
}

/// The quotient of two numbers, in units, as a quotient of significands and a power of two.
proof fn lemma_quotient_scale(e: nat, s: nat, f: nat, t: nat, shift: nat, n: nat, k: int)
    requires
        t > 0,
        n == s * pow2(shift) * 0x40_0000_0000,
        k == e - shift - f + 111,
    ensures
        crate::rounding::nearest((s * pow2(e)) * pow2(149), t * pow2(f))
            == crate::rounding::nearest_scaled(n, t, k),
{
    lemma2_to64_rest();
    lemma_pow2_pos(f);
    let a = (s * pow2(e)) * pow2(149);
    let b = t * pow2(f);
    assert(b > 0) by (nonlinear_arith)
        requires
            t > 0,
            pow2(f) > 0,
            b == t * pow2(f),
    ;
    let m = crate::rounding::scaled_numerator(n, k);
    let c = crate::rounding::scaled_denominator(t, k);
    lemma_pow2_adds(shift, 38);
    assert(n == s * pow2(shift + 38)) by (nonlinear_arith)
        requires
            n == s * pow2(shift) * 0x40_0000_0000,
            pow2(shift + 38) == pow2(shift) * 0x40_0000_0000,
    ;
    lemma_pow2_adds(e, 149);
    assert(a == s * pow2(e + 149)) by (nonlinear_arith)
        requires
            a == (s * pow2(e)) * pow2(149),
            pow2(e + 149) == pow2(e) * pow2(149),
    ;
    if k >= 0 {
        lemma_pow2_adds(shift + 38, k as nat);
        lemma_pow2_adds(shift + 38 + k as nat, f);
        assert(shift + 38 + k as nat + f == e + 149);
        assert(a * c == m * b) by (nonlinear_arith)
            requires
                a == s * pow2(e + 149),
                c == t,
                m == n * pow2(k as nat),
                n == s * pow2(shift + 38),
                b == t * pow2(f),
                pow2(shift + 38 + k as nat) == pow2(shift + 38) * pow2(k as nat),
                pow2(e + 149) == pow2(shift + 38 + k as nat) * pow2(f),
        ;
    } else {
        let j = (-k) as nat;
        lemma_pow2_pos(j);
        assert(c > 0) by (nonlinear_arith)
            requires
                t > 0,
                pow2(j) > 0,
                c == t * pow2(j),
        ;
        lemma_pow2_adds(e + 149, j);
        lemma_pow2_adds(shift + 38, f);
        assert(e + 149 + j == shift + 38 + f);
        assert(a * c == m * b) by (nonlinear_arith)
            requires
                a == s * pow2(e + 149),
                c == t * pow2(j),
                m == n,
                n == s * pow2(shift + 38),
                b == t * pow2(f),
                pow2(e + 149) * pow2(j) == pow2(shift + 38) * pow2(f),
        ;
    }
    lemma_nearest_same_ratio(a, b, m, c);
}

/// What a bit pattern stands for: the top bit is the sign, the next eight bits the exponent and the
/// rest the fraction, with a hidden bit where the exponent is not zero.
pub proof fn law_pattern_is_sign_exponent_and_fraction(
    sample: Sample,
    sign: u32,
    exponent: u32,
    fraction: u32,
)
    requires
        sign <= 1,
        exponent <= 255,
        fraction < 0x80_0000,
        sample.bits == sign * 0x8000_0000 + exponent * 0x80_0000 + fraction,
    ensures
        exponent == 255 && fraction > 0 ==> sample@ is Undefined,
        exponent == 255 && fraction == 0 ==> sample@ == (Number::Infinite { negative: sign == 1 }),
        exponent == 0 ==> sample@ == (Number::Finite {
            negative: sign == 1,
            magnitude: fraction as nat,
        }),
        0 < exponent < 255 ==> sample@ == (Number::Finite {
            negative: sign == 1,
            magnitude: (0x80_0000 + fraction as nat) * pow2((exponent - 1) as nat),
        }),
{
    let p = (sample.bits % 0x8000_0000) as nat;
    assert(p == exponent * 0x80_0000 + fraction);
    lemma2_to64();
    if exponent == 0 {
        assert(fraction as nat * pow2(0) == fraction) by (nonlinear_arith)
            requires
                pow2(0) == 1,
        ;
    } else if exponent < 255 {
        assert(p / 0x80_0000 == exponent);
        assert(crate::rounding::pattern_exponent(p) == exponent - 1);
    }
}

}
