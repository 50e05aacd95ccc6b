//! The values of single-precision numbers and their arithmetic.

use crate::rounding::SIGNIFICAND_LIMIT;
use vstd::arithmetic::mul::*;
use vstd::arithmetic::power2::*;
use vstd::prelude::*;

verus! {

/// The value that a single-precision bit pattern stands for.
///
/// A finite magnitude counts units of the least positive value, two to the power -149, so that
/// every finite value is an integer and comparisons and sums are those of the integers.
pub enum Number {
    /// Not a number.
    Undefined,
    /// Beyond all finite values.
    Infinite { negative: bool },
    /// A finite value; zero has a sign, too.
    Finite { negative: bool, magnitude: nat },
}

impl Number {
    /// The whole number `n`.
    pub open spec fn whole(n: nat) -> Number {
        Number::Finite { negative: false, magnitude: n * pow2(149) }
    }

    /// Positive zero.
    pub open spec fn zero() -> Number {
        Number::Finite { negative: false, magnitude: 0 }
    }

    /// The value nearest to `n / d` units, infinite where that is out of range.
    pub open spec fn rounded(negative: bool, n: nat, d: nat) -> Number {
        let magnitude = crate::rounding::nearest(n, d);
        if magnitude < crate::rounding::overflow_magnitude() {
            Number::Finite { negative, magnitude }
        } else {
            Number::Infinite { negative }
        }
    }

    /// Whether the value is finite.
    pub open spec fn is_finite(self) -> bool {
        self is Finite
    }

    /// Whether the value is zero of either sign.
    pub open spec fn is_zero(self) -> bool {
        self matches Number::Finite { magnitude, .. } && magnitude == 0
    }

    /// The sign of a value; that of an undefined value is taken as positive.
    pub open spec fn is_negative(self) -> bool {
        match self {
            Number::Undefined => false,
            Number::Infinite { negative } => negative,
            Number::Finite { negative, .. } => negative,
        }
    }

    /// The value as a signed number of units, with the infinities beyond all finite values.
    pub open spec fn units(self) -> int {
        let magnitude = match self {
            Number::Undefined => 0,
            Number::Infinite { .. } => crate::rounding::overflow_magnitude(),
            Number::Finite { magnitude, .. } => magnitude,
        };
        if self.is_negative() {
            -(magnitude as int)
        } else {
            magnitude as int
        }
    }

    /// `self < other`; an undefined value is not ordered.
    pub open spec fn less(self, other: Number) -> bool {
        self !is Undefined && other !is Undefined && self.units() < other.units()
    }

    /// `self <= other`; an undefined value is not ordered.
    pub open spec fn at_most(self, other: Number) -> bool {
        self !is Undefined && other !is Undefined && self.units() <= other.units()
    }

    /// `self == other`: the zeros are equal, an undefined value equals nothing.
    pub open spec fn equals(self, other: Number) -> bool {
        self !is Undefined && other !is Undefined && self.units() == other.units()
    }

    /// `low <= self <= high`.
    pub open spec fn within(self, low: Number, high: Number) -> bool {
        low.at_most(self) && self.at_most(high)
    }

    /// The value with its sign turned.
    pub open spec fn negated(self) -> Number {
        match self {
            Number::Undefined => Number::Undefined,
            Number::Infinite { negative } => Number::Infinite { negative: !negative },
            Number::Finite { negative, magnitude } => Number::Finite {
                negative: !negative,
                magnitude,
            },
        }
    }

    /// `self + other`, rounded.
    pub open spec fn plus(self, other: Number) -> Number {
        match (self, other) {
            (Number::Undefined, _) => Number::Undefined,
            (_, Number::Undefined) => Number::Undefined,
            (Number::Infinite { negative: a }, Number::Infinite { negative: b }) => if a == b {
                self
            } else {
                Number::Undefined
            },
            (Number::Infinite { .. }, _) => self,
            (_, Number::Infinite { .. }) => other,
            (Number::Finite { negative: a, .. }, Number::Finite { negative: b, .. }) => {
                let sum = self.units() + other.units();
                if sum == 0 {
                    Number::Finite { negative: a && b, magnitude: 0 }
                } else if sum < 0 {
                    Number::rounded(true, (-sum) as nat, 1)
                } else {
                    Number::rounded(false, sum as nat, 1)
                }
            },
        }
    }

    /// `self - other`, rounded.
    pub open spec fn minus(self, other: Number) -> Number {
        self.plus(other.negated())
    }

    /// `self * other`, rounded.
    pub open spec fn times(self, other: Number) -> Number {
        let negative = self.is_negative() != other.is_negative();
        match (self, other) {
            (Number::Undefined, _) => Number::Undefined,
            (_, Number::Undefined) => Number::Undefined,
            (Number::Infinite { .. }, _) => if other.is_zero() {
                Number::Undefined
            } else {
                Number::Infinite { negative }
            },
            (_, Number::Infinite { .. }) => if self.is_zero() {
                Number::Undefined
            } else {
                Number::Infinite { negative }
            },
            (Number::Finite { magnitude: a, .. }, Number::Finite { magnitude: b, .. }) =>
                Number::rounded(negative, a * b, pow2(149)),
        }
    }

    /// `self / other`, rounded.
    pub open spec fn over(self, other: Number) -> Number {
        let negative = self.is_negative() != other.is_negative();
        match (self, other) {
            (Number::Undefined, _) => Number::Undefined,
            (_, Number::Undefined) => Number::Undefined,
            (Number::Infinite { .. }, Number::Infinite { .. }) => Number::Undefined,
            (Number::Infinite { .. }, _) => Number::Infinite { negative },
            (_, Number::Infinite { .. }) => Number::Finite { negative, magnitude: 0 },
            (Number::Finite { magnitude: a, .. }, Number::Finite { magnitude: b, .. }) => if b
                == 0 {
                if a == 0 {
                    Number::Undefined
                } else {
                    Number::Infinite { negative }
                }
            } else {
                Number::rounded(negative, a * pow2(149), b)
            },
        }
    }

    /// `self / 2`, rounded.
    pub open spec fn halved(self) -> Number {
        self.over(Number::whole(2))
    }

    /// The value moved into `low..=high`; an undefined value stays undefined.
    pub open spec fn clamped(self, low: Number, high: Number) -> Number {
        if self.less(low) {
            low
        } else if high.less(self) {
            high
        } else {
            self
        }
    }

    /// The larger of two values, and the other one where one is undefined.
    pub open spec fn larger(self, other: Number) -> Number {
        if self is Undefined || self.less(other) {
            other
        } else {
            self
        }
    }
}

impl Number {
    /// Whether some bit pattern stands for the value.
    pub open spec fn representable(self) -> bool {
        match self {
            Number::Finite { magnitude, .. } => {
                &&& magnitude < crate::rounding::overflow_magnitude()
                &&& exists|m: nat, e: nat|
                    m < SIGNIFICAND_LIMIT && magnitude == #[trigger] (m * pow2(e))
            },
            _ => true,
        }
    }
}

/// The magnitude `n / d` rounded and cut off where it overflows.
spec fn capped(n: nat, d: nat) -> nat {
    let m = crate::rounding::nearest(n, d);
    if m < crate::rounding::overflow_magnitude() {
        m
    } else {
        crate::rounding::overflow_magnitude()
    }
}

/// A whole number of units rounded, with its sign.
spec fn rounded_units(sum: int) -> int {
    if sum < 0 {
        -(capped((-sum) as nat, 1) as int)
    } else {
        capped(sum as nat, 1) as int
    }
}

proof fn lemma_rounded_units_monotone(a: int, b: int)
    requires
        a <= b,
    ensures
        rounded_units(a) <= rounded_units(b),
{
    if a >= 0 {
        crate::rounding::law_nearest_is_monotone(a as nat, 1, b as nat, 1);
    } else if b < 0 {
        crate::rounding::law_nearest_is_monotone((-b) as nat, 1, (-a) as nat, 1);
    }
}

/// The sum of two finite values, in units.
proof fn lemma_plus_units(a: Number, b: Number)
    requires
        a.is_finite(),
        b.is_finite(),
    ensures
        a.plus(b) !is Undefined,
        a.plus(b).units() == rounded_units(a.units() + b.units()),
{
    crate::rounding::lemma_nearest_zero(1);
    lemma_pow2_pos(277);
}

proof fn lemma_representable_rounds_to_itself(a: Number)
    requires
        a.is_finite(),
        a.representable(),
    ensures
        rounded_units(a.units()) == a.units(),
{
    let n = a->magnitude;
    let (m, e) = choose|m: nat, e: nat| m < SIGNIFICAND_LIMIT && n == #[trigger] (m * pow2(e));
    crate::rounding::law_nearest_is_exact(m, e, 1);
    crate::rounding::lemma_nearest_zero(1);
}

/// Sums do not depend on the order of the two numbers.
pub proof fn law_plus_commutes(a: Number, b: Number)
    ensures
        a.plus(b) == b.plus(a),
{
}

/// Products do not depend on the order of the two numbers.
pub proof fn law_times_commutes(a: Number, b: Number)
    ensures
        a.times(b) == b.times(a),
{
    if a.is_finite() && b.is_finite() {
        lemma_mul_is_commutative(a->magnitude as int, b->magnitude as int);
    }
}

/// Adding a zero changes no value and, but for the sign of zero, nothing at all.
pub proof fn law_plus_zero(a: Number, zero: Number)
    requires
        a !is Undefined,
        a.representable(),
        zero.is_zero(),
    ensures
        a.plus(zero).equals(a),
        !a.is_zero() ==> a.plus(zero) == a,
{
    if a.is_finite() {
        lemma_plus_units(a, zero);
        lemma_representable_rounds_to_itself(a);
    }
}

/// A sum that has a bit pattern is not rounded.
pub proof fn law_exact_sum(a: Number, b: Number, sum: Number)
    requires
        a.is_finite(),
        b.is_finite(),
        sum.is_finite(),
        sum.representable(),
        sum.units() == a.units() + b.units(),
    ensures
        a.plus(b).equals(sum),
{
    lemma_plus_units(a, b);
    lemma_representable_rounds_to_itself(sum);
}

/// A finite value minus itself is positive zero.
pub proof fn law_minus_self(a: Number)
    requires
        a.is_finite(),
    ensures
        a.minus(a) == Number::zero(),
{
}

/// Multiplying by one changes nothing.
pub proof fn law_times_one(a: Number)
    requires
        a.representable(),
    ensures
        a.times(Number::whole(1)) == a,
{
    lemma_pow2_pos(149);
    assert(1 * pow2(149) == pow2(149));
    if a.is_finite() {
        let n = a->magnitude;
        let (m, e) = choose|m: nat, e: nat|
            m < SIGNIFICAND_LIMIT && n == #[trigger] (m * pow2(e));
        crate::rounding::law_nearest_is_exact(m, e, pow2(149));
    }
}

/// Multiplying a finite value by zero gives zero, with the sign of the product.
pub proof fn law_times_zero(a: Number)
    requires
        a.is_finite(),
    ensures
        a.times(Number::zero()) == (Number::Finite { negative: a.is_negative(), magnitude: 0 }),
{
    lemma_pow2_pos(149);
    lemma_pow2_pos(277);
    crate::rounding::lemma_nearest_zero(pow2(149));
    assert(a->magnitude * 0 == 0);
}

/// A finite value other than zero divided by itself is one.
pub proof fn law_over_self(a: Number)
    requires
        a.is_finite(),
        !a.is_zero(),
    ensures
        a.over(a) == Number::whole(1),
{
    let n = a->magnitude;
    lemma_mul_is_commutative(n as int, pow2(149) as int);
    crate::rounding::law_nearest_is_exact(1, 149, n);
    assert(1 * pow2(149) == pow2(149));
    lemma_pow2_strictly_increases(149, 277);
}

/// A larger first number does not make a sum smaller.
pub proof fn law_plus_is_monotone(a: Number, b: Number, c: Number)
    requires
        a.at_most(b),
        a.representable(),
        b.representable(),
        c.is_finite(),
    ensures
        a.plus(c).at_most(b.plus(c)),
{
    lemma_pow2_pos(277);
    if a.is_finite() {
        lemma_plus_units(a, c);
    }
    if b.is_finite() {
        lemma_plus_units(b, c);
    }
    if a.is_finite() && b.is_finite() {
        lemma_rounded_units_monotone(a.units() + c.units(), b.units() + c.units());
    }
}

/// The sum of two finite numbers has a bit pattern.
pub proof fn law_sum_is_representable(a: Number, b: Number)
    requires
        a.is_finite(),
        b.is_finite(),
    ensures
        a.plus(b).representable(),
{
    law_minus_is_positive(a, b.negated());
    assert(b.negated().negated() == b);
}

/// Doubling keeps the order.
pub proof fn law_doubling_is_monotone(a: Number, b: Number)
    requires
        a.at_most(b),
        a.representable(),
        b.representable(),
    ensures
        a.plus(a).at_most(b.plus(b)),
{
    lemma_pow2_pos(277);
    if a.is_finite() {
        lemma_plus_units(a, a);
    }
    if b.is_finite() {
        lemma_plus_units(b, b);
    }
    if a.is_finite() && b.is_finite() {
        lemma_rounded_units_monotone(2 * a.units(), 2 * b.units());
    }
}

/// Adding a number that is not negative does not make a finite number smaller.
pub proof fn law_plus_does_not_decrease(a: Number, b: Number)
    requires
        a.is_finite(),
        a.representable(),
        Number::zero().at_most(b),
    ensures
        a.at_most(a.plus(b)),
{
    lemma_pow2_pos(277);
    if b.is_finite() {
        lemma_plus_units(a, b);
        lemma_representable_rounds_to_itself(a);
        lemma_rounded_units_monotone(a.units(), a.units() + b.units());
    }
}

/// Adding a number that is not positive does not make a finite number larger.
pub proof fn law_plus_does_not_increase(a: Number, b: Number)
    requires
        a.is_finite(),
        a.representable(),
        b.at_most(Number::zero()),
    ensures
        a.plus(b).at_most(a),
{
    lemma_pow2_pos(277);
    if b.is_finite() {
        lemma_plus_units(a, b);
        lemma_representable_rounds_to_itself(a);
        lemma_rounded_units_monotone(a.units() + b.units(), a.units());
    }
}

/// A sum that is no larger than the largest finite value is finite.
pub proof fn law_sum_in_range_is_finite(a: Number, b: Number)
    requires
        a.is_finite(),
        b.is_finite(),
        -((SIGNIFICAND_LIMIT - 1) * pow2(253)) <= a.units() + b.units() <= (SIGNIFICAND_LIMIT - 1)
            * pow2(253),
    ensures
        a.plus(b).is_finite(),
{
    let sum = a.units() + b.units();
    let most = ((SIGNIFICAND_LIMIT - 1) * pow2(253)) as nat;
    lemma2_to64();
    lemma_pow2_pos(253);
    lemma_pow2_adds(24, 253);
    assert(most < pow2(277)) by (nonlinear_arith)
        requires
            most == (SIGNIFICAND_LIMIT - 1) * pow2(253),
            pow2(277) == SIGNIFICAND_LIMIT * pow2(253),
            pow2(253) > 0,
    ;
    crate::rounding::law_nearest_is_exact((SIGNIFICAND_LIMIT - 1) as nat, 253, 1);
    if sum < 0 {
        crate::rounding::law_nearest_is_monotone((-sum) as nat, 1, most, 1);
    } else {
        crate::rounding::law_nearest_is_monotone(sum as nat, 1, most, 1);
    }
}

/// The difference of two finite numbers is positive exactly when the first is larger.
pub proof fn law_minus_is_positive(a: Number, b: Number)
    requires
        a.is_finite(),
        b.is_finite(),
    ensures
        a.minus(b) !is Undefined,
        Number::zero().less(a.minus(b)) <==> b.less(a),
        a.minus(b).representable(),
{
    lemma_plus_units(a, b.negated());
    let sum = a.units() - b.units();
    lemma_pow2_pos(277);
    crate::rounding::law_nearest_is_exact(1, 0, 1);
    vstd::arithmetic::power2::lemma2_to64();
    crate::rounding::lemma_nearest_zero(1);
    if sum > 0 {
        lemma_rounded_units_monotone(1, sum);
        law_rounded_is_representable(false, sum as nat, 1);
    } else if sum < 0 {
        lemma_rounded_units_monotone(sum, 0);
        law_rounded_is_representable(true, (-sum) as nat, 1);
    } else {
        assert(0 * pow2(0) == 0);
    }
}

/// The units of a product or quotient that was rounded with a sign.
proof fn lemma_rounded_is(negative: bool, n: nat, d: nat)
    ensures
        Number::rounded(negative, n, d) !is Undefined,
        Number::rounded(negative, n, d).units() == if negative {
            -(capped(n, d) as int)
        } else {
            capped(n, d) as int
        },
{
}

proof fn lemma_capped_monotone(n: nat, d: nat, m: nat, c: nat)
    requires
        d > 0,
        c > 0,
        n * c <= m * d,
    ensures
        capped(n, d) <= capped(m, c),
{
    crate::rounding::law_nearest_is_monotone(n, d, m, c);
}

/// Multiplying by a finite number that is not negative keeps the order of finite values.
pub proof fn law_times_is_monotone(a: Number, b: Number, c: Number)
    requires
        a.is_finite(),
        b.is_finite(),
        a.at_most(b),
        c.is_finite(),
        Number::zero().at_most(c),
    ensures
        a.times(c).at_most(b.times(c)),
{
    let (x, y, z) = (a->magnitude, b->magnitude, c->magnitude);
    let p = pow2(149);
    lemma_pow2_pos(149);
    lemma_pow2_pos(277);
    crate::rounding::lemma_nearest_zero(p);
    let s = a.is_negative() != c.is_negative();
    let t = b.is_negative() != c.is_negative();
    lemma_rounded_is(s, x * z, p);
    lemma_rounded_is(t, y * z, p);
    if z == 0 {
        assert(x * z == 0 && y * z == 0);
    } else if x <= y {
        assert(x * z * p <= y * z * p) by (nonlinear_arith)
            requires
                x <= y,
        ;
        lemma_capped_monotone(x * z, p, y * z, p);
        if x == 0 {
            assert(x * z == 0) by (nonlinear_arith)
                requires
                    x == 0,
            ;
        }
    }
    if z != 0 && y <= x {
        assert(y * z * p <= x * z * p) by (nonlinear_arith)
            requires
                y <= x,
        ;
        lemma_capped_monotone(y * z, p, x * z, p);
        if y == 0 {
            assert(y * z == 0) by (nonlinear_arith)
                requires
                    y == 0,
            ;
        }
    }
}

/// The product of two finite numbers that are not negative is not negative.
pub proof fn law_times_is_not_negative(a: Number, b: Number)
    requires
        a.is_finite(),
        b.is_finite(),
        Number::zero().at_most(a),
        Number::zero().at_most(b),
    ensures
        Number::zero().at_most(a.times(b)),
{
    law_times_is_monotone(Number::zero(), a, b);
    law_times_commutes(Number::zero(), b);
    law_times_zero(b);
}

/// A product by a number from zero to one lies between zero and the other number.
pub proof fn law_fraction_lies_between_zero_and_the_whole(fraction: Number, a: Number)
    requires
        fraction.is_finite(),
        fraction.within(Number::zero(), Number::whole(1)),
        a.is_finite(),
        a.representable(),
    ensures
        fraction.times(a).is_finite(),
        fraction.times(a).representable(),
        Number::zero().at_most(a) ==> fraction.times(a).within(Number::zero(), a),
        a.at_most(Number::zero()) ==> fraction.times(a).within(a, Number::zero()),
{
    let (x, y, p) = (fraction->magnitude, a->magnitude, pow2(149));
    lemma_pow2_pos(149);
    lemma_pow2_pos(277);
    crate::rounding::lemma_nearest_zero(p);
    assert(1 * pow2(149) == pow2(149));
    assert(x * y * p <= y * p * p) by (nonlinear_arith)
        requires
            x <= p,
    ;
    law_times_one(a);
    crate::rounding::law_nearest_is_monotone(x * y, p, y * p, p);
    law_rounded_is_representable(fraction.is_negative() != a.is_negative(), x * y, p);
    if x == 0 || y == 0 {
        assert(x * y == 0) by (nonlinear_arith)
            requires
                x == 0 || y == 0,
        ;
    }
}

/// Dividing by a finite positive number keeps the order.
pub proof fn law_over_is_monotone(a: Number, b: Number, c: Number)
    requires
        a.at_most(b),
        a.representable(),
        b.representable(),
        c.is_finite(),
        Number::zero().less(c),
    ensures
        a.over(c).at_most(b.over(c)),
{
    let p = pow2(149);
    let z = c->magnitude;
    lemma_pow2_pos(149);
    lemma_pow2_pos(277);
    crate::rounding::lemma_nearest_zero(z);
    if a.is_finite() {
        lemma_rounded_is(a.is_negative(), a->magnitude * p, z);
    }
    if b.is_finite() {
        lemma_rounded_is(b.is_negative(), b->magnitude * p, z);
    }
    if a.is_finite() && b.is_finite() {
        let (x, y) = (a->magnitude, b->magnitude);
        if x <= y {
            assert((x * p) * z <= (y * p) * z) by (nonlinear_arith)
                requires
                    x <= y,
            ;
            lemma_capped_monotone(x * p, z, y * p, z);
        }
        if y <= x {
            assert((y * p) * z <= (x * p) * z) by (nonlinear_arith)
                requires
                    y <= x,
            ;
            lemma_capped_monotone(y * p, z, x * p, z);
        }
        if x == 0 {
            assert(x * p == 0) by (nonlinear_arith)
                requires
                    x == 0,
            ;
        }
        if y == 0 {
            assert(y * p == 0) by (nonlinear_arith)
                requires
                    y == 0,
            ;
        }
    }
}

/// A quotient by a positive number that has a bit pattern is not rounded.
pub proof fn law_exact_quotient(a: Number, b: Number, quotient: Number)
    requires
        a.is_finite(),
        b.is_finite(),
        Number::zero().less(b),
        quotient.is_finite(),
        quotient.representable(),
        a.units() * pow2(149) == quotient.units() * b.units(),
    ensures
        a.over(b).equals(quotient),
{
    let p = pow2(149);
    let (x, y, n) = (a->magnitude, b->magnitude, quotient->magnitude);
    lemma_pow2_pos(149);
    assert(x * p == n * y && (n > 0 ==> a.is_negative() == quotient.is_negative()))
        by (nonlinear_arith)
        requires
            p > 0,
            y > 0,
            a.units() == x || a.units() == -x,
            quotient.units() == n || quotient.units() == -n,
            a.units() * p == quotient.units() * y,
            a.is_negative() ==> a.units() == -x,
            !a.is_negative() ==> a.units() == x,
            quotient.is_negative() ==> quotient.units() == -n,
            !quotient.is_negative() ==> quotient.units() == n,
    ;
    let (m, e) = choose|m: nat, e: nat| m < SIGNIFICAND_LIMIT && n == #[trigger] (m * pow2(e));
    crate::rounding::law_nearest_is_exact(m, e, y);
}

/// A clamped value lies within its bounds, unless it is undefined.
pub proof fn law_clamped_is_within(a: Number, low: Number, high: Number)
    requires
        low.at_most(high),
        a !is Undefined,
    ensures
        a.clamped(low, high).within(low, high),
        a.within(low, high) ==> a.clamped(low, high) == a,
{
}

/// Clamping keeps the order.
pub proof fn law_clamped_is_monotone(a: Number, b: Number, low: Number, high: Number)
    requires
        low.at_most(high),
        a.at_most(b),
    ensures
        a.clamped(low, high).at_most(b.clamped(low, high)),
{
}

/// What rounding yields has a bit pattern.
pub proof fn law_rounded_is_representable(negative: bool, n: nat, d: nat)
    requires
        d > 0,
    ensures
        Number::rounded(negative, n, d).representable(),
{
    let e = crate::rounding::quantum(n, d);
    let m = crate::rounding::round_half_even(n, d * pow2(e));
    crate::rounding::lemma_significand_range(n, d);
    assert(crate::rounding::nearest(n, d) == m * pow2(e));
    if m == SIGNIFICAND_LIMIT {
        lemma_pow2_unfold(e + 1);
        let h = crate::rounding::HIDDEN_BIT as nat;
        assert(m * pow2(e) == h * pow2(e + 1)) by (nonlinear_arith)
            requires
                m == 2 * h,
                pow2(e + 1) == 2 * pow2(e),
        ;
    }
}

/// A finite double is exact; clamped to a range, it is the double or the end that lies on its way.
pub proof fn law_double_is_exact(a: Number, low: Number, high: Number)
    requires
        a.is_finite(),
        a.representable(),
        low.is_finite(),
        high.is_finite(),
        low.representable(),
        high.representable(),
        low.units() <= high.units(),
    ensures
        a.plus(a).is_finite() ==> a.plus(a).units() == 2 * a.units(),
        a.plus(a).clamped(low, high).is_finite(),
        ({
            let result = a.plus(a).clamped(low, high).units();
            ||| result == 2 * a.units()
            ||| result == high.units() && 2 * a.units() >= result
            ||| result == low.units() && 2 * a.units() <= result
        }),
{
    let n = a->magnitude;
    let (m, e) = choose|m: nat, e: nat| m < SIGNIFICAND_LIMIT && n == #[trigger] (m * pow2(e));
    lemma_plus_units(a, a);
    lemma_pow2_unfold(e + 1);
    assert(m * pow2(e + 1) == 2 * n) by (nonlinear_arith)
        requires
            n == m * pow2(e),
            pow2(e + 1) == 2 * pow2(e),
    ;
    crate::rounding::law_nearest_is_exact(m, e + 1, 1);
}

/// How far two integers are apart.
pub open spec fn gap(a: int, b: int) -> int {
    if a >= b {
        a - b
    } else {
        b - a
    }
}

/// A finite sum is off by at most one part in two to the power 24.
pub proof fn law_plus_error(a: Number, b: Number)
    requires
        a.is_finite(),
        b.is_finite(),
        a.plus(b).is_finite(),
    ensures
        SIGNIFICAND_LIMIT * gap(a.plus(b).units(), a.units() + b.units()) <= gap(
            a.units() + b.units(),
            0,
        ),
{
    let sum = a.units() + b.units();
    lemma_plus_units(a, b);
    crate::rounding::law_nearest_error(gap(sum, 0) as nat, 1);
}

/// The exact product of two numbers in units has the sign of its rounding.
proof fn lemma_product_units(a: Number, b: Number)
    requires
        a.is_finite(),
        b.is_finite(),
    ensures
        ({
            let n = a->magnitude * b->magnitude;
            a.units() * b.units() == if a.is_negative() != b.is_negative() {
                -(n as int)
            } else {
                n as int
            }
        }),
{
    let (x, y) = (a->magnitude as int, b->magnitude as int);
    assert((-x) * y == -(x * y) && x * (-y) == -(x * y) && (-x) * (-y) == x * y)
        by (nonlinear_arith);
}

/// A finite product is off by at most half a unit or one part in two to the power 24.
pub proof fn law_times_error(a: Number, b: Number)
    requires
        a.is_finite(),
        b.is_finite(),
        a.times(b).is_finite(),
    ensures
        ({
            let error = gap(a.units() * b.units(), pow2(149) * a.times(b).units());
            2 * error <= pow2(149) || SIGNIFICAND_LIMIT * error <= gap(a.units() * b.units(), 0)
        }),
{
    let (x, y) = (a->magnitude, b->magnitude);
    let r = a.times(b)->magnitude as int;
    lemma_pow2_pos(149);
    lemma_product_units(a, b);
    crate::rounding::law_nearest_error(x * y, pow2(149));
    assert(pow2(149) * (-r) == -(pow2(149) * r)) by (nonlinear_arith);
    assert(pow2(149) * r >= 0) by (nonlinear_arith)
        requires
            r >= 0,
    ;
    assert(x * y >= 0) by (nonlinear_arith);
}

/// A finite quotient is off by at most half a unit or one part in two to the power 24.
pub proof fn law_over_error(a: Number, b: Number)
    requires
        a.is_finite(),
        b.is_finite(),
        !b.is_zero(),
        a.over(b).is_finite(),
    ensures
        ({
            let error = gap(a.units() * pow2(149), b.units() * a.over(b).units());
            2 * error <= gap(b.units(), 0) || SIGNIFICAND_LIMIT * error <= gap(
                a.units() * pow2(149),
                0,
            )
        }),
{
    let (x, y) = (a->magnitude, b->magnitude);
    let (r, p) = (a.over(b)->magnitude as int, pow2(149) as int);
    crate::rounding::law_nearest_error(x * pow2(149), y);
    assert((-x) * p == -(x * p) && x * p >= 0) by (nonlinear_arith)
        requires
            x >= 0,
            p >= 0,
    ;
    assert((-y) * r == -(y * r) && y * (-r) == -(y * r) && (-y) * (-r) == y * r && y * r >= 0)
        by (nonlinear_arith)
        requires
            y >= 0,
            r >= 0,
    ;
}

/// A product that is no larger than the largest finite value is finite.
pub proof fn law_product_in_range_is_finite(a: Number, b: Number)
    requires
        a.is_finite(),
        b.is_finite(),
        gap(a.units() * b.units(), 0) <= ((SIGNIFICAND_LIMIT - 1) * pow2(253)) * pow2(149),
    ensures
        a.times(b).is_finite(),
{
    let (x, y) = (a->magnitude, b->magnitude);
    let most = ((SIGNIFICAND_LIMIT - 1) * pow2(253)) as nat;
    lemma2_to64();
    lemma_pow2_pos(149);
    lemma_pow2_pos(253);
    lemma_pow2_adds(24, 253);
    lemma_product_units(a, b);
    assert(most < pow2(277)) by (nonlinear_arith)
        requires
            most == (SIGNIFICAND_LIMIT - 1) * pow2(253),
            pow2(277) == SIGNIFICAND_LIMIT * pow2(253),
            pow2(253) > 0,
    ;
    crate::rounding::law_nearest_is_exact((SIGNIFICAND_LIMIT - 1) as nat, 253, pow2(149));
    assert(x * y >= 0) by (nonlinear_arith);
    assert((x * y) * pow2(149) <= (most * pow2(149)) * pow2(149)) by (nonlinear_arith)
        requires
            x * y <= most * pow2(149),
    ;
    crate::rounding::law_nearest_is_monotone(x * y, pow2(149), most * pow2(149), pow2(149));
}

/// A quotient that is no larger than the largest finite value is finite.
pub proof fn law_quotient_in_range_is_finite(a: Number, b: Number)
    requires
        a.is_finite(),
        b.is_finite(),
        !b.is_zero(),
        gap(a.units(), 0) * pow2(149) <= ((SIGNIFICAND_LIMIT - 1) * pow2(253)) * gap(b.units(), 0),
    ensures
        a.over(b).is_finite(),
{
    let (x, y) = (a->magnitude, b->magnitude);
    let most = ((SIGNIFICAND_LIMIT - 1) * pow2(253)) as nat;
    lemma2_to64();
    lemma_pow2_pos(149);
    lemma_pow2_pos(253);
    lemma_pow2_adds(24, 253);
    assert(most < pow2(277)) by (nonlinear_arith)
        requires
            most == (SIGNIFICAND_LIMIT - 1) * pow2(253),
            pow2(277) == SIGNIFICAND_LIMIT * pow2(253),
            pow2(253) > 0,
    ;
    crate::rounding::law_nearest_is_exact((SIGNIFICAND_LIMIT - 1) as nat, 253, y);
    assert((x * pow2(149)) * y <= (most * y) * y) by (nonlinear_arith)
        requires
            x * pow2(149) <= most * y,
    ;
    crate::rounding::law_nearest_is_monotone(x * pow2(149), y, most * y, y);
}

/// A sum is undefined only where a number is, or where the two are infinite with opposite signs,
/// and infinite where one of them is.
pub proof fn law_sum_beyond_the_finite(a: Number, b: Number)
    ensures
        a.plus(b) is Undefined <==> a is Undefined || b is Undefined || (a is Infinite
            && b is Infinite && a.is_negative() != b.is_negative()),
        a is Infinite && b.is_finite() ==> a.plus(b) == a,
        b is Infinite && a.is_finite() ==> a.plus(b) == b,
        a is Infinite && b == a ==> a.plus(b) == a,
{
}

/// A product is undefined only where a number is, or where zero meets an infinity.
pub proof fn law_product_beyond_the_finite(a: Number, b: Number)
    ensures
        a.times(b) is Undefined <==> a is Undefined || b is Undefined || (a is Infinite
            && b.is_zero()) || (b is Infinite && a.is_zero()),
        a is Infinite || b is Infinite ==> !a.times(b).is_finite(),
        a.times(b) !is Undefined ==> a.times(b).is_negative() == (a.is_negative()
            != b.is_negative()),
{
}

/// A quotient is undefined only where a number is, or where both are zero or both infinite.
pub proof fn law_quotient_beyond_the_finite(a: Number, b: Number)
    ensures
        a.over(b) is Undefined <==> a is Undefined || b is Undefined || (a.is_zero()
            && b.is_zero()) || (a is Infinite && b is Infinite),
        a is Infinite && b.is_finite() ==> !a.over(b).is_finite(),
        a.is_finite() && b is Infinite ==> a.over(b).is_zero(),
        a.is_finite() && !a.is_zero() && b.is_zero() ==> a.over(b) is Infinite,
        a.over(b) !is Undefined ==> a.over(b).is_negative() == (a.is_negative()
            != b.is_negative()),
{
}

/// No number with a bit pattern is closer to the exact sum than the rounded one.
pub proof fn law_sum_is_closest(a: Number, b: Number, other: Number)
    requires
        a.is_finite(),
        b.is_finite(),
        a.plus(b).is_finite(),
        other.is_finite(),
        other.representable(),
    ensures
        gap(a.plus(b).units(), a.units() + b.units()) <= gap(
            other.units(),
            a.units() + b.units(),
        ),
{
    let sum = a.units() + b.units();
    let n = other->magnitude;
    let (m, e) = choose|m: nat, e: nat| m < SIGNIFICAND_LIMIT && n == #[trigger] (m * pow2(e));
    lemma_plus_units(a, b);
    crate::rounding::law_nearest_is_closest(gap(sum, 0) as nat, 1, m, e);
    crate::rounding::law_nearest_is_closest(gap(sum, 0) as nat, 1, 0, 0);
    assert(0 * pow2(0) == 0);
}

/// No number with a bit pattern is closer to the exact product than the rounded one.
pub proof fn law_product_is_closest(a: Number, b: Number, other: Number)
    requires
        a.is_finite(),
        b.is_finite(),
        a.times(b).is_finite(),
        other.is_finite(),
        other.representable(),
    ensures
        gap(pow2(149) * a.times(b).units(), a.units() * b.units()) <= gap(
            pow2(149) * other.units(),
            a.units() * b.units(),
        ),
{
    let (x, y, n) = (a->magnitude, b->magnitude, other->magnitude as int);
    let (r, p) = (a.times(b)->magnitude as int, pow2(149) as int);
    let (m, e) = choose|m: nat, e: nat|
        m < SIGNIFICAND_LIMIT && other->magnitude == #[trigger] (m * pow2(e));
    lemma_pow2_pos(149);
    lemma_product_units(a, b);
    crate::rounding::law_nearest_is_closest(x * y, pow2(149), m, e);
    assert(p * (-r) == -(p * r) && p * (-n) == -(p * n) && p * n >= 0 && p * r >= 0)
        by (nonlinear_arith)
        requires
            p >= 0,
            n >= 0,
            r >= 0,
    ;
    crate::rounding::law_nearest_is_closest(x * y, pow2(149), 0, 0);
    assert(0 * pow2(0) == 0 && p * 0 == 0);
    assert(x * y >= 0) by (nonlinear_arith);
}

/// No number with a bit pattern is closer to the exact quotient than the rounded one.
pub proof fn law_quotient_is_closest(a: Number, b: Number, other: Number)
    requires
        a.is_finite(),
        b.is_finite(),
        !b.is_zero(),
        a.over(b).is_finite(),
        other.is_finite(),
        other.representable(),
    ensures
        gap(b.units() * a.over(b).units(), a.units() * pow2(149)) <= gap(
            b.units() * other.units(),
            a.units() * pow2(149),
        ),
{
    let (x, y, n) = (a->magnitude as int, b->magnitude as int, other->magnitude as int);
    let (r, p) = (a.over(b)->magnitude as int, pow2(149) as int);
    let (m, e) = choose|m: nat, e: nat|
        m < SIGNIFICAND_LIMIT && other->magnitude == #[trigger] (m * pow2(e));
    crate::rounding::law_nearest_is_closest(a->magnitude * pow2(149), b->magnitude, m, e);
    crate::rounding::law_nearest_is_closest(a->magnitude * pow2(149), b->magnitude, 0, 0);
    assert(0 * pow2(0) == 0 && y * 0 == 0);
    assert((-x) * p == -(x * p) && x * p >= 0) by (nonlinear_arith)
        requires
            x >= 0,
            p >= 0,
    ;
    assert((-y) * r == -(y * r) && y * (-r) == -(y * r) && (-y) * (-r) == y * r && y * r >= 0)
        by (nonlinear_arith)
        requires
            y >= 0,
            r >= 0,
    ;
    assert((-y) * n == -(y * n) && y * (-n) == -(y * n) && (-y) * (-n) == y * n && y * n >= 0)
        by (nonlinear_arith)
        requires
            y >= 0,
            n >= 0,
    ;
}

/// The larger of two numbers is one of them and no smaller than either; an undefined number gives
/// way to the other.
pub proof fn law_larger_is_at_least_both(a: Number, b: Number)
    ensures
        a.larger(b) == a || a.larger(b) == b,
        a !is Undefined && b !is Undefined ==> a.units() <= a.larger(b).units() && b.units()
            <= a.larger(b).units(),
        a is Undefined ==> a.larger(b) == b,
        b is Undefined ==> a.larger(b) == a,
{
}

/// A sum that is clamped to a range is no farther from a value in the range than the exact sum,
/// but for the rounding.
pub proof fn law_clamped_sum_error(a: Number, b: Number, low: Number, high: Number, value: int)
    requires
        a.is_finite(),
        b.is_finite(),
        low.is_finite(),
        high.is_finite(),
        low.representable(),
        high.representable(),
        low.units() <= value <= high.units(),
    ensures
        SIGNIFICAND_LIMIT * gap(a.plus(b).clamped(low, high).units(), value) <= SIGNIFICAND_LIMIT
            * gap(a.units() + b.units(), value) + gap(a.units() + b.units(), 0),
{
    let sum = a.units() + b.units();
    lemma_plus_units(a, b);
    crate::rounding::law_nearest_error(gap(sum, 0) as nat, 1);
}

/// The same measured on a finer scale, on which the value need not be a whole number of units.
pub proof fn law_clamped_sum_error_on_a_scale(
    a: Number,
    b: Number,
    low: Number,
    high: Number,
    scale: int,
    target: int,
)
    requires
        a.is_finite(),
        b.is_finite(),
        low.is_finite(),
        high.is_finite(),
        low.representable(),
        high.representable(),
        scale > 0,
        scale * low.units() <= target <= scale * high.units(),
    ensures
        SIGNIFICAND_LIMIT * gap(scale * a.plus(b).clamped(low, high).units(), target)
            <= SIGNIFICAND_LIMIT * gap(scale * (a.units() + b.units()), target) + scale * gap(
            a.units() + b.units(),
            0,
        ),
{
    let sum = a.units() + b.units();
    let near = crate::rounding::nearest(gap(sum, 0) as nat, 1) as int;
    let exact = if sum < 0 {
        -near
    } else {
        near
    };
    let result = a.plus(b).clamped(low, high).units();
    lemma_plus_units(a, b);
    crate::rounding::law_nearest_error(gap(sum, 0) as nat, 1);
    assert(SIGNIFICAND_LIMIT * gap(exact, sum) <= gap(sum, 0));
    let (x, y) = (gap(scale * exact, scale * sum), gap(scale * exact, target));
    assert(x == scale * gap(exact, sum)) by (nonlinear_arith)
        requires
            scale > 0,
            gap(exact, sum) == exact - sum || gap(exact, sum) == sum - exact,
            gap(exact, sum) >= 0,
            x == scale * exact - scale * sum || x == scale * sum - scale * exact,
            x >= 0,
    ;
    assert(SIGNIFICAND_LIMIT * x <= scale * gap(sum, 0)) by (nonlinear_arith)
        requires
            x == scale * gap(exact, sum),
            SIGNIFICAND_LIMIT * gap(exact, sum) <= gap(sum, 0),
            scale > 0,
    ;
    assert(y <= x + gap(scale * sum, target));
    assert(result == exact || (result == high.units() && exact >= result) || (result == low.units()
        && exact <= result));
    assert(exact >= result ==> scale * exact >= scale * result) by (nonlinear_arith)
        requires
            scale > 0,
    ;
    assert(exact <= result ==> scale * exact <= scale * result) by (nonlinear_arith)
        requires
            scale > 0,
    ;
    assert(gap(scale * result, target) <= y);
}

/// Doubling is exact: clamped to a range, a double is no farther from a value in the range than
/// before.
pub proof fn law_clamped_double_error(a: Number, low: Number, high: Number, value: int)
    requires
        a.is_finite(),
        a.representable(),
        low.is_finite(),
        high.is_finite(),
        low.representable(),
        high.representable(),
        low.units() <= value <= high.units(),
    ensures
        gap(a.plus(a).clamped(low, high).units(), value) <= gap(2 * a.units(), value),
{
    let n = a->magnitude;
    let (m, e) = choose|m: nat, e: nat| m < SIGNIFICAND_LIMIT && n == #[trigger] (m * pow2(e));
    lemma_plus_units(a, a);
    lemma_pow2_unfold(e + 1);
    assert(m * pow2(e + 1) == 2 * n) by (nonlinear_arith)
        requires
            n == m * pow2(e),
            pow2(e + 1) == 2 * pow2(e),
    ;
    crate::rounding::law_nearest_is_exact(m, e + 1, 1);
}

/// The gap of two integers is their difference, taken as positive.
pub proof fn law_gap_is_the_difference(a: int, b: int)
    ensures
        gap(a, b) == gap(b, a),
        gap(a, b) >= a - b,
        gap(a, b) >= b - a,
        gap(a, b) == a - b || gap(a, b) == b - a,
{
}

/// Numbers are ordered as their units are, and an undefined one is not ordered.
pub proof fn law_order_is_that_of_the_units(a: Number, b: Number)
    ensures
        a.less(b) <==> a !is Undefined && b !is Undefined && a.units() < b.units(),
        a.at_most(b) <==> a !is Undefined && b !is Undefined && a.units() <= b.units(),
        a.equals(b) <==> a !is Undefined && b !is Undefined && a.units() == b.units(),
{
}

/// The units of a finite number are its magnitude with its sign, and those of an infinity lie
/// beyond all that have a bit pattern.
pub proof fn law_units_are_the_signed_magnitude(a: Number, infinite: Number)
    requires
        a is Finite,
        a.representable(),
        infinite is Infinite,
    ensures
        a->Finite_negative ==> a.units() == -a->magnitude,
        !a->Finite_negative ==> a.units() == a->magnitude,
        infinite->Infinite_negative ==> infinite.units() < a.units(),
        !infinite->Infinite_negative ==> infinite.units() > a.units(),
        a.is_zero() <==> a.units() == 0,
        a.is_finite() && !infinite.is_finite(),
{
}

/// Turning a sign turns the units.
pub proof fn law_negated_has_the_opposite_units(a: Number)
    ensures
        a.negated().units() == -a.units(),
        a.negated() is Undefined <==> a is Undefined,
        a.negated() is Finite <==> a is Finite,
        a.negated().negated() == a,
{
}

}
