//! Processor parameters: identifiers, ranges and the errors of leaving them.

use crate::number::Number;
use crate::rounding::SIGNIFICAND_LIMIT;
use crate::sample::Sample;
use vstd::arithmetic::mul::*;
use vstd::arithmetic::power2::*;
use vstd::prelude::*;

verus! {

/// Common errors returned when a parameter is created or set.
#[derive(Debug, PartialEq)]
pub enum Error {
    /// A parameter range was invalid.
    InvalidParameterRange { min: Sample, max: Sample },
    /// A parameter value was outside the allowed range.
    ParameterOutOfRange { value: Sample, min: Sample, max: Sample },
}

/// Result type used when a parameter is created or set.
pub type Result<T> = core::result::Result<T, Error>;

impl Clone for Error {
    fn clone(&self) -> (res: Error)
        ensures
            res == *self,
    {
        match self {
            Error::InvalidParameterRange { min, max } => Error::InvalidParameterRange {
                min: *min,
                max: *max,
            },
            Error::ParameterOutOfRange { value, min, max } => Error::ParameterOutOfRange {
                value: *value,
                min: *min,
                max: *max,
            },
        }
    }
}

impl Error {
    /// Whether `text` describes the error, given what `show` may render each number as.
    pub open spec fn described_by<F: Fn(Sample) -> String>(self, show: F, text: Seq<char>) -> bool {
        match self {
            Error::InvalidParameterRange { min, max } => exists|low: String, high: String|
                {
                    &&& #[trigger] call_ensures(show, (min,), low)
                    &&& #[trigger] call_ensures(show, (max,), high)
                    &&& text == "invalid parameter range: min "@ + low@ + " must be less than max "@
                        + high@
                },
            Error::ParameterOutOfRange { value, min, max } => exists|
                at: String,
                low: String,
                high: String,
            |
                {
                    &&& #[trigger] call_ensures(show, (value,), at)
                    &&& #[trigger] call_ensures(show, (min,), low)
                    &&& #[trigger] call_ensures(show, (max,), high)
                    &&& text == "parameter value "@ + at@ + " is outside range "@ + low@ + "..="@
                        + high@
                },
        }
    }

    /// The message of the error, with its numbers rendered by `show`.
    pub fn message<F: Fn(Sample) -> String>(&self, show: F) -> (res: String)
        requires
            forall|x: Sample| #[trigger] call_requires(show, (x,)),
        ensures
            self.described_by(show, res@),
    {
        match self {
            Error::InvalidParameterRange { min, max } => {
                let low: String = show(*min);
                let high: String = show(*max);
                let mut text: String = String::from_str("invalid parameter range: min ");
                text.append(low.as_str());
                text.append(" must be less than max ");
                text.append(high.as_str());
                text
            },
            Error::ParameterOutOfRange { value, min, max } => {
                let at: String = show(*value);
                let low: String = show(*min);
                let high: String = show(*max);
                let mut text: String = String::from_str("parameter value ");
                text.append(at.as_str());
                text.append(" is outside range ");
                text.append(low.as_str());
                text.append("..=");
                text.append(high.as_str());
                text
            },
        }
    }
}

/// Stable identifier for a processor parameter.
#[derive(Debug, Clone, Copy, Eq, Hash)]
pub struct ParameterId(&'static str);

impl PartialEq for ParameterId {
    fn eq(&self, other: &ParameterId) -> (res: bool) {
        let left: &[u8] = self.0.as_bytes();
        let right: &[u8] = other.0.as_bytes();
        if left.len() != right.len() {
            return false;
        }
        let mut index: usize = 0;
        while index < left.len()
            invariant
                index <= left@.len(),
                left@.len() == right@.len(),
                left@ == vstd::utf8::encode_utf8(self@),
                right@ == vstd::utf8::encode_utf8(other@),
                forall|i: int| 0 <= i < index ==> left@[i] == right@[i],
            decreases left@.len() - index,
        {
            if left[index] != right[index] {
                return false;
            }
            index = index + 1;
        }
        proof {
            assert(left@ =~= right@);
            vstd::utf8::encode_utf8_decode_utf8(self@);
            vstd::utf8::encode_utf8_decode_utf8(other@);
        }
        true
    }
}

impl vstd::std_specs::cmp::PartialEqSpecImpl for ParameterId {
    open spec fn obeys_eq_spec() -> bool {
        true
    }

    open spec fn eq_spec(&self, other: &ParameterId) -> bool {
        self@ == other@
    }
}

impl View for ParameterId {
    type V = Seq<char>;

    closed spec fn view(&self) -> Seq<char> {
        self.0@
    }
}

impl ParameterId {
    /// Creates a new parameter identifier.
    pub fn new(id: &'static str) -> (res: Self)
        ensures
            res@ == id@,
    {
        ParameterId(id)
    }

    /// Returns the identifier as a string slice.
    ///
    /// Identifiers are equal exactly when their strings are.
    pub fn as_str(self) -> (res: &'static str)
        ensures
            res@ == self@,
    {
        self.0
    }
}

/// Identifiers are equal exactly when their strings are.
pub proof fn law_identifiers_compare_as_their_strings(left: ParameterId, right: ParameterId)
    ensures
        vstd::std_specs::cmp::PartialEqSpec::eq_spec(&left, &right) <==> left@ == right@,
{
}

/// What a parameter holds.
pub struct ParameterState {
    pub id: ParameterId,
    pub min: Sample,
    pub max: Sample,
    pub default: Sample,
    pub value: Sample,
}

/// Whether `min..max` is a finite, non-empty range.
pub open spec fn valid_range(min: Number, max: Number) -> bool {
    min.is_finite() && max.is_finite() && min.less(max)
}

impl ParameterState {
    /// What holds of every parameter: its range is valid and holds the default and the value,
    /// unless the latter was set from an undefined number.
    pub open spec fn valid(self) -> bool {
        &&& valid_range(self.min@, self.max@)
        &&& self.default@.within(self.min@, self.max@)
        &&& self.value@ is Undefined || self.value@.within(self.min@, self.max@)
    }

    /// The width of the range.
    pub open spec fn span(self) -> Number {
        self.max@.minus(self.min@)
    }

    /// A plain value on the scale that conversions are computed on: the value itself or, where the
    /// width of the range overflows, half of it.
    pub open spec fn scaled(self, value: Number) -> Number {
        if self.span().is_finite() {
            value
        } else {
            value.halved()
        }
    }

    /// The width of the range on the scale that conversions are computed on.
    pub open spec fn width(self) -> Number {
        self.scaled(self.max@).minus(self.scaled(self.min@))
    }

    /// The plain value `value` on the normalized scale.
    pub open spec fn normalize(self, value: Number) -> Number {
        self.scaled(value).minus(self.scaled(self.min@)).over(self.width()).clamped(
            Number::zero(),
            Number::whole(1),
        )
    }

    /// The plain value that lies at `fraction` of the way from the minimum to the maximum.
    pub open spec fn interpolated(self, fraction: Number) -> Number {
        let point = self.scaled(self.min@).plus(fraction.times(self.width()));
        if self.span().is_finite() {
            point
        } else {
            point.plus(point)
        }
    }

    /// The plain value at `normalized` on the normalized scale.
    ///
    /// Adding zero to an end of the range matters only where the end is zero: it then has the sign
    /// that a sum has.
    pub open spec fn denormalize(self, normalized: Number) -> Number {
        if normalized.at_most(Number::zero()) {
            self.min@.plus(normalized.clamped(Number::zero(), Number::whole(1)))
        } else if Number::whole(1).at_most(normalized) {
            self.max@.plus(Number::zero())
        } else {
            self.interpolated(normalized).clamped(self.min@, self.max@)
        }
    }
}

/// Floating-point parameter with linear normalized conversion.
#[derive(Debug, PartialEq)]
pub struct FloatParameter {
    id: ParameterId,
    min: Sample,
    max: Sample,
    default: Sample,
    value: Sample,
}

impl View for FloatParameter {
    type V = ParameterState;

    closed spec fn view(&self) -> ParameterState {
        ParameterState {
            id: self.id,
            min: self.min,
            max: self.max,
            default: self.default,
            value: self.value,
        }
    }
}

impl Clone for FloatParameter {
    fn clone(&self) -> (res: FloatParameter)
        ensures
            res == *self,
    {
        proof {
            use_type_invariant(self);
        }
        FloatParameter {
            id: self.id,
            min: self.min,
            max: self.max,
            default: self.default,
            value: self.value,
        }
    }
}

impl FloatParameter {
    #[verifier::type_invariant]
    closed spec fn well_formed(self) -> bool {
        self@.valid()
    }

    /// Creates a parameter with `default` as its current value.
    pub fn new(id: ParameterId, min: Sample, max: Sample, default: Sample) -> (res: Result<Self>)
        ensures
            res is Ok <==> {
                &&& min@ is Finite && max@ is Finite && default@ is Finite
                &&& min@.units() < max@.units()
                &&& min@.units() <= default@.units() <= max@.units()
            },
            res matches Err(error) ==> (error is ParameterOutOfRange <==> min@ is Finite
                && max@ is Finite && min@.units() < max@.units()),
            match res {
                Ok(parameter) => {
                    &&& parameter@ == (ParameterState { id, min, max, default, value: default })
                    &&& parameter@.valid()
                },
                Err(Error::InvalidParameterRange { min: low, max: high }) => {
                    &&& !valid_range(min@, max@)
                    &&& low == min
                    &&& high == max
                },
                Err(Error::ParameterOutOfRange { value, min: low, max: high }) => {
                    &&& valid_range(min@, max@)
                    &&& !default@.within(min@, max@)
                    &&& value == default
                    &&& low == min
                    &&& high == max
                },
            },
    {
        if !min.is_finite() || !max.is_finite() || min >= max {
            return Err(Error::InvalidParameterRange { min, max });
        }
        proof {
            default.lemma_bounded_is_finite(min, max);
        }
        if !default.is_finite() || default < min || default > max {
            return Err(Error::ParameterOutOfRange { value: default, min, max });
        }
        Ok(FloatParameter { id, min, max, default, value: default })
    }

    /// Returns the parameter identifier.
    pub fn id(&self) -> (res: ParameterId)
        ensures
            res == self@.id,
    {
        self.id
    }

    /// Returns the minimum plain value.
    pub fn min(&self) -> (res: Sample)
        ensures
            res == self@.min,
    {
        self.min
    }

    /// Returns the maximum plain value.
    pub fn max(&self) -> (res: Sample)
        ensures
            res == self@.max,
    {
        self.max
    }

    /// Returns the default plain value.
    pub fn default(&self) -> (res: Sample)
        ensures
            res == self@.default,
    {
        self.default
    }

    /// Returns the current plain value.
    pub fn value(&self) -> (res: Sample)
        ensures
            res == self@.value,
    {
        self.value
    }

    /// Sets the current plain value.
    pub fn set_value(&mut self, value: Sample) -> (res: Result<()>)
        ensures
            res is Ok <==> value@ is Finite && old(self)@.min@.units() <= value@.units()
                <= old(self)@.max@.units(),
            match res {
                Ok(_) => {
                    &&& value@.within(old(self)@.min@, old(self)@.max@)
                    &&& final(self)@ == (ParameterState { value, ..old(self)@ })
                },
                Err(error) => {
                    &&& !value@.within(old(self)@.min@, old(self)@.max@)
                    &&& error == (Error::ParameterOutOfRange {
                        value,
                        min: old(self)@.min,
                        max: old(self)@.max,
                    })
                    &&& *final(self) == *old(self)
                },
            },
    {
        proof {
            use_type_invariant(&*self);
            value.lemma_bounded_is_finite(self.min, self.max);
        }
        if !value.is_finite() || value < self.min || value > self.max {
            return Err(Error::ParameterOutOfRange { value, min: self.min, max: self.max });
        }
        self.value = value;
        Ok(())
    }

    /// Returns the current value normalized to `0.0..=1.0`.
    pub fn normalized_value(&self) -> (res: Sample)
        ensures
            res@ == self@.normalize(self@.value@),
            self@.value@ !is Undefined ==> res@.within(Number::zero(), Number::whole(1)),
    {
        self.value_to_normalized(self.value)
    }

    /// A plain value on the scale that conversions are computed on.
    fn scaled(&self, value: Sample) -> (res: Sample)
        ensures
            res@ == self@.scaled(value@),
    {
        if self.max.minus(self.min).is_finite() {
            value
        } else {
            value.over(Sample::from_whole(2))
        }
    }

    /// Converts a plain value to a normalized `0.0..=1.0` value.
    ///
    /// Values at or below the minimum convert to zero, those at or above the maximum to one.
    pub fn value_to_normalized(&self, value: Sample) -> (res: Sample)
        ensures
            res@ == self@.normalize(value@),
            value@ !is Undefined ==> res@.within(Number::zero(), Number::whole(1)),
            value@.at_most(self@.min@) ==> res@.equals(Number::zero()),
            self@.max@.at_most(value@) ==> res@.equals(Number::whole(1)),
    {
        proof {
            use_type_invariant(self);
            if value@ !is Undefined {
                law_normalized_is_in_unit_range(self@, value);
                law_values_outside_normalize_to_the_ends(self@, value);
            }
        }
        let min: Sample = self.scaled(self.min);
        let width: Sample = self.scaled(self.max).minus(min);
        self.scaled(value).minus(min).over(width).clamp(Sample::zero(), Sample::one())
    }

    /// Converts a normalized `0.0..=1.0` value to a plain value.
    ///
    /// The plain value lies in the range of the parameter: zero converts to the minimum and one to
    /// the maximum.
    pub fn normalized_to_value(&self, normalized: Sample) -> (res: Sample)
        ensures
            res@ == self@.denormalize(normalized@),
            normalized@ !is Undefined ==> res@.within(self@.min@, self@.max@),
            normalized@ is Undefined ==> res@ is Undefined,
            normalized@.at_most(Number::zero()) ==> res@.equals(self@.min@),
            normalized@.at_most(Number::zero()) && !self@.min@.is_zero() ==> res == self@.min,
            Number::whole(1).at_most(normalized@) ==> res@.equals(self@.max@),
            Number::whole(1).at_most(normalized@) && !self@.max@.is_zero() ==> res == self@.max,
    {
        proof {
            use_type_invariant(self);
            lemma_pow2_pos(149);
            if normalized@ !is Undefined {
                law_denormalized_is_in_range(self@, normalized);
            }
            lemma_ends_denormalize(self@, normalized@);
        }
        if normalized <= Sample::zero() {
            let end: Sample = self.min.plus(normalized.clamp(Sample::zero(), Sample::one()));
            proof {
                if !self.min@.is_zero() {
                    end.law_value_determines_pattern(self.min);
                }
            }
            return end;
        }
        if normalized >= Sample::one() {
            let end: Sample = self.max.plus(Sample::zero());
            proof {
                if !self.max@.is_zero() {
                    end.law_value_determines_pattern(self.max);
                }
            }
            return end;
        }
        let min: Sample = self.scaled(self.min);
        let width: Sample = self.scaled(self.max).minus(min);
        let point: Sample = min.plus(normalized.times(width));
        let plain: Sample = if self.max.minus(self.min).is_finite() {
            point
        } else {
            point.plus(point)
        };
        plain.clamp(self.min, self.max)
    }

    /// Sets the current value from a normalized `0.0..=1.0` value.
    pub fn set_normalized_value(&mut self, normalized: Sample)
        ensures
            final(self)@ == (ParameterState { value: final(self)@.value, ..old(self)@ }),
            final(self)@.value@ == old(self)@.denormalize(normalized@),
            normalized@ !is Undefined ==> final(self)@.value@.within(
                old(self)@.min@,
                old(self)@.max@,
            ),
    {
        proof {
            use_type_invariant(&*self);
        }
        self.value = self.normalized_to_value(normalized);
    }

    /// Restores the current value to the default.
    pub fn reset_to_default(&mut self)
        ensures
            final(self)@ == (ParameterState { value: old(self)@.default, ..old(self)@ }),
    {
        proof {
            use_type_invariant(&*self);
        }
        self.value = self.default;
    }
}

/// A range is valid exactly when both ends are finite and the first is the smaller one, whatever
/// their signs.
pub proof fn law_valid_ranges_are_those_in_order(min: Number, max: Number)
    ensures
        valid_range(min, max) <==> min is Finite && max is Finite && min.units() < max.units(),
{
}

/// A range is valid exactly when its mirror image at zero is.
pub proof fn law_mirrored_ranges_are_valid_alike(min: Number, max: Number)
    ensures
        valid_range(min, max) <==> valid_range(max.negated(), min.negated()),
{
}

/// A parameter is valid exactly when its range is in order and holds the default and the value,
/// unless the latter is undefined.
pub proof fn law_valid_parameters_hold_their_values(parameter: ParameterState)
    ensures
        parameter.valid() <==> {
            let (low, high) = (parameter.min@.units(), parameter.max@.units());
            &&& parameter.min@ is Finite && parameter.max@ is Finite
            &&& low < high
            &&& parameter.default@ is Finite && low <= parameter.default@.units() <= high
            &&& parameter.value@ is Undefined || (parameter.value@ is Finite && low
                <= parameter.value@.units() <= high)
        },
{
    if parameter.min@ is Finite && parameter.max@ is Finite {
        parameter.default.lemma_bounded_is_finite(parameter.min, parameter.max);
        parameter.value.lemma_bounded_is_finite(parameter.min, parameter.max);
    }
}

/// The scale that conversions are computed on: the range is finite and its width positive.
proof fn lemma_scale(parameter: ParameterState)
    requires
        parameter.valid(),
    ensures
        parameter.scaled(parameter.min@).is_finite(),
        parameter.scaled(parameter.min@).representable(),
        parameter.scaled(parameter.max@).is_finite(),
        parameter.scaled(parameter.max@).representable(),
        parameter.width().is_finite(),
        parameter.width().representable(),
        Number::zero().less(parameter.width()),
{
    let (min, max) = (parameter.min, parameter.max);
    min.law_is_representable();
    max.law_is_representable();
    crate::number::law_minus_is_positive(max@, min@);
    if !parameter.span().is_finite() {
        min.lemma_halved();
        max.lemma_halved();
        lemma_pow2_unfold(253);
        lemma_pow2_pos(252);
        let most = (SIGNIFICAND_LIMIT - 1) * pow2(252);
        assert((SIGNIFICAND_LIMIT - 1) * pow2(253) == 2 * most)
            by (nonlinear_arith)
            requires
                pow2(253) == 2 * pow2(252),
                most == (SIGNIFICAND_LIMIT - 1) * pow2(252),
        ;
        assert(most >= 2) by (nonlinear_arith)
            requires
                pow2(252) >= 1,
                most == (SIGNIFICAND_LIMIT - 1) * pow2(252),
        ;
        assert(max@.units() - min@.units() > 2 * most) by {
            if max@.units() - min@.units() <= 2 * most {
                crate::number::law_sum_in_range_is_finite(max@, min@.negated());
            }
        }
        crate::number::law_sum_in_range_is_finite(max@.halved(), min@.halved().negated());
        crate::number::law_minus_is_positive(max@.halved(), min@.halved());
    }
}

/// Scaling keeps the order.
proof fn lemma_scaled(parameter: ParameterState, low: Sample, high: Sample)
    requires
        low@.at_most(high@),
    ensures
        parameter.scaled(low@).representable(),
        parameter.scaled(high@).representable(),
        parameter.scaled(low@).at_most(parameter.scaled(high@)),
{
    low.law_is_representable();
    high.law_is_representable();
    lemma_pow2_pos(149);
    if low@.is_finite() {
        low.lemma_halved();
    }
    if high@.is_finite() {
        high.lemma_halved();
    }
    crate::number::law_over_is_monotone(low@, high@, Number::whole(2));
}

/// A larger plain value does not convert to a smaller normalized value.
pub proof fn law_normalizing_is_monotone(parameter: ParameterState, low: Sample, high: Sample)
    requires
        parameter.valid(),
        low@.at_most(high@),
    ensures
        parameter.normalize(low@).at_most(parameter.normalize(high@)),
{
    let min = parameter.scaled(parameter.min@);
    let (x, y) = (parameter.scaled(low@), parameter.scaled(high@));
    let (a, b) = (x.minus(min), y.minus(min));
    lemma_scale(parameter);
    lemma_scaled(parameter, low, high);
    lemma_pow2_pos(149);
    crate::number::law_plus_is_monotone(x, y, min.negated());
    if x.is_finite() {
        crate::number::law_minus_is_positive(x, min);
    }
    if y.is_finite() {
        crate::number::law_minus_is_positive(y, min);
    }
    crate::number::law_over_is_monotone(a, b, parameter.width());
    crate::number::law_clamped_is_monotone(
        a.over(parameter.width()),
        b.over(parameter.width()),
        Number::zero(),
        Number::whole(1),
    );
}

/// A plain value converts to a normalized value from zero to one.
pub proof fn law_normalized_is_in_unit_range(parameter: ParameterState, value: Sample)
    requires
        parameter.valid(),
        value@ !is Undefined,
    ensures
        parameter.normalize(value@).within(Number::zero(), Number::whole(1)),
{
    law_normalizing_is_monotone(parameter, value, value);
    lemma_pow2_pos(149);
    crate::number::law_clamped_is_within(
        parameter.scaled(value@).minus(parameter.scaled(parameter.min@)).over(parameter.width()),
        Number::zero(),
        Number::whole(1),
    );
}

/// The minimum converts to zero and the maximum to one.
pub proof fn law_range_ends_normalize_to_zero_and_one(parameter: ParameterState)
    requires
        parameter.valid(),
    ensures
        parameter.normalize(parameter.min@) == Number::zero(),
        parameter.normalize(parameter.max@) == Number::whole(1),
{
    lemma_scale(parameter);
    lemma_pow2_pos(149);
    lemma_pow2_pos(277);
    crate::number::law_minus_self(parameter.scaled(parameter.min@));
    crate::number::law_over_self(parameter.width());
    crate::rounding::lemma_nearest_zero(parameter.width()->magnitude);
    assert(0 * pow2(149) == 0);
}

/// Plain values at or below the range convert to zero, those at or above it to one.
pub proof fn law_values_outside_normalize_to_the_ends(parameter: ParameterState, value: Sample)
    requires
        parameter.valid(),
        value@ !is Undefined,
    ensures
        value@.at_most(parameter.min@) ==> parameter.normalize(value@).equals(Number::zero()),
        parameter.max@.at_most(value@) ==> parameter.normalize(value@).equals(Number::whole(1)),
{
    law_normalized_is_in_unit_range(parameter, value);
    law_range_ends_normalize_to_zero_and_one(parameter);
    if value@.at_most(parameter.min@) {
        law_normalizing_is_monotone(parameter, value, parameter.min);
    }
    if parameter.max@.at_most(value@) {
        law_normalizing_is_monotone(parameter, parameter.max, value);
    }
}

/// The share of the width at a fraction between zero and one.
proof fn lemma_share_of_width(parameter: ParameterState, fraction: Sample)
    requires
        parameter.valid(),
        fraction@.within(Number::zero(), Number::whole(1)),
    ensures
        fraction@.is_finite(),
        fraction@.times(parameter.width()).is_finite(),
        fraction@.times(parameter.width()).representable(),
        Number::zero().at_most(fraction@.times(parameter.width())),
        fraction@.times(parameter.width()).at_most(parameter.width()),
{
    let width = parameter.width();
    lemma_scale(parameter);
    lemma_pow2_pos(149);
    lemma_pow2_strictly_increases(149, 277);
    assert(1 * pow2(149) == pow2(149));
    crate::number::law_times_is_not_negative(fraction@, width);
    crate::number::law_times_is_monotone(fraction@, Number::whole(1), width);
    crate::number::law_times_commutes(Number::whole(1), width);
    crate::number::law_times_one(width);
    crate::number::law_rounded_is_representable(
        fraction@.is_negative() != width.is_negative(),
        fraction@->magnitude * width->magnitude,
        pow2(149),
    );
}

/// Interpolating between zero and one keeps the order.
proof fn lemma_interpolated(parameter: ParameterState, low: Sample, high: Sample)
    requires
        parameter.valid(),
        low@.within(Number::zero(), Number::whole(1)),
        high@.within(Number::zero(), Number::whole(1)),
        low@.at_most(high@),
    ensures
        parameter.interpolated(low@).at_most(parameter.interpolated(high@)),
{
    let (min, width) = (parameter.scaled(parameter.min@), parameter.width());
    let (a, b) = (low@.times(width), high@.times(width));
    lemma_scale(parameter);
    lemma_share_of_width(parameter, low);
    lemma_share_of_width(parameter, high);
    crate::number::law_times_is_monotone(low@, high@, width);
    crate::number::law_plus_is_monotone(a, b, min);
    crate::number::law_plus_commutes(min, a);
    crate::number::law_plus_commutes(min, b);
    crate::number::law_sum_is_representable(min, a);
    crate::number::law_sum_is_representable(min, b);
    crate::number::law_doubling_is_monotone(min.plus(a), min.plus(b));
}

/// The ends of the normalized scale, and what lies beyond them, convert to the ends of the range.
proof fn lemma_ends_denormalize(parameter: ParameterState, normalized: Number)
    requires
        parameter.valid(),
    ensures
        normalized.at_most(Number::zero()) ==> {
            &&& parameter.denormalize(normalized).equals(parameter.min@)
            &&& parameter.denormalize(normalized).is_finite()
            &&& !parameter.min@.is_zero() ==> parameter.denormalize(normalized) == parameter.min@
        },
        Number::whole(1).at_most(normalized) ==> {
            &&& parameter.denormalize(normalized).equals(parameter.max@)
            &&& parameter.denormalize(normalized).is_finite()
            &&& !parameter.max@.is_zero() ==> parameter.denormalize(normalized) == parameter.max@
        },
{
    lemma_pow2_pos(149);
    parameter.min.law_is_representable();
    parameter.max.law_is_representable();
    if normalized.at_most(Number::zero()) {
        let zero = normalized.clamped(Number::zero(), Number::whole(1));
        assert(zero.is_zero()) by {
            lemma_pow2_pos(277);
        }
        crate::number::law_plus_zero(parameter.min@, zero);
    }
    crate::number::law_plus_zero(parameter.max@, Number::zero());
}

/// Whatever the normalized value, the plain value lies in the range.
pub proof fn law_denormalized_is_in_range(parameter: ParameterState, normalized: Sample)
    requires
        parameter.valid(),
        normalized@ !is Undefined,
    ensures
        parameter.denormalize(normalized@).within(parameter.min@, parameter.max@),
{
    lemma_pow2_pos(149);
    lemma_ends_denormalize(parameter, normalized@);
    if Number::zero().less(normalized@) && normalized@.less(Number::whole(1)) {
        lemma_interpolated(parameter, normalized, normalized);
        crate::number::law_clamped_is_within(
            parameter.interpolated(normalized@),
            parameter.min@,
            parameter.max@,
        );
    }
}

/// Zero on the normalized scale is the minimum and one the maximum.
pub proof fn law_zero_and_one_denormalize_to_the_range_ends(parameter: ParameterState)
    requires
        parameter.valid(),
    ensures
        parameter.denormalize(Number::zero()).equals(parameter.min@),
        parameter.denormalize(Number::whole(1)).equals(parameter.max@),
{
    lemma_pow2_pos(149);
    lemma_ends_denormalize(parameter, Number::zero());
    lemma_ends_denormalize(parameter, Number::whole(1));
}

/// A larger normalized value does not convert to a smaller plain value.
pub proof fn law_denormalizing_is_monotone(parameter: ParameterState, low: Sample, high: Sample)
    requires
        parameter.valid(),
        low@.at_most(high@),
    ensures
        parameter.denormalize(low@).at_most(parameter.denormalize(high@)),
{
    lemma_pow2_pos(149);
    law_denormalized_is_in_range(parameter, low);
    law_denormalized_is_in_range(parameter, high);
    lemma_ends_denormalize(parameter, low@);
    lemma_ends_denormalize(parameter, high@);
    if Number::zero().less(low@) && high@.less(Number::whole(1)) {
        lemma_interpolated(parameter, low, high);
        crate::number::law_clamped_is_monotone(
            parameter.interpolated(low@),
            parameter.interpolated(high@),
            parameter.min@,
            parameter.max@,
        );
    }
}

/// Whether converting `normalized` to a plain value needs no rounding.
pub open spec fn denormalizes_exactly(parameter: ParameterState, normalized: Number) -> bool {
    let share = normalized.times(parameter.span());
    &&& share.is_finite()
    &&& share.units() * pow2(149) == normalized.units() * parameter.span().units()
    &&& parameter.denormalize(normalized).units() == parameter.min@.units() + share.units()
}

/// A normalized value whose plain value needs no rounding converts back to itself.
pub proof fn law_exact_conversion_comes_back(parameter: ParameterState, normalized: Sample)
    requires
        parameter.valid(),
        parameter.span().is_finite(),
        normalized@.within(Number::zero(), Number::whole(1)),
        denormalizes_exactly(parameter, normalized@),
    ensures
        parameter.normalize(parameter.denormalize(normalized@)).equals(normalized@),
{
    let share = normalized@.times(parameter.span());
    let value = parameter.denormalize(normalized@);
    lemma_scale(parameter);
    lemma_pow2_pos(149);
    lemma_pow2_pos(277);
    normalized.law_is_representable();
    parameter.min.law_is_representable();
    parameter.max.law_is_representable();
    law_denormalized_is_in_range(parameter, normalized);
    lemma_share_of_width(parameter, normalized);
    crate::number::law_exact_sum(value, parameter.min@.negated(), share);
    crate::number::law_exact_quotient(
        value.minus(parameter.min@),
        parameter.span(),
        normalized@,
    );
}

/// The share `w` of a width `s`, computed by way of the quotient `q` of a distance `d` that was
/// rounded from `x`, is hardly off from `x`.
proof fn lemma_share_error(x: int, d: int, s: int, q: int, w: int, p: int, l: int)
    requires
        0 <= x <= 2 * l,
        0 <= d,
        0 < s <= 4 * l,
        0 <= q,
        0 <= w,
        p >= 0x1000_0000_0000_0000,
        SIGNIFICAND_LIMIT * crate::number::gap(d, x) <= x,
        2 * crate::number::gap(d * p, s * q) <= s || SIGNIFICAND_LIMIT * crate::number::gap(
            d * p,
            s * q,
        ) <= d * p,
        2 * crate::number::gap(q * s, p * w) <= p || SIGNIFICAND_LIMIT * crate::number::gap(
            q * s,
            p * w,
        ) <= q * s,
    ensures
        4 * (SIGNIFICAND_LIMIT * crate::number::gap(w, x)) <= 25 * l,
{
    let (a, b, c, e, f) = (p * x, p * d, q * s, p * w, p * l);
    lemma_mul_is_commutative(d, p);
    lemma_mul_is_commutative(s, q);
    lemma_mul_is_commutative(p, crate::number::gap(d, x));
    assert(crate::number::gap(b, a) == p * crate::number::gap(d, x) && crate::number::gap(e, a) == p
        * crate::number::gap(w, x)) by {
        lemma_mul_is_distributive_sub(p, d, x);
        lemma_mul_is_distributive_sub(p, x, d);
        lemma_mul_is_distributive_sub(p, w, x);
        lemma_mul_is_distributive_sub(p, x, w);
        assert(d <= x ==> b <= a) by (nonlinear_arith)
            requires
                a == p * x,
                b == p * d,
                p > 0,
        ;
        assert(d >= x ==> b >= a) by (nonlinear_arith)
            requires
                a == p * x,
                b == p * d,
                p > 0,
        ;
        assert(w <= x ==> e <= a) by (nonlinear_arith)
            requires
                a == p * x,
                e == p * w,
                p > 0,
        ;
        assert(w >= x ==> e >= a) by (nonlinear_arith)
            requires
                a == p * x,
                e == p * w,
                p > 0,
        ;
    }
    assert(SIGNIFICAND_LIMIT * crate::number::gap(b, a) <= a) by (nonlinear_arith)
        requires
            SIGNIFICAND_LIMIT * crate::number::gap(d, x) <= x,
            crate::number::gap(b, a) == p * crate::number::gap(d, x),
            a == p * x,
            p > 0,
    ;
    assert(a <= 2 * f) by (nonlinear_arith)
        requires
            a == p * x,
            f == p * l,
            x <= 2 * l,
            p > 0,
    ;
    assert(f >= 0x1000_0000_0000_0000 * l) by (nonlinear_arith)
        requires
            f == p * l,
            p >= 0x1000_0000_0000_0000,
            l >= 0,
    ;
    assert(a >= 0) by (nonlinear_arith)
        requires
            a == p * x,
            p > 0,
            x >= 0,
    ;
    if 4 * (SIGNIFICAND_LIMIT * crate::number::gap(e, a)) <= 25 * f {
        assert(4 * (SIGNIFICAND_LIMIT * crate::number::gap(w, x)) <= 25 * l) by (nonlinear_arith)
            requires
                4 * (SIGNIFICAND_LIMIT * crate::number::gap(e, a)) <= 25 * f,
                crate::number::gap(e, a) == p * crate::number::gap(w, x),
                f == p * l,
                p > 0,
        ;
    } else if l < 0x40_0000 {
        assert(d == x);
        assert(a <= (0x80_0000 - 2) * p) by (nonlinear_arith)
            requires
                a == p * x,
                x <= 0x80_0000 - 2,
                p > 0,
        ;
        assert(crate::number::gap(e, a) < p);
        assert(crate::number::gap(w, x) == 0) by (nonlinear_arith)
            requires
                crate::number::gap(e, a) == p * crate::number::gap(w, x),
                crate::number::gap(e, a) < p,
                p > 0,
                crate::number::gap(w, x) >= 0,
        ;
    } else {
        assert(0x40_0000 * p <= f) by (nonlinear_arith)
            requires
                f == p * l,
                l >= 0x40_0000,
                p > 0,
        ;
        assert(0x4000_0000 * s <= f);
        assert(SIGNIFICAND_LIMIT * b <= SIGNIFICAND_LIMIT * a + a);
        assert(64 * b <= 64 * a + f);
        assert(64 * (SIGNIFICAND_LIMIT * crate::number::gap(b, c)) <= 64 * b + f);
        assert(64 * c <= 64 * b + 3 * f);
        if 2 * crate::number::gap(c, e) <= p {
            assert(SIGNIFICAND_LIMIT * crate::number::gap(c, e) <= 2 * f);
        }
        assert(crate::number::gap(e, a) <= crate::number::gap(b, a) + crate::number::gap(b, c)
            + crate::number::gap(c, e));
        assert(64 * (SIGNIFICAND_LIMIT * crate::number::gap(c, e)) <= 132 * f);
        assert(SIGNIFICAND_LIMIT * crate::number::gap(e, a) <= SIGNIFICAND_LIMIT
            * crate::number::gap(b, a) + SIGNIFICAND_LIMIT * crate::number::gap(b, c)
            + SIGNIFICAND_LIMIT * crate::number::gap(c, e));
        assert(64 * (SIGNIFICAND_LIMIT * crate::number::gap(e, a)) <= 400 * f);
        assert(false);
    }
}

/// Where the quotient of two rounded distances is one, the distances `x` and `t` hardly differ.
proof fn lemma_whole_share_error(x: int, t: int, d: int, s: int, p: int, l: int)
    requires
        0 <= x <= t <= 2 * l,
        0 <= d,
        0 < s,
        p >= 0x1000_0000_0000_0000,
        SIGNIFICAND_LIMIT * crate::number::gap(d, x) <= x,
        SIGNIFICAND_LIMIT * crate::number::gap(s, t) <= t,
        2 * crate::number::gap(d * p, s * p) <= s || SIGNIFICAND_LIMIT * crate::number::gap(
            d * p,
            s * p,
        ) <= d * p,
    ensures
        4 * (SIGNIFICAND_LIMIT * (t - x)) <= 25 * l,
{
    assert(SIGNIFICAND_LIMIT * (s - d) <= d + 1) by {
        if s > d {
            assert(crate::number::gap(d * p, s * p) == (s - d) * p) by (nonlinear_arith)
                requires
                    s > d,
                    p > 0,
                    crate::number::gap(d * p, s * p) == s * p - d * p || crate::number::gap(
                        d * p,
                        s * p,
                    ) == d * p - s * p,
                    crate::number::gap(d * p, s * p) >= 0,
            ;
            if 2 * crate::number::gap(d * p, s * p) <= s {
                assert(2 * (s - d) * 0x1000_0000_0000_0000 <= s) by (nonlinear_arith)
                    requires
                        2 * ((s - d) * p) <= s,
                        s > d,
                        p >= 0x1000_0000_0000_0000,
                ;
            } else {
                assert(SIGNIFICAND_LIMIT * (s - d) <= d) by (nonlinear_arith)
                    requires
                        SIGNIFICAND_LIMIT * ((s - d) * p) <= d * p,
                        p > 0,
                ;
            }
        }
    }
}

/// The quotient of two rounded distances is hardly off from that of the exact ones.
proof fn lemma_quotient_error(x: int, t: int, d: int, s: int, q: int, p: int)
    requires
        0 <= x <= t,
        0 <= d,
        0 < s,
        0 <= q <= p,
        p >= 0x1000_0000_0000_0000,
        SIGNIFICAND_LIMIT * crate::number::gap(d, x) <= x,
        SIGNIFICAND_LIMIT * crate::number::gap(s, t) <= t,
        2 * crate::number::gap(d * p, s * q) <= s || SIGNIFICAND_LIMIT * crate::number::gap(
            d * p,
            s * q,
        ) <= d * p,
    ensures
        0x40_0000 * crate::number::gap(q * t, x * p) <= t * p,
{
    let (qt, qs, dp, xp, tp) = (q * t, q * s, d * p, x * p, t * p);
    let (u, v, w) = (
        crate::number::gap(qt, qs),
        crate::number::gap(dp, qs),
        crate::number::gap(dp, xp),
    );
    let (first, last) = (crate::number::gap(s, t), crate::number::gap(d, x));
    lemma_mul_is_commutative(s, q);
    assert(u == q * first) by (nonlinear_arith)
        requires
            q >= 0,
            qt == q * t,
            qs == q * s,
            first == s - t || first == t - s,
            first >= 0,
            u == qt - qs || u == qs - qt,
            u >= 0,
    ;
    assert(w == last * p) by (nonlinear_arith)
        requires
            p > 0,
            dp == d * p,
            xp == x * p,
            last == d - x || last == x - d,
            last >= 0,
            w == dp - xp || w == xp - dp,
            w >= 0,
    ;
    assert(0x100_0000 * u <= tp) by (nonlinear_arith)
        requires
            u == q * first,
            0x100_0000 * first <= t,
            first >= 0,
            0 <= q <= p,
            tp == t * p,
    ;
    assert(0x100_0000 * w <= xp && xp <= tp && xp >= 0) by (nonlinear_arith)
        requires
            w == last * p,
            0x100_0000 * last <= x,
            0 <= x <= t,
            xp == x * p,
            tp == t * p,
            p > 0,
    ;
    assert(tp >= 0x1000_0000_0000_0000 * t) by (nonlinear_arith)
        requires
            tp == t * p,
            p >= 0x1000_0000_0000_0000,
            t >= 0,
    ;
    assert(s <= 2 * t);
    assert(2 * v <= s || 0x100_0000 * v <= dp);
    assert(crate::number::gap(qt, xp) <= u + v + w);
}

/// What becomes of a value between `low` and `high` that is converted to its share of the width
/// and back: the quotient lies from zero to one and the share is hardly off.
proof fn lemma_there_and_back(low: Number, high: Number, value: Number, l: int)
    requires
        low.is_finite(),
        high.is_finite(),
        value.is_finite(),
        low.representable(),
        high.representable(),
        value.representable(),
        low.less(high),
        value.within(low, high),
        high.minus(low).is_finite(),
        -l <= low.units() <= l,
        -l <= high.units() <= l,
    ensures
        ({
            let quotient = value.minus(low).over(high.minus(low));
            let share = quotient.times(high.minus(low));
            &&& quotient.is_finite()
            &&& 0 <= quotient.units() <= pow2(149)
            &&& share.is_finite()
            &&& quotient.units() == 0 ==> share.units() == 0
            &&& 0x40_0000 * crate::number::gap(
                quotient.units() * (high.units() - low.units()),
                (value.units() - low.units()) * pow2(149),
            ) <= (high.units() - low.units()) * pow2(149)
            &&& quotient.units() == pow2(149) ==> 4 * (SIGNIFICAND_LIMIT * (high.units()
                - value.units())) <= 25 * l
            &&& 4 * (SIGNIFICAND_LIMIT * crate::number::gap(
                share.units(),
                value.units() - low.units(),
            )) <= 25 * l
        }),
{
    let (one, p) = (Number::whole(1), pow2(149) as int);
    let width = high.minus(low);
    let distance = value.minus(low);
    let quotient = distance.over(width);
    let share = quotient.times(width);
    let x = value.units() - low.units();
    let t = high.units() - low.units();
    lemma2_to64();
    lemma_pow2_pos(149);
    lemma_pow2_pos(277);
    lemma_pow2_strictly_increases(60, 149);
    lemma2_to64_rest();
    assert(1 * pow2(149) == pow2(149));
    crate::number::law_minus_is_positive(high, low);
    crate::number::law_minus_is_positive(value, low);
    crate::number::law_minus_self(low);
    crate::number::law_plus_is_monotone(low, value, low.negated());
    crate::number::law_plus_is_monotone(value, high, low.negated());
    crate::number::law_over_is_monotone(Number::zero(), distance, width);
    crate::number::law_over_is_monotone(distance, width, width);
    crate::number::law_over_self(width);
    assert(Number::zero().over(width).units() == 0) by {
        crate::rounding::lemma_nearest_zero(width->magnitude);
        assert(0 * pow2(149) == 0);
    }
    lemma_pow2_strictly_increases(149, 277);
    assert(quotient.is_finite());
    crate::number::law_times_is_not_negative(quotient, width);
    crate::number::law_times_is_monotone(quotient, one, width);
    crate::number::law_times_commutes(one, width);
    crate::number::law_times_one(width);
    assert(share.is_finite());
    crate::number::law_plus_error(high, low.negated());
    crate::number::law_plus_error(value, low.negated());
    crate::number::law_over_error(distance, width);
    crate::number::law_times_error(quotient, width);
    lemma_share_error(
        x,
        distance.units(),
        width.units(),
        quotient.units(),
        share.units(),
        p,
        l,
    );
    lemma_quotient_error(x, t, distance.units(), width.units(), quotient.units(), p);
    if quotient.units() == 0 {
        crate::number::law_times_is_monotone(quotient, Number::zero(), width);
        crate::number::law_times_commutes(Number::zero(), width);
        crate::number::law_times_zero(width);
    }
    if quotient.units() == p {
        lemma_whole_share_error(x, t, distance.units(), width.units(), p, l);
    }
}

impl ParameterState {
    /// The magnitude of the larger end of the range, in units.
    pub open spec fn reach(self) -> int {
        let (low, high) = (
            crate::number::gap(self.min@.units(), 0),
            crate::number::gap(self.max@.units(), 0),
        );
        if low >= high {
            low
        } else {
            high
        }
    }
}

/// Where the quotient is one of the ends, so is the value that it converts back to.
proof fn lemma_normalized_is_quotient(parameter: ParameterState, value: Number)
    requires
        parameter.valid(),
        ({
            let quotient = parameter.scaled(value).minus(parameter.scaled(parameter.min@)).over(
                parameter.width(),
            );
            quotient.is_finite() && 0 <= quotient.units() <= pow2(149)
        }),
    ensures
        ({
            let quotient = parameter.scaled(value).minus(parameter.scaled(parameter.min@)).over(
                parameter.width(),
            );
            &&& parameter.normalize(value) == quotient
            &&& quotient.units() == 0 ==> {
                &&& parameter.denormalize(quotient).is_finite()
                &&& parameter.denormalize(quotient).equals(parameter.min@)
            }
            &&& quotient.units() == pow2(149) ==> {
                &&& parameter.denormalize(quotient).is_finite()
                &&& parameter.denormalize(quotient).equals(parameter.max@)
            }
            &&& 0 < quotient.units() < pow2(149) ==> parameter.denormalize(quotient)
                == parameter.interpolated(quotient).clamped(parameter.min@, parameter.max@)
        }),
{
    let quotient = parameter.scaled(value).minus(parameter.scaled(parameter.min@)).over(
        parameter.width(),
    );
    lemma_pow2_pos(149);
    assert(1 * pow2(149) == pow2(149));
    lemma_ends_denormalize(parameter, quotient);
}

proof fn lemma_narrow_conversion_comes_back(parameter: ParameterState, value: Sample)
    requires
        parameter.valid(),
        parameter.span().is_finite(),
        value@.is_finite(),
        value@.within(parameter.min@, parameter.max@),
    ensures
        parameter.denormalize(parameter.normalize(value@)).is_finite(),
        0x20_0000 * crate::number::gap(
            parameter.denormalize(parameter.normalize(value@)).units(),
            value@.units(),
        ) <= parameter.reach(),
{
    let (min, max, l) = (parameter.min, parameter.max, parameter.reach());
    let quotient = value@.minus(min@).over(parameter.span());
    let share = quotient.times(parameter.span());
    let x = value@.units() - min@.units();
    let back = parameter.denormalize(parameter.normalize(value@));
    min.law_is_representable();
    max.law_is_representable();
    value.law_is_representable();
    lemma_there_and_back(min@, max@, value@, l);
    lemma_normalized_is_quotient(parameter, value@);
    if 0 < quotient.units() < pow2(149) {
        crate::number::law_clamped_sum_error(min@, share, min@, max@, value@.units());
        let sum = min@.units() + share.units();
        let off = crate::number::gap(share.units(), x);
        assert(crate::number::gap(sum, value@.units()) == off);
        assert(crate::number::gap(sum, 0) <= l + off);
        assert(SIGNIFICAND_LIMIT * crate::number::gap(back.units(), value@.units())
            <= SIGNIFICAND_LIMIT * off + (l + off));
    } else {
        assert(4 * (SIGNIFICAND_LIMIT * crate::number::gap(back.units(), value@.units())) <= 25
            * l);
    }
}

proof fn lemma_wide_conversion_comes_back(parameter: ParameterState, value: Sample)
    requires
        parameter.valid(),
        !parameter.span().is_finite(),
        value@.is_finite(),
        value@.within(parameter.min@, parameter.max@),
    ensures
        parameter.denormalize(parameter.normalize(value@)).is_finite(),
        0x20_0000 * crate::number::gap(
            parameter.denormalize(parameter.normalize(value@)).units(),
            value@.units(),
        ) <= parameter.reach(),
{
    let (min, max, l) = (parameter.min, parameter.max, parameter.reach());
    let (low, high, mid) = (min@.halved(), max@.halved(), value@.halved());
    let half = (l + 1) / 2;
    let most = (SIGNIFICAND_LIMIT - 1) * pow2(252);
    lemma_scale(parameter);
    lemma_scaled(parameter, min, value);
    lemma_scaled(parameter, value, max);
    min.law_is_representable();
    max.law_is_representable();
    min.lemma_halved();
    max.lemma_halved();
    value.lemma_halved();
    let quotient = mid.minus(low).over(parameter.width());
    let share = quotient.times(parameter.width());
    let point = low.plus(share);
    let x = mid.units() - low.units();
    let back = parameter.denormalize(parameter.normalize(value@));
    lemma2_to64();
    lemma_pow2_strictly_increases(32, 252);
    lemma_pow2_unfold(253);
    assert((SIGNIFICAND_LIMIT - 1) * pow2(253) == 2 * most) by (nonlinear_arith)
        requires
            pow2(253) == 2 * pow2(252),
            most == (SIGNIFICAND_LIMIT - 1) * pow2(252),
    ;
    assert(most >= 0x1_0000_0000) by (nonlinear_arith)
        requires
            most == (SIGNIFICAND_LIMIT - 1) * pow2(252),
            pow2(252) >= 0x1_0000_0000,
    ;
    assert(max@.units() - min@.units() > 2 * most) by {
        if max@.units() - min@.units() <= 2 * most {
            crate::number::law_sum_in_range_is_finite(max@, min@.negated());
        }
    }
    assert(l >= most);
    assert(half <= most + 1);
    crate::number::law_minus_is_positive(high, low);
    lemma_there_and_back(low, high, mid, half);
    lemma_normalized_is_quotient(parameter, value@);
    if 0 < quotient.units() < pow2(149) {
        let off = crate::number::gap(share.units(), x);
        let sum = low.units() + share.units();
        assert(crate::number::gap(sum, mid.units()) == off);
        assert(off <= half);
        crate::number::law_sum_in_range_is_finite(low, share);
        crate::number::law_plus_error(low, share);
        crate::number::law_sum_is_representable(low, share);
        crate::number::law_clamped_double_error(point, min@, max@, value@.units());
        let near = crate::number::gap(point.units(), mid.units());
        assert(crate::number::gap(sum, 0) <= half + off);
        assert(SIGNIFICAND_LIMIT * near <= SIGNIFICAND_LIMIT * off + (half + off));
        assert(crate::number::gap(back.units(), value@.units()) <= 2 * near + 1);
    } else {
        let near = if quotient.units() == 0 {
            x
        } else {
            high.units() - mid.units()
        };
        assert(4 * (SIGNIFICAND_LIMIT * near) <= 25 * half);
        assert(crate::number::gap(back.units(), value@.units()) <= 2 * near + 2);
    }
}

/// The reach of a range is the magnitude of its larger end.
pub proof fn law_reach_is_that_of_the_larger_end(parameter: ParameterState)
    ensures
        -parameter.reach() <= parameter.min@.units() <= parameter.reach(),
        -parameter.reach() <= parameter.max@.units() <= parameter.reach(),
        parameter.reach() == parameter.min@.units() || parameter.reach() == -parameter.min@.units()
            || parameter.reach() == parameter.max@.units() || parameter.reach()
            == -parameter.max@.units(),
{
}

/// A plain value in the range that is converted to the normalized scale and back is off by at most
/// one part in two to the power 21 of the larger end of the range, which is four units in the last
/// place of one.
pub proof fn law_conversion_comes_back_up_to_rounding(parameter: ParameterState, value: Sample)
    requires
        parameter.valid(),
        value@.within(parameter.min@, parameter.max@),
    ensures
        parameter.denormalize(parameter.normalize(value@)).is_finite(),
        0x20_0000 * crate::number::gap(
            parameter.denormalize(parameter.normalize(value@)).units(),
            value@.units(),
        ) <= parameter.reach(),
{
    value.lemma_bounded_is_finite(parameter.min, parameter.max);
    if parameter.span().is_finite() {
        lemma_narrow_conversion_comes_back(parameter, value);
    } else {
        lemma_wide_conversion_comes_back(parameter, value);
    }
}

/// Converting to the normalized scale is linear: the normalized value times the width of the range
/// is the distance from the minimum, within one part in two to the power 21 of the width.
pub proof fn law_normalizing_is_linear(parameter: ParameterState, value: Sample)
    requires
        parameter.valid(),
        value@ is Finite,
        parameter.min@.units() <= value@.units() <= parameter.max@.units(),
    ensures
        ({
            let width = parameter.max@.units() - parameter.min@.units();
            let normalized = parameter.normalize(value@);
            &&& normalized is Finite
            &&& 0x20_0000 * crate::number::gap(
                normalized.units() * width,
                (value@.units() - parameter.min@.units()) * pow2(149),
            ) <= width * pow2(149)
        }),
{
    let (min, max, l) = (parameter.min, parameter.max, parameter.reach());
    let (t, x, p) = (
        max@.units() - min@.units(),
        value@.units() - min@.units(),
        pow2(149) as int,
    );
    lemma_pow2_pos(149);
    lemma_scale(parameter);
    lemma_scaled(parameter, min, value);
    lemma_scaled(parameter, value, max);
    min.law_is_representable();
    max.law_is_representable();
    value.law_is_representable();
    if parameter.span().is_finite() {
        lemma_there_and_back(min@, max@, value@, l);
        lemma_normalized_is_quotient(parameter, value@);
    } else {
        let (low, high, mid) = (min@.halved(), max@.halved(), value@.halved());
        lemma_wide_range(parameter);
        min.lemma_halved();
        max.lemma_halved();
        value.lemma_halved();
        crate::number::law_minus_is_positive(high, low);
        lemma_there_and_back(low, high, mid, (l + 1) / 2);
        lemma_normalized_is_quotient(parameter, value@);
        let q = parameter.normalize(value@).units();
        let (half, part) = (high.units() - low.units(), mid.units() - low.units());
        assert(crate::number::gap(q * t, x * p) <= 2 * crate::number::gap(q * half, part * p) + 4
            * p) by {
            let (a, b) = (t - 2 * half, x - 2 * part);
            assert(q * t == 2 * (q * half) + q * a && x * p == 2 * (part * p) + b * p)
                by (nonlinear_arith)
                requires
                    t == 2 * half + a,
                    x == 2 * part + b,
            ;
            assert(-(2 * p) <= q * a <= 2 * p && -(2 * p) <= b * p <= 2 * p) by (nonlinear_arith)
                requires
                    -2 <= a <= 2,
                    -2 <= b <= 2,
                    0 <= q <= p,
            ;
        }
        let (tp, hp) = (t * p, half * p);
        assert(2 * hp <= tp + 2 * p) by (nonlinear_arith)
            requires
                2 * half <= t + 2,
                hp == half * p,
                tp == t * p,
                p > 0,
        ;
        assert(tp >= 0x1_0000_0000 * p) by (nonlinear_arith)
            requires
                t >= 0x1_0000_0000,
                tp == t * p,
                p > 0,
        ;
    }
}

/// A range whose width overflows is wide.
proof fn lemma_wide_range(parameter: ParameterState)
    requires
        parameter.valid(),
        !parameter.span().is_finite(),
    ensures
        ({
            let most = (SIGNIFICAND_LIMIT - 1) * pow2(252);
            &&& most >= 0x1_0000_0000
            &&& (SIGNIFICAND_LIMIT - 1) * pow2(253) == 2 * most
            &&& parameter.max@.units() - parameter.min@.units() > 2 * most
            &&& parameter.max@.units() <= 2 * most + 1
            &&& parameter.min@.units() < 0
            &&& parameter.reach() >= most
        }),
{
    let (min, max) = (parameter.min, parameter.max);
    let most = (SIGNIFICAND_LIMIT - 1) * pow2(252);
    lemma2_to64();
    lemma_pow2_strictly_increases(32, 252);
    lemma_pow2_unfold(253);
    min.lemma_halved();
    max.lemma_halved();
    assert((SIGNIFICAND_LIMIT - 1) * pow2(253) == 2 * most) by (nonlinear_arith)
        requires
            pow2(253) == 2 * pow2(252),
            most == (SIGNIFICAND_LIMIT - 1) * pow2(252),
    ;
    assert(most >= 0x1_0000_0000) by (nonlinear_arith)
        requires
            most == (SIGNIFICAND_LIMIT - 1) * pow2(252),
            pow2(252) >= 0x1_0000_0000,
    ;
    if max@.units() - min@.units() <= 2 * most {
        crate::number::law_sum_in_range_is_finite(max@, min@.negated());
    }
    let p = (max.bits % 0x8000_0000) as nat;
    crate::sample::lemma_pattern_monotone(p, 0x7f7f_ffff);
    assert(crate::rounding::pattern_magnitude(0x7f7f_ffff) == (SIGNIFICAND_LIMIT - 1) * pow2(253));
}

/// The error of a point at the fraction `n` of a width that was rounded from `t` to `s`.
proof fn lemma_point_error(m: int, t: int, s: int, n: int, w: int, p: int, l: int)
    requires
        0 < t <= 2 * l,
        -l <= m <= l,
        -l <= m + t <= l,
        0 < s,
        0 <= n <= p,
        0 <= w <= s,
        0 < p,
        SIGNIFICAND_LIMIT * crate::number::gap(s, t) <= t,
        2 * crate::number::gap(n * s, p * w) <= p || SIGNIFICAND_LIMIT * crate::number::gap(
            n * s,
            p * w,
        ) <= n * s,
    ensures
        2 * (SIGNIFICAND_LIMIT * crate::number::gap(p * (m + w), p * m + n * t)) <= 9 * (p * l)
            + SIGNIFICAND_LIMIT * p,
        2 * crate::number::gap(m + w, 0) <= 3 * l,
{
    let (ns, nt, pw, pl) = (n * s, n * t, p * w, p * l);
    let (u, v) = (crate::number::gap(ns, pw), crate::number::gap(ns, nt));
    let off = crate::number::gap(s, t);
    assert(p * (m + w) == p * m + pw) by (nonlinear_arith)
        requires
            pw == p * w,
    ;
    assert(v == n * off) by (nonlinear_arith)
        requires
            n >= 0,
            ns == n * s,
            nt == n * t,
            off == s - t || off == t - s,
            off >= 0,
            v == ns - nt || v == nt - ns,
            v >= 0,
    ;
    assert(0x100_0000 * off <= 2 * l);
    assert(0x100_0000 * v <= 2 * pl) by (nonlinear_arith)
        requires
            v == n * off,
            0x100_0000 * off <= 2 * l,
            off >= 0,
            0 <= n <= p,
            pl == p * l,
    ;
    assert(8 * s <= 17 * l);
    assert(8 * ns <= 17 * pl) by (nonlinear_arith)
        requires
            ns == n * s,
            8 * s <= 17 * l,
            0 < s,
            0 <= n <= p,
            pl == p * l,
    ;
    assert(pl >= 0) by (nonlinear_arith)
        requires
            pl == p * l,
            p > 0,
            l >= 0,
    ;
    assert(2 * (0x100_0000 * u) <= 5 * pl + 0x100_0000 * p);
    assert(crate::number::gap(p * (m + w), p * m + nt) <= u + v);
}

/// Converting from the normalized scale is linear: the plain value is the minimum plus the
/// normalized share of the width of the range, within one part in two to the power 21 of the larger
/// end of the range, and one unit.
pub proof fn law_denormalizing_is_linear(
    parameter: ParameterState,
    normalized: Sample,
    reach: int,
)
    requires
        parameter.valid(),
        normalized@ is Finite,
        0 <= normalized@.units() <= pow2(149),
        -reach <= parameter.min@.units() && parameter.max@.units() <= reach,
    ensures
        ({
            let width = parameter.max@.units() - parameter.min@.units();
            let value = parameter.denormalize(normalized@);
            &&& value is Finite
            &&& 0x20_0000 * crate::number::gap(
                pow2(149) * value.units(),
                pow2(149) * parameter.min@.units() + normalized@.units() * width,
            ) <= pow2(149) * reach + 0x20_0000 * pow2(149)
        }),
{
    lemma_denormalizing_is_linear(parameter, normalized);
    lemma_pow2_pos(149);
    assert(pow2(149) * parameter.reach() <= pow2(149) * reach) by (nonlinear_arith)
        requires
            parameter.reach() <= reach,
            pow2(149) > 0,
    ;
}

proof fn lemma_denormalizing_is_linear(parameter: ParameterState, normalized: Sample)
    requires
        parameter.valid(),
        normalized@ is Finite,
        0 <= normalized@.units() <= pow2(149),
    ensures
        ({
            let width = parameter.max@.units() - parameter.min@.units();
            let value = parameter.denormalize(normalized@);
            &&& value is Finite
            &&& 0x20_0000 * crate::number::gap(
                pow2(149) * value.units(),
                pow2(149) * parameter.min@.units() + normalized@.units() * width,
            ) <= pow2(149) * parameter.reach() + 0x20_0000 * pow2(149)
        }),
{
    let (min, max, l) = (parameter.min, parameter.max, parameter.reach());
    let (m, t, n, p) = (
        min@.units(),
        max@.units() - min@.units(),
        normalized@.units(),
        pow2(149) as int,
    );
    let value = parameter.denormalize(normalized@);
    lemma_pow2_pos(149);
    assert(1 * pow2(149) == pow2(149));
    lemma_scale(parameter);
    min.law_is_representable();
    max.law_is_representable();
    lemma_ends_denormalize(parameter, normalized@);
    assert(p * l >= 0) by (nonlinear_arith)
        requires
            p >= 0,
            l >= 0,
    ;
    assert(p * max@.units() == p * m + p * t) by (nonlinear_arith)
        requires
            max@.units() == m + t,
    ;
    if 0 < n < p {
        assert(0 <= n * t <= p * t) by (nonlinear_arith)
            requires
                0 < n < p,
                t > 0,
        ;
        let width = parameter.width();
        let share = normalized@.times(width);
        lemma_share_of_width(parameter, normalized);
        crate::number::law_times_error(normalized@, width);
        assert(n * width.units() >= 0) by (nonlinear_arith)
            requires
                n >= 0,
                width.units() >= 0,
        ;
        if parameter.span().is_finite() {
            crate::number::law_plus_error(max@, min@.negated());
            lemma_point_error(m, t, width.units(), n, share.units(), p, l);
            crate::number::law_clamped_sum_error_on_a_scale(
                min@,
                share,
                min@,
                max@,
                p,
                p * m + n * t,
            );
            let sum = m + share.units();
            assert(2 * (p * crate::number::gap(sum, 0)) <= 3 * (p * l)) by (nonlinear_arith)
                requires
                    2 * crate::number::gap(sum, 0) <= 3 * l,
                    p > 0,
            ;
        } else {
            lemma_wide_denormalizing(parameter, normalized);
        }
    } else if n == 0 {
        assert(n * t == 0) by (nonlinear_arith)
            requires
                n == 0,
        ;
    }
}

/// The same where the width of the range overflows.
proof fn lemma_wide_denormalizing(parameter: ParameterState, normalized: Sample)
    requires
        parameter.valid(),
        !parameter.span().is_finite(),
        normalized@ is Finite,
        0 < normalized@.units() < pow2(149),
    ensures
        ({
            let width = parameter.max@.units() - parameter.min@.units();
            let value = parameter.denormalize(normalized@);
            &&& value is Finite
            &&& 0x20_0000 * crate::number::gap(
                pow2(149) * value.units(),
                pow2(149) * parameter.min@.units() + normalized@.units() * width,
            ) <= pow2(149) * parameter.reach() + 0x20_0000 * pow2(149)
        }),
{
    let (min, max, l) = (parameter.min, parameter.max, parameter.reach());
    let (m, t, n, p) = (
        min@.units(),
        max@.units() - min@.units(),
        normalized@.units(),
        pow2(149) as int,
    );
    let value = parameter.denormalize(normalized@);
    let (low, high, width) = (min@.halved(), max@.halved(), parameter.width());
    let share = normalized@.times(width);
    let point = low.plus(share);
    let (h, s, w) = (low.units(), width.units(), share.units());
    let part = high.units() - h;
    let half = (l + 1) / 2;
    lemma_pow2_pos(149);
    assert(1 * pow2(149) == pow2(149));
    lemma_scale(parameter);
    lemma_wide_range(parameter);
    min.law_is_representable();
    max.law_is_representable();
    min.lemma_halved();
    max.lemma_halved();
    lemma_share_of_width(parameter, normalized);
    crate::number::law_times_error(normalized@, width);
    assert(n * s >= 0) by (nonlinear_arith)
        requires
            n >= 0,
            s >= 0,
    ;
    crate::number::law_plus_error(high, low.negated());
    lemma_point_error(h, part, s, n, w, p, half);
    crate::number::law_sum_in_range_is_finite(low, share);
    crate::number::law_plus_error(low, share);
    crate::number::law_sum_is_representable(low, share);
    // The point, rounded, against the exact one.
    let (sum, o, target) = (h + w, point.units(), p * h + n * part);
    let near = crate::number::gap(o, sum);
    let (u, v) = (crate::number::gap(p * o, p * sum), crate::number::gap(p * sum, target));
    assert(u == p * near) by (nonlinear_arith)
        requires
            p > 0,
            near == o - sum || near == sum - o,
            near >= 0,
            u == p * o - p * sum || u == p * sum - p * o,
            u >= 0,
    ;
    let (pl, ph) = (p * l, p * half);
    assert(2 * (0x100_0000 * u) <= 3 * ph) by (nonlinear_arith)
        requires
            u == p * near,
            2 * (0x100_0000 * near) <= 3 * half,
            ph == p * half,
            p > 0,
    ;
    assert(2 * ph <= pl + p) by (nonlinear_arith)
        requires
            2 * half <= l + 1,
            ph == p * half,
            pl == p * l,
            p > 0,
    ;
    assert(pl >= 0x1_0000_0000 * p) by (nonlinear_arith)
        requires
            l >= 0x1_0000_0000,
            pl == p * l,
            p > 0,
    ;
    // Doubled, against the exact value in the whole range.
    let exact = p * m + n * t;
    let (a, b) = (m - 2 * h, t - 2 * part);
    assert(exact == 2 * target + p * a + n * b) by (nonlinear_arith)
        requires
            exact == p * m + n * t,
            target == p * h + n * part,
            m == 2 * h + a,
            t == 2 * part + b,
    ;
    assert(-p <= p * a <= p && -(2 * p) <= n * b <= 2 * p) by (nonlinear_arith)
        requires
            -1 <= a <= 1,
            -2 <= b <= 2,
            0 < n < p,
    ;
    let twice = 2 * o;
    assert(p * twice == 2 * (p * o)) by (nonlinear_arith)
        requires
            twice == 2 * o,
    ;
    assert(crate::number::gap(p * twice, exact) <= 2 * (u + v) + 3 * p);
    crate::number::law_double_is_exact(point, min@, max@);
    let r = value.units();
    assert(value is Finite);
    assert(0 <= n * t <= p * t) by (nonlinear_arith)
        requires
            0 < n < p,
            t > 0,
    ;
    assert(p * max@.units() == p * m + p * t) by (nonlinear_arith)
        requires
            max@.units() == m + t,
    ;
    assert(r >= twice ==> p * r >= p * twice) by (nonlinear_arith)
        requires
            p > 0,
    ;
    assert(r <= twice ==> p * r <= p * twice) by (nonlinear_arith)
        requires
            p > 0,
    ;
    assert(crate::number::gap(p * r, exact) <= crate::number::gap(p * twice, exact));
}

/// The message of an error is its text with each of its numbers, as it is rendered, in its place.
pub proof fn law_message_shows_every_number<F: Fn(Sample) -> String>(
    error: Error,
    show: F,
    text: Seq<char>,
)
    ensures
        error.described_by(show, text) ==> match error {
            Error::InvalidParameterRange { min, max } => exists|low: String, high: String|
                #![trigger low@, high@]
                {
                    &&& call_ensures(show, (min,), low)
                    &&& call_ensures(show, (max,), high)
                    &&& text =~= "invalid parameter range: min "@ + low@
                        + " must be less than max "@ + high@
                },
            Error::ParameterOutOfRange { value, min, max } => exists|
                at: String,
                low: String,
                high: String,
            |
                #![trigger at@, low@, high@]
                {
                    &&& call_ensures(show, (value,), at)
                    &&& call_ensures(show, (min,), low)
                    &&& call_ensures(show, (max,), high)
                    &&& text =~= "parameter value "@ + at@ + " is outside range "@ + low@ + "..="@
                        + high@
                },
        },
{
}

}
