use crabjuice::parameter::{Error, FloatParameter, ParameterId};
use crabjuice::sample::Sample;

fn sample(x: f32) -> Sample {
    Sample::from_bits(x.to_bits())
}

fn number(x: Sample) -> f32 {
    f32::from_bits(x.to_bits())
}

fn parameter(min: f32, max: f32, default: f32) -> Result<FloatParameter, Error> {
    FloatParameter::new(ParameterId::new("x"), sample(min), sample(max), sample(default))
}

fn shown(error: &Error) -> String {
    error.message(|x: Sample| format!("{}", number(x)))
}

#[test]
fn float_parameter_converts_normalized_values() {
    let mut gain = FloatParameter::new(
        ParameterId::new("gain"),
        sample(-60.0),
        sample(12.0),
        sample(0.0),
    )
    .expect("valid range");

    assert_eq!(gain.normalized_to_value(sample(0.0)), sample(-60.0));
    assert_eq!(gain.normalized_to_value(sample(1.0)), sample(12.0));
    assert_eq!(gain.value_to_normalized(sample(-24.0)), sample(0.5));

    gain.set_normalized_value(sample(0.25));
    assert_eq!(gain.value(), sample(-42.0));

    gain.reset_to_default();
    assert_eq!(gain.value(), sample(0.0));
}

#[test]
fn float_parameter_rejects_invalid_values() {
    assert!(parameter(1.0, 1.0, 1.0).is_err());
    assert!(parameter(0.0, 1.0, 2.0).is_err());
}

#[test]
fn invalid_ranges_are_reported() {
    for (min, max) in [
        (1.0, 1.0),
        (2.0, 1.0),
        (f32::NEG_INFINITY, 1.0),
        (0.0, f32::INFINITY),
    ] {
        assert_eq!(
            parameter(min, max, 0.5).unwrap_err(),
            Error::InvalidParameterRange { min: sample(min), max: sample(max) }
        );
    }
    assert!(matches!(
        parameter(f32::NAN, 1.0, 0.5),
        Err(Error::InvalidParameterRange { .. })
    ));
    assert!(matches!(
        parameter(0.0, f32::NAN, 0.5),
        Err(Error::InvalidParameterRange { .. })
    ));
}

#[test]
fn defaults_outside_the_range_are_reported() {
    for default in [-0.5, 1.5, f32::INFINITY, f32::NEG_INFINITY] {
        assert_eq!(
            parameter(0.0, 1.0, default).unwrap_err(),
            Error::ParameterOutOfRange {
                value: sample(default),
                min: sample(0.0),
                max: sample(1.0),
            }
        );
    }
    assert!(matches!(
        parameter(0.0, 1.0, f32::NAN),
        Err(Error::ParameterOutOfRange { .. })
    ));
    assert!(parameter(0.0, 1.0, 0.0).is_ok());
    assert!(parameter(0.0, 1.0, 1.0).is_ok());
}

#[test]
fn getters_return_what_was_given() {
    let id = ParameterId::new("cutoff");
    let parameter =
        FloatParameter::new(id, sample(20.0), sample(20_000.0), sample(440.0)).unwrap();
    assert_eq!(parameter.id(), id);
    assert_eq!(parameter.id().as_str(), "cutoff");
    assert_eq!(parameter.min(), sample(20.0));
    assert_eq!(parameter.max(), sample(20_000.0));
    assert_eq!(parameter.default(), sample(440.0));
    assert_eq!(parameter.value(), sample(440.0));
    assert_eq!(parameter.clone(), parameter);
    assert_ne!(ParameterId::new("a"), ParameterId::new("b"));
}

#[test]
fn set_value_accepts_the_range_and_nothing_else() {
    let mut parameter = parameter(-1.0, 1.0, 0.25).unwrap();
    for value in [-1.0, -0.0, 0.5, 1.0] {
        assert_eq!(parameter.set_value(sample(value)), Ok(()));
        assert_eq!(parameter.value().to_bits(), value.to_bits());
    }
    for value in [-1.5, 1.5, f32::INFINITY] {
        assert_eq!(
            parameter.set_value(sample(value)),
            Err(Error::ParameterOutOfRange {
                value: sample(value),
                min: sample(-1.0),
                max: sample(1.0),
            })
        );
        assert_eq!(parameter.value(), sample(1.0));
    }
    assert!(parameter.set_value(sample(f32::NAN)).is_err());
    assert_eq!(parameter.value(), sample(1.0));
    parameter.reset_to_default();
    assert_eq!(parameter.value(), sample(0.25));
}

#[test]
fn normalized_values_are_clamped() {
    let mut parameter = parameter(2.0, 4.0, 3.0).unwrap();
    assert_eq!(parameter.normalized_value(), sample(0.5));
    assert_eq!(parameter.value_to_normalized(sample(1.0)), sample(0.0));
    assert_eq!(parameter.value_to_normalized(sample(5.0)), sample(1.0));
    assert_eq!(parameter.value_to_normalized(sample(f32::INFINITY)), sample(1.0));
    assert_eq!(parameter.normalized_to_value(sample(-1.0)), sample(2.0));
    assert_eq!(parameter.normalized_to_value(sample(2.0)), sample(4.0));
    parameter.set_normalized_value(sample(0.75));
    assert_eq!(parameter.value(), sample(3.5));
    assert_eq!(parameter.normalized_value(), sample(0.75));
    assert!(parameter.value_to_normalized(sample(f32::NAN)).is_undefined());
    assert!(parameter.normalized_to_value(sample(f32::NAN)).is_undefined());
}

#[test]
fn conversions_agree_with_the_processor() {
    let ranges = [(0.0f32, 1.0f32), (-60.0, 12.0), (20.0, 20_000.0), (-1.0, 8.940_697e-8)];
    for (min, max) in ranges {
        let parameter = parameter(min, max, min).unwrap();
        for step in -4..=40 {
            let x = min + (max - min) * (step as f32 / 36.0);
            let normalized = ((x - min) / (max - min)).clamp(0.0, 1.0);
            assert_eq!(
                parameter.value_to_normalized(sample(x)).to_bits(),
                normalized.to_bits()
            );
            let n = step as f32 / 36.0;
            let plain = if n <= 0.0 {
                min
            } else if n >= 1.0 {
                max
            } else {
                (min + n * (max - min)).clamp(min, max)
            };
            assert_eq!(parameter.normalized_to_value(sample(n)).to_bits(), plain.to_bits());
        }
    }
}

#[test]
fn conversions_keep_the_order_and_the_minimum() {
    let parameter = parameter(-1.0, 8.940_697e-8, 0.0).unwrap();
    let mut plain = parameter.normalized_to_value(sample(0.0));
    assert_eq!(plain, parameter.min());
    for step in 1..=1000 {
        let next = parameter.normalized_to_value(sample(step as f32 / 1000.0));
        assert!(plain <= next);
        assert!(parameter.min() <= next);
        assert!(parameter.value_to_normalized(plain) <= parameter.value_to_normalized(next));
        plain = next;
    }
}

#[test]
fn plain_values_stay_in_the_range() {
    for (min, max) in [(-1.0, 8.940_697e-8), (-(1.0 + 3.0 * f32::EPSILON), 1.0)] {
        let mut parameter = parameter(min, max, 0.0).unwrap();
        assert_eq!(number(parameter.normalized_to_value(sample(0.0))), min);
        assert_eq!(number(parameter.normalized_to_value(sample(1.0))), max);
        for step in 0..=1000 {
            parameter.set_normalized_value(sample(step as f32 / 1000.0));
            let value = parameter.value();
            assert!(parameter.min() <= value && value <= parameter.max());
            assert_eq!(parameter.set_value(value), Ok(()));
        }
        parameter.set_normalized_value(sample(1.0 - f32::EPSILON / 2.0));
        assert!(parameter.value() <= parameter.max());
    }
}

#[test]
fn a_range_whose_width_overflows_converts_like_any_other() {
    let parameter = parameter(-f32::MAX, f32::MAX, 0.0).unwrap();
    assert_eq!(parameter.value_to_normalized(sample(f32::MAX)), sample(1.0));
    assert_eq!(parameter.value_to_normalized(sample(-f32::MAX)), sample(0.0));
    assert_eq!(parameter.value_to_normalized(sample(f32::INFINITY)), sample(1.0));
    assert_eq!(parameter.value_to_normalized(sample(f32::NEG_INFINITY)), sample(0.0));
    assert_eq!(parameter.value_to_normalized(sample(0.0)), sample(0.5));
    assert_eq!(parameter.value_to_normalized(sample(f32::MAX / 2.0)), sample(0.75));
    assert_eq!(parameter.normalized_to_value(sample(0.0)), sample(-f32::MAX));
    assert_eq!(parameter.normalized_to_value(sample(1.0)), sample(f32::MAX));
    assert_eq!(parameter.normalized_to_value(sample(0.5)), sample(0.0));
    let point = -f32::MAX / 2.0 + 0.75 * f32::MAX;
    assert_eq!(parameter.normalized_to_value(sample(0.75)), sample(point + point));
}

#[test]
fn values_come_back_up_to_rounding() {
    let ranges = [
        (0.0f32, 1.0f32),
        (-60.0, 12.0),
        (20.0, 20_000.0),
        (-1.0, 8.940_697e-8),
        (1.0e30, 1.1e30),
        (-f32::MAX, f32::MAX),
        (-3.0e38, 2.0e38),
        (0.0, 1.0e-44),
        (-2.0e-38, 3.0e-38),
    ];
    for (min, max) in ranges {
        let parameter = parameter(min, max, min).unwrap();
        let reach = f64::from(min).abs().max(f64::from(max).abs());
        for step in 0..=997 {
            let fraction = f64::from(step) / 997.0;
            let value = (f64::from(min) * (1.0 - fraction) + f64::from(max) * fraction) as f32;
            let value = value.clamp(min, max);
            let back = parameter.normalized_to_value(parameter.value_to_normalized(sample(value)));
            let off = (f64::from(number(back)) - f64::from(value)).abs();
            assert!(off <= 4.0 * f64::from(f32::EPSILON) * reach);
        }
    }
}

#[test]
fn errors_describe_themselves() {
    assert_eq!(
        shown(&parameter(1.0, -1.5, 0.0).unwrap_err()),
        "invalid parameter range: min 1 must be less than max -1.5"
    );
    assert_eq!(
        shown(&parameter(0.0, 1.0, 2.5).unwrap_err()),
        "parameter value 2.5 is outside range 0..=1"
    );
    let error = parameter(0.0, 1.0, 2.5).unwrap_err();
    assert_eq!(error.clone(), error);
}

#[test]
fn exact_conversions_come_back() {
    let parameter = parameter(-60.0, 12.0, 0.0).unwrap();
    for step in 0..=64 {
        let normalized = sample(step as f32 / 64.0);
        let plain = parameter.normalized_to_value(normalized);
        assert_eq!(number(plain), -60.0 + 72.0 * (step as f32 / 64.0));
        assert_eq!(parameter.value_to_normalized(plain), normalized);
    }
}

#[test]
fn an_undefined_normalized_value_makes_the_value_undefined() {
    let mut parameter = parameter(0.0, 1.0, 0.5).unwrap();
    parameter.set_normalized_value(sample(f32::NAN));
    assert!(parameter.value().is_undefined());
    parameter.reset_to_default();
    assert_eq!(parameter.value(), sample(0.5));
}

#[test]
fn range_ends_that_are_zero_have_the_sign_of_a_sum() {
    for (min, max) in [(-0.0f32, 2.0f32), (0.0, 2.0), (-2.0, -0.0), (-2.0, 0.0)] {
        let parameter = parameter(min, max, min).unwrap();
        for normalized in [-1.0f32, -0.0, 0.0, 1.0e-45, 0.5, 1.0, 3.0] {
            let expected = min + normalized.clamp(0.0, 1.0) * (max - min);
            let actual = parameter.normalized_to_value(sample(normalized));
            assert_eq!(actual.to_bits(), expected.to_bits());
        }
    }
}

#[test]
fn identifiers_compare_as_their_strings() {
    let names = ["", "a", "b", "aa", "gain", "gains", "caf\u{e9}", "cafe"];
    for left in names {
        assert_eq!(ParameterId::new(left).as_str(), left);
        for right in names {
            assert_eq!(ParameterId::new(left) == ParameterId::new(right), left == right);
        }
    }
}
