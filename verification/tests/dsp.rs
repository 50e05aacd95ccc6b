use crabjuice::audio::{AudioBuffer, AudioProcessor, ProcessContext};
use crabjuice::dsp::chain::{AnyProcessor, ProcessorChain};
use crabjuice::dsp::delay::DelayLine;
use crabjuice::dsp::gain::GainProcessor;
use crabjuice::dsp::low_pass::{decay_exponent, OnePoleLowPass};
use crabjuice::sample::Sample;

fn sample(x: f32) -> Sample {
    Sample::from_bits(x.to_bits())
}

fn number(x: Sample) -> f32 {
    f32::from_bits(x.to_bits())
}

fn samples(values: &[f32]) -> Vec<Sample> {
    values.iter().map(|value| sample(*value)).collect()
}

fn exp(x: Sample) -> Sample {
    sample(number(x).exp())
}

fn process<P: AudioProcessor>(processor: &mut P, buffer: &mut AudioBuffer<Sample>) {
    let mut ctx = ProcessContext::new(buffer, &[]);
    processor.process(&mut ctx);
}

fn mono(values: &[f32]) -> AudioBuffer<Sample> {
    let mut buffer = AudioBuffer::new(1, values.len());
    buffer.channel_mut(0).expect("channel exists").copy_from_slice(&samples(values));
    buffer
}

#[test]
fn gain_processor_multiplies_samples() {
    let mut buffer = AudioBuffer::new(2, 3);
    buffer
        .channel_mut(0)
        .expect("channel exists")
        .copy_from_slice(&samples(&[1.0, -0.5, 0.25]));
    buffer
        .channel_mut(1)
        .expect("channel exists")
        .copy_from_slice(&samples(&[0.5, 0.0, -1.0]));

    let mut gain = GainProcessor::new();
    gain.set_gain(sample(2.0));
    process(&mut gain, &mut buffer);

    assert_eq!(
        buffer.channel(0).expect("channel exists"),
        &samples(&[2.0, -1.0, 0.5])[..]
    );
    assert_eq!(
        buffer.channel(1).expect("channel exists"),
        &samples(&[1.0, 0.0, -2.0])[..]
    );
}

#[test]
fn delay_line_outputs_delayed_samples() {
    let mut delay = DelayLine::new(2);
    delay.set_delay_samples(2);

    assert_eq!(delay.process_sample(sample(1.0)), sample(0.0));
    assert_eq!(delay.process_sample(sample(2.0)), sample(0.0));
    assert_eq!(delay.process_sample(sample(3.0)), sample(1.0));
    assert_eq!(delay.process_sample(sample(4.0)), sample(2.0));

    delay.reset();
    assert_eq!(delay.process_sample(sample(5.0)), sample(0.0));
}

#[test]
fn processor_chain_runs_in_order() {
    let mut buffer = AudioBuffer::new(1, 2);
    buffer
        .channel_mut(0)
        .expect("channel exists")
        .copy_from_slice(&samples(&[0.5, 1.0]));

    let mut first = GainProcessor::new();
    first.set_gain(sample(2.0));
    let mut second = GainProcessor::new();
    second.set_gain(sample(0.5));

    let mut chain = ProcessorChain::new();
    chain.push(first);
    chain.push(second);
    process(&mut chain, &mut buffer);

    assert_eq!(
        buffer.channel(0).expect("channel exists"),
        &samples(&[0.5, 1.0])[..]
    );
}

#[test]
fn one_pole_low_pass_smooths_step() {
    let mut buffer = AudioBuffer::new(1, 4);
    buffer
        .channel_mut(0)
        .expect("channel exists")
        .copy_from_slice(&samples(&[0.0, 1.0, 1.0, 1.0]));

    let mut filter = OnePoleLowPass::new(sample(1_000.0), exp);
    filter.prepare(sample(48_000.0), 4);
    process(&mut filter, &mut buffer);

    let channel = buffer.channel(0).expect("channel exists");
    assert_eq!(channel[0], sample(0.0));
    assert!(channel[1] > sample(0.0) && channel[1] < sample(1.0));
    assert!(channel[2] > channel[1]);
    assert!(channel[3] > channel[2]);
}

#[test]
fn gain_starts_at_one_and_can_be_set_over_its_range() {
    let mut gain = GainProcessor::default();
    assert_eq!(gain.gain(), sample(1.0));
    for value in [0.0, 0.3, 4.0] {
        gain.set_gain(sample(value));
        assert_eq!(gain.gain(), sample(value));
        assert_eq!(gain.clone().gain(), sample(value));
    }
    gain.prepare(sample(48_000.0), 512);
    gain.reset();
    assert_eq!(gain.gain(), sample(4.0));
}

#[test]
fn unity_gain_changes_nothing() {
    let values = [0.1, -0.0, 3.0e38, 1.0e-45, f32::INFINITY];
    let mut buffer = mono(&values);
    process(&mut GainProcessor::new(), &mut buffer);
    for (index, value) in values.iter().enumerate() {
        assert_eq!(buffer.channel(0).unwrap()[index].to_bits(), value.to_bits());
    }
}

#[test]
fn zero_gain_silences_and_gain_keeps_order() {
    let mut gain = GainProcessor::new();
    gain.set_gain(sample(0.0));
    let mut buffer = mono(&[0.1, -7.0, 3.0e38]);
    process(&mut gain, &mut buffer);
    assert_eq!(buffer.channel(0).unwrap(), &samples(&[0.0, 0.0, 0.0])[..]);
    gain.set_gain(sample(3.7));
    let mut buffer = mono(&[-3.0e38, -1.0, 0.1, 0.3, 3.0e38]);
    process(&mut gain, &mut buffer);
    let channel = buffer.channel(0).unwrap();
    assert!(channel.windows(2).all(|pair| pair[0] <= pair[1]));
    assert_eq!(channel[2].to_bits(), (0.1f32 * 3.7).to_bits());
    assert_eq!(channel[4], sample(f32::INFINITY));
}

#[test]
fn every_delay_is_exact() {
    for max in 0..6usize {
        for delay in 0..=max {
            let mut line = DelayLine::new(max);
            assert_eq!(line.max_delay_samples(), max);
            line.set_delay_samples(delay);
            for step in 0..20usize {
                let output = line.process_sample(Sample::from_whole(step as u32 + 1));
                if step < delay {
                    assert_eq!(output, sample(0.0));
                } else {
                    assert_eq!(output, Sample::from_whole((step - delay) as u32 + 1));
                }
            }
        }
    }
}

#[test]
fn a_delay_beyond_the_capacity_is_clamped() {
    let mut line = DelayLine::new(3);
    line.set_delay_samples(usize::MAX);
    for step in 0..10u32 {
        let output = line.process_sample(Sample::from_whole(step + 1));
        let expected = if step < 3 { 0 } else { step - 2 };
        assert_eq!(output, Sample::from_whole(expected));
    }
}

#[test]
fn a_delay_of_zero_returns_the_sample_just_pushed() {
    let mut line = DelayLine::new(2);
    line.set_delay_samples(0);
    for step in 0..10u32 {
        let input = Sample::from_whole(step + 1);
        assert_eq!(line.process_sample(input), input);
    }
    line.set_delay_samples(1);
    assert_eq!(line.process_sample(sample(0.5)), sample(10.0));
    let mut smallest = DelayLine::new(0);
    assert_eq!(smallest.max_delay_samples(), 0);
    assert_eq!(smallest.process_sample(sample(1.0)), sample(1.0));
    assert_eq!(smallest.process_sample(sample(2.0)), sample(2.0));
}

#[test]
fn reset_keeps_the_delay_and_a_copy_goes_its_own_way() {
    let mut line = DelayLine::new(4);
    line.set_delay_samples(1);
    line.process_sample(sample(7.0));
    let mut copy = line.clone();
    line.reset();
    assert_eq!(line.process_sample(sample(1.0)), sample(0.0));
    assert_eq!(line.process_sample(sample(2.0)), sample(1.0));
    assert_eq!(copy.process_sample(sample(3.0)), sample(7.0));
}

#[test]
fn chain_counts_its_processors() {
    let mut chain: ProcessorChain<GainProcessor> = ProcessorChain::default();
    assert!(chain.is_empty());
    assert_eq!(chain.len(), 0);
    let mut buffer = mono(&[0.25, -4.0]);
    process(&mut chain, &mut buffer);
    assert_eq!(buffer.channel(0).unwrap(), &samples(&[0.25, -4.0])[..]);
    chain.push(GainProcessor::new());
    assert!(!chain.is_empty());
    assert_eq!(chain.len(), 1);
}

#[test]
fn chain_of_different_processors_prepares_runs_and_resets_all() {
    let mut gain = GainProcessor::new();
    gain.set_gain(sample(2.0));
    let mut chain = ProcessorChain::new();
    chain.push(AnyProcessor {
        processor: Box::new(OnePoleLowPass::new(sample(1_000.0), exp)),
    });
    chain.push(AnyProcessor { processor: Box::new(gain) });
    chain.prepare(sample(8_000.0), 2);

    let coefficient = 1.0 - (-2.0 * core::f32::consts::PI * 1_000.0 / 8_000.0f32).exp();
    let first = coefficient * 1.0;
    let second = first + coefficient * (1.0 - first);
    let mut buffer = mono(&[1.0, 1.0]);
    process(&mut chain, &mut buffer);
    assert_eq!(
        buffer.channel(0).unwrap(),
        &samples(&[first * 2.0, second * 2.0])[..]
    );

    chain.reset();
    let mut again = mono(&[1.0]);
    process(&mut chain, &mut again);
    assert_eq!(again.channel(0).unwrap(), &samples(&[first * 2.0])[..]);
}

#[test]
fn filter_agrees_with_its_formula() {
    let input = [0.3, -0.7, 1.0, 0.0, 0.123];
    let mut filter = OnePoleLowPass::new(sample(440.0), exp);
    let coefficient = 1.0 - (-2.0 * core::f32::consts::PI * 440.0 / 44_100.0f32).exp();
    let mut buffer = mono(&input);
    process(&mut filter, &mut buffer);
    let mut z1 = 0.0f32;
    for (index, x) in input.iter().enumerate() {
        z1 = z1 + coefficient * (x - z1);
        assert_eq!(buffer.channel(0).unwrap()[index].to_bits(), z1.to_bits());
    }
}

#[test]
fn filter_does_not_see_block_boundaries() {
    let input = [0.3, -0.7, 1.0, 0.0, 0.123];
    let mut whole = OnePoleLowPass::new(sample(440.0), exp);
    let mut parts = whole.clone();
    let mut buffer = mono(&input);
    process(&mut whole, &mut buffer);
    let mut head = mono(&input[..2]);
    let mut tail = mono(&input[2..]);
    process(&mut parts, &mut head);
    process(&mut parts, &mut tail);
    let mut joined = head.channel(0).unwrap().to_vec();
    joined.extend_from_slice(tail.channel(0).unwrap());
    assert_eq!(buffer.channel(0).unwrap(), &joined[..]);
}

#[test]
fn filter_keeps_one_memory_per_channel() {
    let mut filter = OnePoleLowPass::new(sample(1_000.0), exp);
    assert_eq!(filter.process_sample(0, sample(0.5)), sample(0.5));
    let mut buffer = AudioBuffer::new(2, 1);
    buffer.channel_mut(0).unwrap()[0] = sample(1.0);
    process(&mut filter, &mut buffer);
    assert!(buffer.channel(0).unwrap()[0] > sample(0.0));
    assert_eq!(buffer.channel(1).unwrap()[0], sample(0.0));
    assert_eq!(filter.process_sample(1, sample(0.0)), sample(0.0));
    assert!(filter.process_sample(0, sample(0.0)) > sample(0.0));
    assert_eq!(filter.process_sample(2, sample(0.5)), sample(0.5));
    filter.reset();
    assert_eq!(filter.process_sample(0, sample(0.0)), sample(0.0));
}

#[test]
fn filter_at_no_cutoff_holds_its_output() {
    let mut filter = OnePoleLowPass::new(sample(1_000.0), exp);
    let mut buffer = mono(&[1.0]);
    process(&mut filter, &mut buffer);
    let held = buffer.channel(0).unwrap()[0];
    filter.set_cutoff_hz(sample(-5.0));
    let mut buffer = mono(&[0.5, -0.5]);
    process(&mut filter, &mut buffer);
    assert_eq!(buffer.channel(0).unwrap(), &[held, held][..]);
    filter.set_cutoff_hz(sample(1_000.0));
    assert_ne!(filter.process_sample(0, sample(1.0)), held);
}

#[test]
fn filter_moves_toward_its_input() {
    let mut filter = OnePoleLowPass::new(sample(3_000.0), exp);
    let mut buffer = mono(&[0.0]);
    process(&mut filter, &mut buffer);
    let mut last = sample(0.0);
    for _ in 0..50 {
        let next = filter.process_sample(0, sample(0.7));
        assert!(last <= next);
        last = next;
    }
    for _ in 0..50 {
        let next = filter.process_sample(0, sample(-0.7));
        assert!(next <= last);
        last = next;
    }
}

#[test]
fn the_decay_exponent_is_exact() {
    let exponent = decay_exponent(sample(48_000.0), sample(1_000.0)).unwrap();
    let expected = -2.0 * core::f32::consts::PI * 1_000.0f32 / 48_000.0f32;
    assert_eq!(exponent.to_bits(), expected.to_bits());
    assert!(decay_exponent(sample(48_000.0), sample(0.0)).is_none());
    assert!(decay_exponent(sample(48_000.0), sample(-1.0)).is_none());
    assert!(decay_exponent(sample(-1.0), sample(1_000.0)).is_none());
    assert!(decay_exponent(sample(48_000.0), sample(f32::NAN)).unwrap().is_undefined());
}

#[test]
fn sample_rates_below_one_count_as_one() {
    let mut filter = OnePoleLowPass::new(sample(0.25), exp);
    filter.prepare(sample(-3.0), 0);
    let mut buffer = mono(&[1.0]);
    process(&mut filter, &mut buffer);
    let coefficient = 1.0 - (-2.0 * core::f32::consts::PI * 0.25f32 / 1.0f32).exp();
    assert_eq!(buffer.channel(0).unwrap()[0], sample(coefficient));
}

#[test]
fn a_reset_filter_starts_from_silence() {
    let mut fresh = OnePoleLowPass::new(sample(500.0), exp);
    let mut used = fresh.clone();
    process(&mut used, &mut mono(&[0.9, -0.3, 0.4]));
    used.reset();
    let mut expected = mono(&[0.2, 0.6]);
    let mut actual = mono(&[0.2, 0.6]);
    process(&mut fresh, &mut expected);
    process(&mut used, &mut actual);
    assert_eq!(actual, expected);
}

#[test]
fn rounding_can_carry_a_filter_past_its_input() {
    let mut filter = OnePoleLowPass::new(sample(1_000.0), |_: Sample| sample(0.0));
    process(&mut filter, &mut mono(&[-1.0]));
    let input = sample(8.940_697e-8);
    assert!(filter.process_sample(0, input) > input);
}

#[test]
fn a_filter_keeps_silence() {
    let mut filter = OnePoleLowPass::new(sample(1_000.0), exp);
    let mut buffer = mono(&[0.0, 0.0, -0.0]);
    process(&mut filter, &mut buffer);
    assert_eq!(buffer.channel(0).unwrap(), &samples(&[0.0, 0.0, 0.0])[..]);
}

#[test]
fn a_chain_of_chains_runs_in_order() {
    let mut double = GainProcessor::new();
    double.set_gain(sample(2.0));
    let mut inner = ProcessorChain::new();
    inner.push(double.clone());
    inner.push(double);
    let mut outer = ProcessorChain::new();
    outer.push(inner);
    let mut buffer = mono(&[0.5]);
    process(&mut outer, &mut buffer);
    assert_eq!(buffer.channel(0).unwrap(), &samples(&[2.0])[..]);
}

#[test]
fn half_gain_halves_a_ramp() {
    let mut buffer = AudioBuffer::new(2, 8);
    for index in 0..2 {
        let step = if index == 0 { 0.1 } else { -0.1 };
        for (i, value) in buffer.channel_mut(index).unwrap().iter_mut().enumerate() {
            *value = sample((i as f32 + 1.0) * step);
        }
    }
    let mut gain = GainProcessor::new();
    gain.set_gain(sample(0.5));
    gain.prepare(sample(48_000.0), buffer.num_samples());
    process(&mut gain, &mut buffer);
    for index in 0..2 {
        let step = if index == 0 { 0.1 } else { -0.1 };
        for (i, value) in buffer.channel(index).unwrap().iter().enumerate() {
            assert_eq!(number(*value), (i as f32 + 1.0) * step * 0.5);
        }
    }
}

fn outputs(filter: &mut OnePoleLowPass<fn(Sample) -> Sample>) -> Vec<Sample> {
    let mut all = Vec::new();
    for block in [&[0.3, -0.7, 1.0][..], &[0.25, 0.0][..]] {
        let mut buffer = mono(block);
        process(filter, &mut buffer);
        all.extend_from_slice(buffer.channel(0).unwrap());
    }
    all.push(filter.process_sample(0, sample(0.6)));
    all.push(filter.process_sample(1, sample(0.6)));
    all
}

fn low_pass(cutoff_hz: f32) -> OnePoleLowPass<fn(Sample) -> Sample> {
    OnePoleLowPass::new(sample(cutoff_hz), exp)
}

#[test]
fn ways_to_make_a_filter_are_alike() {
    for cutoff in [440.0, 0.0, -3.0] {
        let mut made = low_pass(cutoff);
        let mut set = low_pass(9_000.0);
        set.set_cutoff_hz(sample(cutoff));
        let mut prepared = low_pass(cutoff);
        prepared.prepare(sample(44_100.0), 0);
        let expected = outputs(&mut made);
        assert_eq!(outputs(&mut set), expected);
        assert_eq!(outputs(&mut prepared), expected);
    }
}

#[test]
fn preparing_keeps_to_the_rate_alone() {
    for (rate, same) in [(0.5, 1.0), (-8.0, 1.0), (f32::NAN, 1.0), (48_000.0, 48_000.0)] {
        let mut one = low_pass(0.1);
        let mut other = one.clone();
        one.prepare(sample(rate), 16);
        other.prepare(sample(same), 1_024);
        assert_eq!(outputs(&mut one), outputs(&mut other));
    }
    let mut one = low_pass(100.0);
    let mut other = one.clone();
    one.prepare(sample(8_000.0), 1);
    one.set_cutoff_hz(sample(300.0));
    other.set_cutoff_hz(sample(300.0));
    other.prepare(sample(8_000.0), 1);
    assert_eq!(outputs(&mut one), outputs(&mut other));
}

#[test]
fn a_reset_filter_acts_as_a_fresh_one() {
    let mut used = low_pass(250.0);
    used.prepare(sample(16_000.0), 8);
    outputs(&mut used);
    used.reset();
    let mut twice = used.clone();
    twice.reset();
    let mut fresh = low_pass(250.0);
    fresh.prepare(sample(16_000.0), 8);
    let expected = outputs(&mut fresh);
    assert_eq!(outputs(&mut used), expected);
    assert_eq!(outputs(&mut twice), expected);
}

#[test]
fn a_chain_prepares_its_filters_again_and_again() {
    let mut chain = ProcessorChain::new();
    chain.push(low_pass(250.0));
    chain.prepare(sample(8_000.0), 4);
    chain.prepare(sample(16_000.0), 4);
    let mut alone = low_pass(250.0);
    alone.prepare(sample(16_000.0), 4);
    let mut expected = mono(&[0.9, -0.1]);
    let mut actual = mono(&[0.9, -0.1]);
    process(&mut alone, &mut expected);
    process(&mut chain, &mut actual);
    assert_eq!(actual, expected);
}

#[test]
fn boxed_processors_act_as_they_did_before() {
    let mut gain = GainProcessor::new();
    gain.set_gain(sample(0.5));
    let mut inner = ProcessorChain::new();
    inner.push(gain.clone());
    let mut boxed = ProcessorChain::new();
    boxed.push(AnyProcessor::gain(gain.clone()));
    boxed.push(AnyProcessor::low_pass(low_pass(700.0)));
    boxed.push(AnyProcessor::chain(inner));
    boxed.prepare(sample(16_000.0), 3);
    assert_eq!(boxed.len(), 3);
    let mut filter = low_pass(700.0);
    filter.prepare(sample(16_000.0), 3);
    let mut expected = mono(&[0.8, -0.4, 0.2]);
    let mut actual = mono(&[0.8, -0.4, 0.2]);
    process(&mut gain, &mut expected);
    process(&mut filter, &mut expected);
    process(&mut gain, &mut expected);
    process(&mut boxed, &mut actual);
    assert_eq!(actual, expected);
}

#[test]
fn a_filter_stops_at_its_input() {
    for decay in [0.0f32, 0.1, 0.5, 0.999] {
        for (previous, input) in [(-1.0f32, 8.940_697e-8f32), (0.3, -0.7), (-3.0e38, 3.0e38)] {
            // The first cutoff passes everything, so that the filter takes up `previous`.
            let exponential =
                move |x: Sample| sample(if number(x) < -1.0 { 0.0 } else { decay });
            let mut filter = OnePoleLowPass::new(sample(44_100.0), exponential);
            process(&mut filter, &mut mono(&[previous]));
            filter.set_cutoff_hz(sample(1_000.0));
            let output = number(filter.process_sample(0, sample(input)));
            let furthest = previous + (input - previous);
            if previous <= input {
                assert!(previous <= output && output <= furthest);
            } else {
                assert!(furthest <= output && output <= previous);
            }
        }
    }
}

#[test]
fn buffers_do_not_show_block_boundaries() {
    let left = [0.3, -0.7, 1.0, 0.0];
    let right = [-0.2, 0.9, 0.1, 0.4];
    let stereo = |from: usize, to: usize| {
        let mut buffer = AudioBuffer::new(2, to - from);
        buffer.channel_mut(0).unwrap().copy_from_slice(&samples(&left[from..to]));
        buffer.channel_mut(1).unwrap().copy_from_slice(&samples(&right[from..to]));
        buffer
    };
    let mut whole = low_pass(440.0);
    let mut parts = whole.clone();
    let (mut all, mut head, mut tail) = (stereo(0, 4), stereo(0, 1), stereo(1, 4));
    process(&mut whole, &mut all);
    process(&mut parts, &mut head);
    process(&mut parts, &mut tail);
    for index in 0..2 {
        let mut joined = head.channel(index).unwrap().to_vec();
        joined.extend_from_slice(tail.channel(index).unwrap());
        assert_eq!(all.channel(index).unwrap(), &joined[..]);
        assert_eq!(
            whole.process_sample(index, sample(0.7)),
            parts.process_sample(index, sample(0.7))
        );
    }
}

#[test]
fn boxed_processors_stay_what_they_are() {
    let mut gain = GainProcessor::new();
    gain.set_gain(sample(0.5));
    let mut chain = ProcessorChain::new();
    chain.push(AnyProcessor::gain(gain));
    chain.push(AnyProcessor::low_pass(low_pass(700.0)));
    for rate in [8_000.0, 16_000.0, 48_000.0] {
        chain.prepare(sample(rate), 2);
        chain.reset();
        let mut alone = low_pass(700.0);
        alone.prepare(sample(rate), 2);
        for block in [[0.8, -0.4], [0.2, 0.6]] {
            let mut actual = mono(&block);
            let mut expected = mono(&block.map(|x| x * 0.5));
            process(&mut chain, &mut actual);
            process(&mut alone, &mut expected);
            assert_eq!(actual, expected);
            assert_eq!(actual.channel(0).unwrap().len(), actual.num_samples());
        }
    }
}
