//! One-pole low-pass filter.

use crate::audio::{AudioProcessor, Block, Channels, Kind, ProcessContext, ProcessorState};
use crate::midi::MidiEvent;
use crate::number::Number;
use crate::rounding::SIGNIFICAND_LIMIT;
use crate::sample::Sample;
use vstd::arithmetic::power2::*;
use vstd::prelude::*;

verus! {

/// A function of numbers, as the pairs of argument and result.
pub type Pairs = spec_fn(Sample, Sample) -> bool;

/// The pairs of a function.
pub open spec fn pairs_of<E: Fn(Sample) -> Sample>(function: E) -> Pairs {
    |x: Sample, y: Sample| call_ensures(function, (x,), y)
}

/// Whether `y` may be the result for `x`.
pub open spec fn gives(function: Pairs, x: Sample, y: Sample) -> bool {
    function(x, y)
}

/// What a filter holds.
pub struct FilterState {
    pub sample_rate: Sample,
    pub cutoff_hz: Sample,
    pub coefficient: Sample,
    /// The last output of each channel.
    pub memory: Seq<Sample>,
}

/// The circle constant to single precision.
pub open spec fn circle_constant() -> Number {
    Number::Finite { negative: false, magnitude: 13176795 * pow2(127) }
}

/// The exponent of the decay per sample: `-2 * pi * cutoff_hz / sample_rate`.
pub open spec fn decay_exponent_of(sample_rate: Number, cutoff_hz: Number) -> Number {
    Number::whole(2).negated().times(circle_constant()).times(cutoff_hz).over(sample_rate)
}

/// Whether a filter at this sample rate and cutoff lets nothing of its input through.
pub open spec fn blocks_input(sample_rate: Number, cutoff_hz: Number) -> bool {
    sample_rate.at_most(Number::zero()) || cutoff_hz.at_most(Number::zero())
}

/// Whether `coefficient` belongs to the sample rate and cutoff, given what `exp` may return as
/// the exponential of a number.
pub open spec fn coefficient_matches(
    exp: Pairs,
    sample_rate: Number,
    cutoff_hz: Number,
    coefficient: Sample,
) -> bool {
    if blocks_input(sample_rate, cutoff_hz) {
        coefficient == (Sample { bits: 0 })
    } else {
        exists|exponent: Sample, decay: Sample|
            {
                &&& exponent@ == decay_exponent_of(sample_rate, cutoff_hz)
                &&& #[trigger] gives(exp, exponent, decay)
                &&& coefficient@ == Number::whole(1).minus(decay@)
            }
    }
}

/// The output for `input` after the output `previous`.
pub open spec fn smoothed(coefficient: Number, previous: Number, input: Number) -> Number {
    previous.plus(coefficient.times(input.minus(previous)))
}

/// Whether the output at `i` is what a filter makes of the input there, given its output before.
pub open spec fn smooths_at(
    coefficient: Number,
    before: Sample,
    input: Seq<Sample>,
    output: Seq<Sample>,
    i: int,
) -> bool {
    output[i]@ == smoothed(
        coefficient,
        if i == 0 {
            before@
        } else {
            output[i - 1]@
        },
        input[i]@,
    )
}

/// Whether `output` is what a filter makes of `input`, given its last output before that.
pub open spec fn smooths(
    coefficient: Number,
    before: Sample,
    input: Seq<Sample>,
    output: Seq<Sample>,
) -> bool {
    &&& output.len() == input.len()
    &&& forall|i: int|
        0 <= i < input.len() ==> #[trigger] smooths_at(coefficient, before, input, output, i)
}

/// The last output of a channel whose last output was `before`.
pub open spec fn last_output(before: Sample, output: Seq<Sample>) -> Sample {
    if output.len() == 0 {
        before
    } else {
        output.last()
    }
}

impl FilterState {
    /// Whether the coefficient belongs to the sample rate and cutoff.
    pub open spec fn tuned_by(self, exp: Pairs) -> bool {
        coefficient_matches(exp, self.sample_rate@, self.cutoff_hz@, self.coefficient)
    }

    /// Whether this is a new filter with the given cutoff.
    pub open spec fn made_with(self, exp: Pairs, cutoff_hz: Sample) -> bool {
        &&& self.sample_rate@ == Number::whole(44100)
        &&& self.cutoff_hz == cutoff_hz
        &&& self.memory == Seq::<Sample>::empty()
        &&& self.tuned_by(exp)
    }

    /// Whether setting the cutoff may turn the filter into `after`.
    pub open spec fn cut_off_at(
        self,
        exp: Pairs,
        cutoff_hz: Number,
        after: FilterState,
    ) -> bool {
        &&& after.sample_rate == self.sample_rate
        &&& after.cutoff_hz@ == cutoff_hz.larger(Number::zero())
        &&& after.memory == self.memory
        &&& after.tuned_by(exp)
    }

    /// Whether preparing for a sample rate may turn the filter into `after`.
    pub open spec fn prepared_for(
        self,
        exp: Pairs,
        sample_rate: Number,
        after: FilterState,
    ) -> bool {
        &&& after.sample_rate@ == sample_rate.larger(Number::whole(1))
        &&& after.cutoff_hz == self.cutoff_hz
        &&& after.memory == self.memory
        &&& after.tuned_by(exp)
    }

    /// Whether a sample for `channel` may become `output` and the filter `after`.
    pub open spec fn steps(
        self,
        channel: nat,
        input: Sample,
        output: Sample,
        after: FilterState,
    ) -> bool {
        if channel < self.memory.len() {
            &&& output@ == smoothed(
                self.coefficient@,
                self.memory[channel as int]@,
                input@,
            )
            &&& after == (FilterState {
                memory: self.memory.update(channel as int, output),
                ..self
            })
        } else {
            output == input && after == self
        }
    }

    /// Whether the filter may turn the channels of `input` into those of `output`.
    pub open spec fn filters(self, input: Channels, output: Channels) -> bool {
        let memory = self.memory_for(input.len());
        &&& output.len() == input.len()
        &&& forall|c: int|
            0 <= c < input.len() ==> smooths(
                self.coefficient@,
                memory[c],
                input[c],
                #[trigger] output[c],
            )
    }

    /// The memory with one entry for each of `channels` channels, new ones being zero.
    pub open spec fn memory_for(self, channels: nat) -> Seq<Sample> {
        Seq::new(
            channels,
            |c: int|
                if c < self.memory.len() {
                    self.memory[c]
                } else {
                    Sample { bits: 0 }
                },
        )
    }

    /// The filter once it has put out `output`.
    pub open spec fn remembering(self, output: Channels) -> FilterState {
        let memory = self.memory_for(output.len());
        FilterState {
            memory: Seq::new(memory.len(), |c: int| last_output(memory[c], output[c])),
            ..self
        }
    }

    /// The filter with zero as the last output of each channel.
    pub open spec fn forgetting(self) -> FilterState {
        FilterState { memory: crate::audio::silence(self.memory.len()), ..self }
    }

    /// The numbers that the filter remembers.
    pub open spec fn values(self) -> Seq<Sample> {
        seq![self.sample_rate, self.cutoff_hz, self.coefficient] + self.memory
    }
}

/// The numbers that fix what a filter lets through.
#[derive(Debug, Clone, Copy)]
struct Tuning {
    sample_rate: Sample,
    cutoff_hz: Sample,
    coefficient: Sample,
}

/// One-pole low-pass filter.
///
/// The exponential of a number is the one that the filter was made with.
#[derive(Debug)]
pub struct OnePoleLowPass<E: Fn(Sample) -> Sample> {
    tuning: Tuning,
    z1: Vec<Sample>,
    exp: E,
}

impl<E: Fn(Sample) -> Sample> View for OnePoleLowPass<E> {
    type V = FilterState;

    closed spec fn view(&self) -> FilterState {
        FilterState {
            sample_rate: self.tuning.sample_rate,
            cutoff_hz: self.tuning.cutoff_hz,
            coefficient: self.tuning.coefficient,
            memory: self.z1@,
        }
    }
}

impl<E: Fn(Sample) -> Sample + Copy> Clone for OnePoleLowPass<E> {
    fn clone(&self) -> (res: OnePoleLowPass<E>)
        ensures
            res@ == self@,
            res.exponential() == self.exponential(),
    {
        proof {
            use_type_invariant(self);
        }
        let z1: Vec<Sample> = self.z1.clone();
        assert(z1@ =~= self.z1@);
        OnePoleLowPass { tuning: self.tuning, z1, exp: self.exp }
    }
}

/// The exponent of the decay per sample, or `None` where the filter lets nothing through.
pub fn decay_exponent(sample_rate: Sample, cutoff_hz: Sample) -> (res: Option<Sample>)
    ensures
        match res {
            Some(exponent) => {
                &&& !blocks_input(sample_rate@, cutoff_hz@)
                &&& exponent@ == decay_exponent_of(sample_rate@, cutoff_hz@)
            },
            None => blocks_input(sample_rate@, cutoff_hz@),
        },
        res is None <==> (sample_rate@ !is Undefined && sample_rate@.units() <= 0) || (cutoff_hz@
            !is Undefined && cutoff_hz@.units() <= 0),
{
    if sample_rate <= Sample::zero() || cutoff_hz <= Sample::zero() {
        return None;
    }
    let pi: Sample = Sample::from_bits(0x4049_0fdb);
    Some(
        Sample::from_whole(2).negated().times(pi).times(cutoff_hz).over(sample_rate),
    )
}

impl<E: Fn(Sample) -> Sample> OnePoleLowPass<E> {
    #[verifier::type_invariant]
    closed spec fn well_formed(self) -> bool {
        &&& forall|x: Sample| #[trigger] call_requires(self.exp, (x,))
        &&& self@.tuned_by(pairs_of(self.exp))
    }

    /// The exponential that the filter was made with.
    pub closed spec fn exponential(&self) -> Pairs {
        pairs_of(self.exp)
    }

    /// Creates a one-pole low-pass filter.
    pub fn new(cutoff_hz: Sample, exp: E) -> (res: Self)
        requires
            forall|x: Sample| #[trigger] call_requires(exp, (x,)),
        ensures
            res.exponential() == pairs_of(exp),
            res@.made_with(pairs_of(exp), cutoff_hz),
    {
        let sample_rate: Sample = Sample::from_whole(44100);
        let coefficient: Sample = Self::coefficient_for(&exp, sample_rate, cutoff_hz);
        OnePoleLowPass {
            tuning: Tuning { sample_rate, cutoff_hz, coefficient },
            z1: Vec::new(),
            exp,
        }
    }

    /// Sets the cutoff frequency in Hz.
    pub fn set_cutoff_hz(&mut self, cutoff_hz: Sample)
        ensures
            final(self).exponential() == old(self).exponential(),
            old(self)@.cut_off_at(old(self).exponential(), cutoff_hz@, final(self)@),
    {
        self.update_coefficient(self.tuning.sample_rate, cutoff_hz.max(Sample::zero()));
    }

    /// Processes one sample for `channel`.
    pub fn process_sample(&mut self, channel: usize, input: Sample) -> (res: Sample)
        ensures
            final(self).exponential() == old(self).exponential(),
            final(self)@.tuned_by(old(self).exponential()),
            old(self)@.steps(channel as nat, input, res, final(self)@),
    {
        proof {
            use_type_invariant(&*self);
        }
        if channel >= self.z1.len() {
            return input;
        }
        let previous: Sample = self.z1[channel];
        let output: Sample = previous.plus(self.tuning.coefficient.times(input.minus(previous)));
        self.z1[channel] = output;
        output
    }

    /// The coefficient that belongs to a sample rate and cutoff.
    fn coefficient_for(exp: &E, sample_rate: Sample, cutoff_hz: Sample) -> (res: Sample)
        requires
            forall|x: Sample| #[trigger] call_requires(*exp, (x,)),
        ensures
            coefficient_matches(pairs_of(*exp), sample_rate@, cutoff_hz@, res),
    {
        match decay_exponent(sample_rate, cutoff_hz) {
            None => Sample::zero(),
            Some(exponent) => {
                let decay: Sample = exp(exponent);
                assert(gives(pairs_of(*exp), exponent, decay));
                Sample::one().minus(decay)
            },
        }
    }

    /// Sets the sample rate and cutoff, and the coefficient along with them.
    fn update_coefficient(&mut self, sample_rate: Sample, cutoff_hz: Sample)
        ensures
            final(self).exponential() == old(self).exponential(),
            final(self)@ == (FilterState {
                sample_rate,
                cutoff_hz,
                coefficient: final(self)@.coefficient,
                memory: old(self)@.memory,
            }),
            final(self)@.tuned_by(old(self).exponential()),
    {
        proof {
            use_type_invariant(&*self);
        }
        let coefficient: Sample = Self::coefficient_for(&self.exp, sample_rate, cutoff_hz);
        self.tuning = Tuning { sample_rate, cutoff_hz, coefficient };
    }

    /// Filters the samples of one channel in place.
    fn process_channel(&mut self, channel: usize, samples: &mut [Sample])
        requires
            channel < old(self)@.memory.len(),
        ensures
            final(self).exponential() == old(self).exponential(),
            smooths(
                old(self)@.coefficient@,
                old(self)@.memory[channel as int],
                old(samples)@,
                final(samples)@,
            ),
            final(self)@ == (FilterState {
                memory: old(self)@.memory.update(
                    channel as int,
                    last_output(old(self)@.memory[channel as int], final(samples)@),
                ),
                ..old(self)@
            }),
    {
        let count: usize = samples.len();
        let mut index: usize = 0;
        let ghost before = self@;
        assert(before.memory.update(channel as int, before.memory[channel as int])
            =~= before.memory);
        while index < count
            invariant
                channel < before.memory.len(),
                count == samples@.len(),
                count == old(samples)@.len(),
                index <= count,
                self.exponential() == old(self).exponential(),
                self@ == (FilterState {
                    memory: before.memory.update(
                        channel as int,
                        last_output(before.memory[channel as int], samples@.take(index as int)),
                    ),
                    ..before
                }),
                forall|i: int|
                    0 <= i < index ==> #[trigger] smooths_at(
                        before.coefficient@,
                        before.memory[channel as int],
                        old(samples)@,
                        samples@,
                        i,
                    ),
                forall|i: int| index <= i < count ==> #[trigger] samples@[i] == old(samples)@[i],
            decreases count - index,
        {
            let ghost written = samples@.take(index as int);
            let ghost previous = samples@;
            let output: Sample = self.process_sample(channel, samples[index]);
            samples[index] = output;
            index = index + 1;
            assert(samples@.take(index as int) =~= written.push(output));
            assert(self@.memory =~= before.memory.update(channel as int, output));
            assert forall|i: int| 0 <= i < index implies #[trigger] smooths_at(
                before.coefficient@,
                before.memory[channel as int],
                old(samples)@,
                samples@,
                i,
            ) by {
                if i < index - 1 {
                    assert(smooths_at(
                        before.coefficient@,
                        before.memory[channel as int],
                        old(samples)@,
                        previous,
                        i,
                    ));
                }
            }
        }
        assert(samples@.take(count as int) =~= samples@);
    }
}

impl FilterState {
    /// What the filter remembers, as a processor's state.
    pub open spec fn state(self) -> ProcessorState {
        ProcessorState::Values(self.values())
    }

    /// The filter that remembers `state`.
    pub open spec fn of(state: ProcessorState) -> FilterState {
        FilterState {
            sample_rate: state->Values_0[0],
            cutoff_hz: state->Values_0[1],
            coefficient: state->Values_0[2],
            memory: state->Values_0.skip(3),
        }
    }
}

/// The state of a filter tells all of it.
pub proof fn law_values_give_the_filter(filter: FilterState)
    ensures
        FilterState::of(filter.state()) == filter,
{
    assert(FilterState::of(filter.state()).memory =~= filter.memory);
}

/// What a filter with the given exponential does.
pub open spec fn filter_kind(exp: Pairs) -> Kind {
    Kind {
        preparing: |before: ProcessorState, rate: Sample, size: usize, after: ProcessorState|
            {
                &&& after == FilterState::of(after).state()
                &&& FilterState::of(before).prepared_for(exp, rate@, FilterState::of(after))
            },
        processing: |
            before: ProcessorState,
            midi_events: Seq<MidiEvent>,
            input: Block,
            output: Block,
            after: ProcessorState,
        |
            {
                &&& output.samples == input.samples
                &&& FilterState::of(before).filters(input.channels, output.channels)
                &&& after == FilterState::of(before).remembering(output.channels).state()
            },
        resetting: |before: ProcessorState, after: ProcessorState|
            after == FilterState::of(before).forgetting().state(),
    }
}

impl<E: Fn(Sample) -> Sample> AudioProcessor for OnePoleLowPass<E> {
    open spec fn state(&self) -> ProcessorState {
        self@.state()
    }

    open spec fn kind(&self) -> Kind {
        filter_kind(self.exponential())
    }

    fn prepare(&mut self, sample_rate: Sample, max_block_size: usize)
        ensures
            final(self).exponential() == old(self).exponential(),
            old(self)@.prepared_for(old(self).exponential(), sample_rate@, final(self)@),
    {
        self.update_coefficient(sample_rate.max(Sample::one()), self.tuning.cutoff_hz);
        proof {
            law_values_give_the_filter(old(self)@);
            law_values_give_the_filter(self@);
        }
    }

    fn process(&mut self, ctx: &mut ProcessContext<'_>)
        ensures
            final(self).exponential() == old(self).exponential(),
            final(self)@.tuned_by(old(self).exponential()),
            final(ctx).buffer.samples() == old(ctx).buffer.samples(),
            old(self)@.filters(old(ctx).buffer@, final(ctx).buffer@),
            final(self)@ == old(self)@.remembering(final(ctx).buffer@),
    {
        proof {
            use_type_invariant(&*self);
        }
        let count: usize = ctx.buffer.num_channels();
        let mut z1: Vec<Sample> = Vec::new();
        core::mem::swap(&mut self.z1, &mut z1);
        if z1.len() != count {
            z1.resize(count, Sample::zero());
        }
        self.z1 = z1;
        let ghost memory = old(self)@.memory_for(count as nat);
        assert(self@.memory =~= memory);
        let mut index: usize = 0;
        while index < count
            invariant
                index <= count,
                count == memory.len(),
                count == ctx.buffer@.len(),
                count == old(ctx).buffer@.len(),
                ctx.buffer.samples() == old(ctx).buffer.samples(),
                ctx.midi_events@ == old(ctx).midi_events@,
                *final(ctx.buffer) == *final(old(ctx).buffer),
                self.exponential() == old(self).exponential(),
                self@ == (FilterState { memory: self@.memory, ..old(self)@ }),
                self@.memory.len() == count,
                forall|c: int|
                    0 <= c < index ==> {
                        &&& smooths(
                            self@.coefficient@,
                            memory[c],
                            old(ctx).buffer@[c],
                            #[trigger] ctx.buffer@[c],
                        )
                        &&& self@.memory[c] == last_output(memory[c], ctx.buffer@[c])
                    },
                forall|c: int|
                    index <= c < count ==> {
                        &&& #[trigger] ctx.buffer@[c] == old(ctx).buffer@[c]
                        &&& self@.memory[c] == memory[c]
                    },
            decreases count - index,
        {
            match ctx.buffer.channel_mut(index) {
                Some(channel) => self.process_channel(index, channel),
                None => {},
            }
            index = index + 1;
        }
        assert(self@.memory =~= old(self)@.remembering(ctx.buffer@).memory);
        proof {
            law_values_give_the_filter(old(self)@);
        }
    }

    fn reset(&mut self)
        ensures
            final(self).exponential() == old(self).exponential(),
            final(self)@.tuned_by(old(self).exponential()),
            final(self)@ == old(self)@.forgetting(),
    {
        proof {
            use_type_invariant(&*self);
        }
        let count: usize = self.z1.len();
        let mut index: usize = 0;
        while index < count
            invariant
                self.well_formed(),
                count == self.z1@.len(),
                self.exponential() == old(self).exponential(),
                self@ == (FilterState { memory: self@.memory, ..old(self)@ }),
                count == old(self)@.memory.len(),
                index <= count,
                forall|i: int| 0 <= i < index ==> self.z1@[i] == (Sample { bits: 0 }),
            decreases count - index,
        {
            self.z1[index] = Sample::zero();
            index = index + 1;
        }
        assert(self@.memory =~= old(self)@.forgetting().memory);
        proof {
            law_values_give_the_filter(old(self)@);
        }
    }
}

/// The pairs of a function are what its calls may return.
pub proof fn law_pairs_are_the_calls<E: Fn(Sample) -> Sample>(function: E, x: Sample, y: Sample)
    ensures
        pairs_of(function)(x, y) <==> call_ensures(function, (x,), y),
        gives(pairs_of(function), x, y) <==> call_ensures(function, (x,), y),
{
}

/// Twice the circle constant, with its sign turned, is exact.
proof fn lemma_turned_circle()
    ensures
        Number::whole(2).negated().times(circle_constant()) == (Number::Finite {
            negative: true,
            magnitude: 13176795 * pow2(128),
        }),
{
    lemma2_to64();
    lemma_pow2_pos(149);
    lemma_pow2_unfold(128);
    lemma_pow2_adds(24, 128);
    lemma_pow2_pos(128);
    lemma_pow2_strictly_increases(152, 277);
    assert((2 * pow2(149)) * (13176795 * pow2(127)) == (13176795 * pow2(128)) * pow2(149))
        by (nonlinear_arith)
        requires
            pow2(128) == 2 * pow2(127),
    ;
    crate::rounding::law_nearest_is_exact(13176795, 128, pow2(149));
    assert(13176795 * pow2(128) < pow2(152)) by (nonlinear_arith)
        requires
            pow2(152) == 0x100_0000 * pow2(128),
            pow2(128) > 0,
    ;
}

/// The product of the turned circle and a cutoff: negative and, in units, hardly off from the exact
/// product.
proof fn lemma_turned_product(cutoff_hz: Number)
    requires
        cutoff_hz.is_finite(),
        Number::zero().less(cutoff_hz),
        Number::whole(2).negated().times(circle_constant()).times(cutoff_hz).is_finite(),
    ensures
        ({
            let product = Number::whole(2).negated().times(circle_constant()).times(cutoff_hz);
            let exact = 13176795 * cutoff_hz.units();
            let error = crate::number::gap(exact, 0x20_0000 * (-product.units()));
            &&& product.is_negative()
            &&& product.units() <= 0
            &&& 2 * error <= 0x20_0000 || SIGNIFICAND_LIMIT * error <= exact
        }),
{
    let turned = Number::whole(2).negated().times(circle_constant());
    let product = turned.times(cutoff_hz);
    let (c, q, h, p) = (
        cutoff_hz.units(),
        -product.units(),
        pow2(128) as int,
        pow2(149) as int,
    );
    lemma_turned_circle();
    lemma2_to64();
    lemma_pow2_pos(128);
    lemma_pow2_adds(21, 128);
    crate::number::law_times_error(turned, cutoff_hz);
    let error = crate::number::gap(13176795 * c, 0x20_0000 * q);
    assert(turned.units() * c == -((13176795 * c) * h) && p * product.units() == -((0x20_0000 * q)
        * h)) by (nonlinear_arith)
        requires
            turned.units() == -(13176795 * h),
            p == 0x20_0000 * h,
            q == -product.units(),
    ;
    let wide = crate::number::gap(turned.units() * c, p * product.units());
    assert(wide == error * h) by (nonlinear_arith)
        requires
            h > 0,
            wide == (13176795 * c) * h - (0x20_0000 * q) * h || wide == (0x20_0000 * q) * h - (
            13176795 * c) * h,
            wide >= 0,
            error == 13176795 * c - 0x20_0000 * q || error == 0x20_0000 * q - 13176795 * c,
            error >= 0,
    ;
    assert((13176795 * c) * h >= 0) by (nonlinear_arith)
        requires
            c >= 0,
            h >= 0,
    ;
    if 2 * wide <= p {
        assert(2 * error <= 0x20_0000) by (nonlinear_arith)
            requires
                2 * (error * h) <= 0x20_0000 * h,
                h > 0,
        ;
    } else {
        assert(SIGNIFICAND_LIMIT * error <= 13176795 * c) by (nonlinear_arith)
            requires
                SIGNIFICAND_LIMIT * (error * h) <= (13176795 * c) * h,
                h > 0,
        ;
    }
}

/// The error of an exponent from those of the product and the quotient that make it.
proof fn lemma_exponent_error(c: int, q: int, e: int, r: int, p: int)
    requires
        0 < c,
        0 <= q,
        0 <= e,
        0 < r,
        0 < p,
        2 * crate::number::gap(13176795 * c, 0x20_0000 * q) <= 0x20_0000 || SIGNIFICAND_LIMIT
            * crate::number::gap(13176795 * c, 0x20_0000 * q) <= 13176795 * c,
        2 * crate::number::gap(q * p, r * e) <= r || SIGNIFICAND_LIMIT * crate::number::gap(
            q * p,
            r * e,
        ) <= q * p,
    ensures
        ({
            let error = crate::number::gap(0x20_0000 * (r * e), 13176795 * (c * p));
            &&& 0x40_0000 * error <= 13176795 * (c * p) + 0x1000_0000_0000 * (r + p)
            &&& e >= 0x80_0000 && (r >= p || c >= 0x80_0000) ==> 0x40_0000 * error <= 13176795 * (c
                * p)
        }),
{
    let (cp, qp, re) = (c * p, q * p, r * e);
    let narrow = crate::number::gap(13176795 * c, 0x20_0000 * q);
    let first = crate::number::gap(13176795 * cp, 0x20_0000 * qp);
    assert(first == narrow * p) by (nonlinear_arith)
        requires
            p > 0,
            cp == c * p,
            qp == q * p,
            narrow == 13176795 * c - 0x20_0000 * q || narrow == 0x20_0000 * q - 13176795 * c,
            narrow >= 0,
            first == 13176795 * cp - 0x20_0000 * qp || first == 0x20_0000 * qp - 13176795 * cp,
            first >= 0,
    ;
    assert(cp >= p) by (nonlinear_arith)
        requires
            cp == c * p,
            c >= 1,
            p > 0,
    ;
    if 2 * narrow <= 0x20_0000 {
        assert(2 * first <= 0x20_0000 * p) by (nonlinear_arith)
            requires
                first == narrow * p,
                2 * narrow <= 0x20_0000,
                p > 0,
        ;
    } else {
        assert(0x100_0000 * first <= 13176795 * cp) by (nonlinear_arith)
            requires
                first == narrow * p,
                cp == c * p,
                0x100_0000 * narrow <= 13176795 * c,
                p > 0,
        ;
    }
    let second = crate::number::gap(qp, re);
    assert(2 * second <= r || 0x100_0000 * second <= qp);
    if e >= 0x80_0000 {
        assert(re >= 0x80_0000 * r) by (nonlinear_arith)
            requires
                re == r * e,
                e >= 0x80_0000,
                r > 0,
        ;
    }
    if c >= 0x80_0000 {
        assert(cp >= 0x80_0000 * p) by (nonlinear_arith)
            requires
                cp == c * p,
                c >= 0x80_0000,
                p > 0,
        ;
    }
}

/// For every positive sample rate and cutoff the exponent times the sample rate is minus twice the
/// circle constant times the cutoff, but for the rounding: relatively where neither the exponent
/// nor the product on the way to it underflows, and by a few units of these where one does. The
/// circle constant is 13176795 parts in two to the power 22.
pub proof fn law_exponent_times_rate_is_turned_cutoff(sample_rate: Number, cutoff_hz: Number)
    requires
        sample_rate is Finite,
        cutoff_hz is Finite,
        sample_rate.units() > 0,
        cutoff_hz.units() > 0,
        decay_exponent_of(sample_rate, cutoff_hz) is Finite,
    ensures
        ({
            let exponent = decay_exponent_of(sample_rate, cutoff_hz).units();
            let turned = 13176795 * (cutoff_hz.units() * pow2(149));
            let error = crate::number::gap(
                0x20_0000 * (sample_rate.units() * (-exponent)),
                turned,
            );
            &&& exponent <= 0
            &&& 0x40_0000 * error <= turned + 0x1000_0000_0000 * (sample_rate.units() + pow2(149))
            &&& exponent <= -0x80_0000 && (sample_rate.units() >= pow2(149) || cutoff_hz.units()
                >= 0x80_0000) ==> 0x40_0000 * error <= turned
        }),
{
    let product = Number::whole(2).negated().times(circle_constant()).times(cutoff_hz);
    let exponent = product.over(sample_rate);
    let (r, p) = (sample_rate.units(), pow2(149) as int);
    lemma_turned_circle();
    lemma_pow2_pos(149);
    lemma_turned_product(cutoff_hz);
    crate::number::law_over_error(product, sample_rate);
    assert(product.units() * p == -((-product.units()) * p) && r * exponent.units() == -(r * (
    -exponent.units()))) by (nonlinear_arith);
    assert((-product.units()) * p >= 0) by (nonlinear_arith)
        requires
            product.units() <= 0,
            p >= 0,
    ;
    lemma_exponent_error(cutoff_hz.units(), -product.units(), -exponent.units(), r, p);
}

/// The exponent is finite for every cutoff and sample rate of ordinary size.
pub proof fn law_exponent_is_finite(sample_rate: Number, cutoff_hz: Number)
    requires
        sample_rate is Finite,
        cutoff_hz is Finite,
        0 < cutoff_hz.units() <= pow2(272),
        0 < sample_rate.units(),
        8 * (cutoff_hz.units() * pow2(149)) <= pow2(276) * sample_rate.units(),
    ensures
        decay_exponent_of(sample_rate, cutoff_hz) is Finite,
{
    let turned = Number::whole(2).negated().times(circle_constant());
    let product = turned.times(cutoff_hz);
    let (c, r, p) = (cutoff_hz.units(), sample_rate.units(), pow2(149) as int);
    let most = (SIGNIFICAND_LIMIT - 1) * pow2(253);
    lemma_turned_circle();
    lemma2_to64();
    lemma_pow2_pos(149);
    lemma_pow2_pos(253);
    lemma_pow2_adds(23, 253);
    assert(most >= pow2(276)) by (nonlinear_arith)
        requires
            most == (SIGNIFICAND_LIMIT - 1) * pow2(253),
            pow2(276) == 0x80_0000 * pow2(253),
    ;
    lemma_turned_product_is_finite(cutoff_hz);
    lemma_turned_product(cutoff_hz);
    assert(-product.units() <= 8 * c);
    assert((-product.units()) * p <= most * r) by (nonlinear_arith)
        requires
            -product.units() <= 8 * c,
            8 * (c * p) <= pow2(276) * r,
            most >= pow2(276),
            r > 0,
            p > 0,
    ;
    crate::number::law_quotient_in_range_is_finite(product, sample_rate);
}

/// Where the sample rate or the cutoff is not finite, the exponent is that of the limit, if there
/// is one.
pub proof fn law_exponent_beyond_the_finite(sample_rate: Number, cutoff_hz: Number)
    ensures
        sample_rate is Undefined || cutoff_hz is Undefined ==> decay_exponent_of(
            sample_rate,
            cutoff_hz,
        ) is Undefined,
        sample_rate is Finite && sample_rate.units() > 0 && cutoff_hz is Infinite
            && cutoff_hz.units() > 0 ==> decay_exponent_of(sample_rate, cutoff_hz) == (
        Number::Infinite { negative: true }),
        sample_rate is Infinite && cutoff_hz is Finite && 0 < cutoff_hz.units() <= pow2(272)
            ==> decay_exponent_of(sample_rate, cutoff_hz).is_zero(),
        sample_rate is Infinite && cutoff_hz is Infinite ==> decay_exponent_of(
            sample_rate,
            cutoff_hz,
        ) is Undefined,
{
    lemma_turned_circle();
    lemma_pow2_pos(128);
    lemma_pow2_pos(277);
    assert(13176795 * pow2(128) > 0) by (nonlinear_arith)
        requires
            pow2(128) > 0,
    ;
    if cutoff_hz is Finite && 0 < cutoff_hz.units() <= pow2(272) {
        lemma_turned_product_is_finite(cutoff_hz);
    }
}

/// Doubling both the sample rate and the cutoff leaves the exponent as it is.
pub proof fn law_exponent_depends_on_the_ratio(
    sample_rate: Number,
    cutoff_hz: Number,
    double_rate: Number,
    double_cutoff: Number,
)
    requires
        sample_rate is Finite,
        cutoff_hz is Finite,
        double_rate is Finite,
        double_cutoff is Finite,
        sample_rate.units() > 0,
        0x80_0000 <= cutoff_hz.units(),
        double_cutoff.units() <= pow2(272),
        double_rate.units() == 2 * sample_rate.units(),
        double_cutoff.units() == 2 * cutoff_hz.units(),
    ensures
        decay_exponent_of(double_rate, double_cutoff) == decay_exponent_of(sample_rate, cutoff_hz),
{
    let turned = Number::whole(2).negated().times(circle_constant());
    let (t, c, r, p) = (
        turned->magnitude,
        cutoff_hz->magnitude,
        sample_rate->magnitude,
        pow2(149),
    );
    lemma_turned_circle();
    lemma2_to64();
    lemma_pow2_pos(149);
    lemma_pow2_pos(128);
    lemma_pow2_adds(21, 128);
    lemma_turned_product_is_finite(cutoff_hz);
    lemma_turned_product_is_finite(double_cutoff);
    assert(t * (2 * c) == 2 * (t * c)) by (nonlinear_arith);
    assert(t * c >= crate::rounding::HIDDEN_BIT * p) by (nonlinear_arith)
        requires
            t == 13176795 * pow2(128),
            p == 0x20_0000 * pow2(128),
            c >= 0x80_0000,
            crate::rounding::HIDDEN_BIT == 0x80_0000,
    ;
    crate::rounding::law_nearest_doubles(t * c, p);
    let q = crate::rounding::nearest(t * c, p);
    assert((2 * q) * p == (q * p) * 2) by (nonlinear_arith);
    crate::rounding::lemma_nearest_scale(q * p, r, 2);
}

/// The product of the turned circle and a cutoff of ordinary size is finite.
proof fn lemma_turned_product_is_finite(cutoff_hz: Number)
    requires
        cutoff_hz.is_finite(),
        0 < cutoff_hz.units() <= pow2(272),
    ensures
        Number::whole(2).negated().times(circle_constant()).times(cutoff_hz).is_finite(),
{
    let turned = Number::whole(2).negated().times(circle_constant());
    let (c, p, h) = (cutoff_hz.units(), pow2(149) as int, pow2(128) as int);
    let most = (SIGNIFICAND_LIMIT - 1) * pow2(253);
    lemma_turned_circle();
    lemma2_to64();
    lemma_pow2_pos(128);
    lemma_pow2_adds(21, 128);
    lemma_pow2_adds(4, 272);
    lemma_pow2_adds(23, 253);
    assert(most >= pow2(276)) by (nonlinear_arith)
        requires
            most == (SIGNIFICAND_LIMIT - 1) * pow2(253),
            pow2(276) == 0x80_0000 * pow2(253),
    ;
    assert(turned.units() * c == -((13176795 * c) * h)) by (nonlinear_arith)
        requires
            turned.units() == -(13176795 * h),
    ;
    assert(0 <= (13176795 * c) * h <= most * p) by (nonlinear_arith)
        requires
            0 < c <= pow2(272),
            pow2(276) == 16 * pow2(272),
            most >= pow2(276),
            p == 0x20_0000 * h,
            h > 0,
    ;
    crate::number::law_product_in_range_is_finite(turned, cutoff_hz);
}

/// Doubling the sample rate alone halves the exponent.
pub proof fn law_double_rate_halves_the_exponent(
    sample_rate: Number,
    double_rate: Number,
    cutoff_hz: Number,
)
    requires
        sample_rate is Finite,
        cutoff_hz is Finite,
        double_rate is Finite,
        sample_rate.units() > 0,
        0 < cutoff_hz.units() <= pow2(272),
        double_rate.units() == 2 * sample_rate.units(),
        decay_exponent_of(sample_rate, cutoff_hz) is Finite,
        decay_exponent_of(double_rate, cutoff_hz).units() < -0x80_0000,
    ensures
        decay_exponent_of(sample_rate, cutoff_hz).units() == 2 * decay_exponent_of(
            double_rate,
            cutoff_hz,
        ).units(),
{
    let product = Number::whole(2).negated().times(circle_constant()).times(cutoff_hz);
    let (r, p) = (sample_rate->magnitude, pow2(149));
    lemma_turned_circle();
    lemma_turned_product_is_finite(cutoff_hz);
    lemma_turned_product(cutoff_hz);
    lemma_pow2_pos(149);
    let n = product->magnitude * p;
    let h = crate::rounding::HIDDEN_BIT as nat;
    lemma2_to64();
    assert(n >= h * (2 * r)) by {
        if n < h * (2 * r) {
            crate::rounding::law_nearest_is_exact(h, 0, 2 * r);
            assert(h * pow2(0) == h) by (nonlinear_arith)
                requires
                    pow2(0) == 1,
            ;
            assert(n * (2 * r) <= (h * (2 * r)) * (2 * r)) by (nonlinear_arith)
                requires
                    n <= h * (2 * r),
            ;
            crate::rounding::law_nearest_is_monotone(n, 2 * r, h * (2 * r), 2 * r);
        }
    }
    crate::rounding::law_nearest_doubles(n, 2 * r);
    crate::rounding::lemma_nearest_scale(n, r, 2);
    assert(n * 2 == 2 * n && r * 2 == 2 * r);
}

/// With a positive sample rate and cutoff the coefficient is one less the exponential of the
/// exponent; otherwise it is zero.
pub proof fn law_coefficient_is_one_less_the_decay(
    exp: Pairs,
    sample_rate: Number,
    cutoff_hz: Number,
    coefficient: Sample,
)
    requires
        sample_rate !is Undefined,
        cutoff_hz !is Undefined,
        coefficient_matches(exp, sample_rate, cutoff_hz, coefficient),
    ensures
        sample_rate.units() <= 0 || cutoff_hz.units() <= 0 ==> coefficient.bits == 0,
        sample_rate.units() > 0 && cutoff_hz.units() > 0 ==> exists|
            exponent: Sample,
            decay: Sample,
        |
            {
                &&& exponent@ == decay_exponent_of(sample_rate, cutoff_hz)
                &&& #[trigger] exp(exponent, decay)
                &&& coefficient@ == Number::whole(1).minus(decay@)
                &&& decay@ is Finite && coefficient@ is Finite ==> SIGNIFICAND_LIMIT
                    * crate::number::gap(coefficient@.units() + decay@.units(), pow2(149) as int)
                    <= crate::number::gap(pow2(149) as int, decay@.units())
            },
{
    if sample_rate.units() > 0 && cutoff_hz.units() > 0 {
        let (exponent, decay) = choose|exponent: Sample, decay: Sample|
            {
                &&& exponent@ == decay_exponent_of(sample_rate, cutoff_hz)
                &&& #[trigger] gives(exp, exponent, decay)
                &&& coefficient@ == Number::whole(1).minus(decay@)
            };
        assert(1 * pow2(149) == pow2(149));
        if decay@ is Finite && coefficient@ is Finite {
            crate::number::law_plus_error(Number::whole(1), decay@.negated());
        }
        assert(exp(exponent, decay));
    }
}

/// A new filter starts at the standard rate, remembers its cutoff and no output.
pub proof fn law_new_filter_has_what_it_was_given(
    exp: Pairs,
    cutoff_hz: Sample,
    filter: FilterState,
)
    requires
        filter.made_with(exp, cutoff_hz),
    ensures
        filter.sample_rate@ is Finite,
        filter.sample_rate@.units() == 44100 * pow2(149),
        filter.cutoff_hz == cutoff_hz,
        filter.memory.len() == 0,
        coefficient_matches(exp, filter.sample_rate@, cutoff_hz@, filter.coefficient),
{
}

/// Setting a cutoff that is not negative sets just that one, any other sets zero, and the filter
/// keeps everything else and is tuned anew.
pub proof fn law_cutoff_is_what_was_set(
    exp: Pairs,
    filter: FilterState,
    cutoff_hz: Number,
    after: FilterState,
)
    requires
        filter.cut_off_at(exp, cutoff_hz, after),
    ensures
        cutoff_hz !is Undefined && cutoff_hz.units() >= 0 ==> after.cutoff_hz@ == cutoff_hz,
        cutoff_hz is Undefined || cutoff_hz.units() < 0 ==> after.cutoff_hz@.units() == 0,
        after.sample_rate == filter.sample_rate,
        after.memory == filter.memory,
        coefficient_matches(exp, after.sample_rate@, after.cutoff_hz@, after.coefficient),
{
}

/// Preparing for a sample rate of at least one sets just that one, any other sets one, and the
/// filter keeps everything else and is tuned anew.
pub proof fn law_sample_rate_is_what_was_prepared(
    exp: Pairs,
    filter: FilterState,
    sample_rate: Number,
    after: FilterState,
)
    requires
        filter.prepared_for(exp, sample_rate, after),
    ensures
        sample_rate !is Undefined && sample_rate.units() >= pow2(149) ==> after.sample_rate@
            == sample_rate,
        sample_rate is Undefined || sample_rate.units() < pow2(149) ==> after.sample_rate@ is Finite
            && after.sample_rate@.units() == pow2(149),
        after.cutoff_hz == filter.cutoff_hz,
        after.memory == filter.memory,
        coefficient_matches(exp, after.sample_rate@, after.cutoff_hz@, after.coefficient),
{
    assert(1 * pow2(149) == pow2(149));
}

/// The error of a filter's step from those of the difference, the product and the sum.
proof fn lemma_step_error(a: int, b: int, d: int, k: int, s: int, o: int, p: int, l: int)
    requires
        -l <= a <= l,
        -l <= b <= l,
        0 <= k <= p,
        0 < p,
        crate::number::gap(s, 0) <= crate::number::gap(d, 0),
        SIGNIFICAND_LIMIT * crate::number::gap(d, b - a) <= crate::number::gap(b - a, 0),
        2 * crate::number::gap(k * d, p * s) <= p || SIGNIFICAND_LIMIT * crate::number::gap(
            k * d,
            p * s,
        ) <= crate::number::gap(k * d, 0),
        SIGNIFICAND_LIMIT * crate::number::gap(o, a + s) <= crate::number::gap(a + s, 0),
    ensures
        0x10_0000 * crate::number::gap(p * o, p * a + k * (b - a)) <= p * l + 0x10_0000 * p,
{
    let (u, v, w) = (
        crate::number::gap(p * o, p * a + p * s),
        crate::number::gap(k * d, p * s),
        crate::number::gap(k * d, k * (b - a)),
    );
    let near = crate::number::gap(o, a + s);
    let off = crate::number::gap(d, b - a);
    let size = crate::number::gap(d, 0);
    let pl = p * l;
    assert(p * (a + s) == p * a + p * s) by (nonlinear_arith);
    assert(u == p * near) by (nonlinear_arith)
        requires
            p > 0,
            p * (a + s) == p * a + p * s,
            near == o - (a + s) || near == (a + s) - o,
            near >= 0,
            u == p * o - (p * a + p * s) || u == (p * a + p * s) - p * o,
            u >= 0,
    ;
    assert(w == k * off) by (nonlinear_arith)
        requires
            k >= 0,
            off == d - (b - a) || off == (b - a) - d,
            off >= 0,
            w == k * d - k * (b - a) || w == k * (b - a) - k * d,
            w >= 0,
    ;
    assert(size <= 3 * l);
    assert(0x100_0000 * near <= 4 * l);
    assert(0x100_0000 * u <= 4 * pl) by (nonlinear_arith)
        requires
            u == p * near,
            pl == p * l,
            0x100_0000 * near <= 4 * l,
            p > 0,
    ;
    assert(0x100_0000 * off <= 2 * l);
    assert(0x100_0000 * w <= 2 * pl) by (nonlinear_arith)
        requires
            w == k * off,
            pl == p * l,
            0x100_0000 * off <= 2 * l,
            off >= 0,
            0 <= k <= p,
    ;
    assert(crate::number::gap(k * d, 0) <= 3 * pl) by (nonlinear_arith)
        requires
            crate::number::gap(k * d, 0) == k * d || crate::number::gap(k * d, 0) == -(k * d),
            -size <= d <= size,
            0 <= size <= 3 * l,
            0 <= k <= p,
            pl == p * l,
    ;
    assert(0x100_0000 * v <= 3 * pl + 0x80_0000 * p) by {
        assert(pl >= 0) by (nonlinear_arith)
            requires
                pl == p * l,
                p > 0,
                l >= 0,
        ;
    }
    assert(crate::number::gap(p * o, p * a + k * (b - a)) <= u + v + w);
}

/// A filter's output is its previous output plus the coefficient's share of the difference to the
/// input, but for the rounding: within one part in two to the power 20 of the larger of the two,
/// and one unit.
pub proof fn law_filter_output_is_linear(
    coefficient: Number,
    previous: Sample,
    input: Sample,
    reach: int,
)
    requires
        coefficient is Finite,
        0 <= coefficient.units() <= pow2(149),
        previous@ is Finite,
        input@ is Finite,
        -reach <= previous@.units() <= reach,
        -reach <= input@.units() <= reach,
        reach <= pow2(275) || (input@.minus(previous@) is Finite && smoothed(
            coefficient,
            previous@,
            input@,
        ) is Finite),
    ensures
        smoothed(coefficient, previous@, input@) is Finite,
        0x10_0000 * crate::number::gap(
            pow2(149) * smoothed(coefficient, previous@, input@).units(),
            pow2(149) * previous@.units() + coefficient.units() * (input@.units()
                - previous@.units()),
        ) <= pow2(149) * reach + 0x10_0000 * pow2(149),
{
    let (a, b, p) = (previous@.units(), input@.units(), pow2(149) as int);
    let difference = input@.minus(previous@);
    let step = coefficient.times(difference);
    let most = (SIGNIFICAND_LIMIT - 1) * pow2(253);
    lemma2_to64();
    lemma_pow2_pos(149);
    lemma_pow2_pos(253);
    lemma_pow2_adds(22, 253);
    assert(1 * pow2(149) == pow2(149));
    assert(most >= 3 * pow2(275) + pow2(253)) by (nonlinear_arith)
        requires
            most == (SIGNIFICAND_LIMIT - 1) * pow2(253),
            pow2(275) == 0x40_0000 * pow2(253),
            pow2(253) > 0,
    ;
    if reach <= pow2(275) {
        crate::number::law_sum_in_range_is_finite(input@, previous@.negated());
    }
    crate::number::law_sum_is_representable(input@, previous@.negated());
    crate::number::law_plus_error(input@, previous@.negated());
    crate::number::law_fraction_lies_between_zero_and_the_whole(coefficient, difference);
    if reach <= pow2(275) {
        assert(0x100_0000 * crate::number::gap(difference.units(), b - a) <= 2 * reach);
        assert(pow2(275) == 0x40_0000 * pow2(253));
        assert(crate::number::gap(difference.units(), 0) <= 2 * pow2(275) + pow2(253));
        crate::number::law_sum_in_range_is_finite(previous@, step);
    }
    crate::number::law_plus_error(previous@, step);
    crate::number::law_times_error(coefficient, difference);
    lemma_step_error(
        a,
        b,
        difference.units(),
        coefficient.units(),
        step.units(),
        previous@.plus(step).units(),
        p,
        reach,
    );
}

/// A step from a finite output is undefined where the input or the coefficient is.
pub proof fn law_undefined_input_is_not_hidden(
    coefficient: Number,
    previous: Number,
    input: Number,
)
    requires
        coefficient is Undefined || previous is Undefined || input is Undefined,
    ensures
        smoothed(coefficient, previous, input) is Undefined,
{
}

/// However many channels and samples a block has, every sample of every channel is a step of the
/// filter from the output before it; a channel that the filter does not remember starts from zero.
pub proof fn law_filter_steps_through_every_sample(
    filter: FilterState,
    input: Channels,
    output: Channels,
    c: int,
    i: int,
)
    requires
        filter.filters(input, output),
        0 <= c < input.len(),
        0 <= i < input[c].len(),
    ensures
        output.len() == input.len(),
        output[c].len() == input[c].len(),
        output[c][i]@ == smoothed(
            filter.coefficient@,
            if i > 0 {
                output[c][i - 1]@
            } else if c < filter.memory.len() {
                filter.memory[c]@
            } else {
                Sample { bits: 0 }@
            },
            input[c][i]@,
        ),
{
    let memory = filter.memory_for(input.len());
    assert(smooths(filter.coefficient@, memory[c], input[c], output[c]));
    assert(smooths_at(filter.coefficient@, memory[c], input[c], output[c], i));
}

/// A filter remembers the last output of every channel of a block; where a channel has none, it
/// keeps what it remembered, or starts with zero. Nothing else of it changes.
pub proof fn law_filter_remembers_the_last_outputs(filter: FilterState, output: Channels, c: int)
    requires
        0 <= c < output.len(),
    ensures
        filter.remembering(output).memory.len() == output.len(),
        filter.remembering(output).memory[c] == if output[c].len() > 0 {
            output[c][output[c].len() - 1]
        } else if c < filter.memory.len() {
            filter.memory[c]
        } else {
            Sample { bits: 0 }
        },
        filter.remembering(output).sample_rate == filter.sample_rate,
        filter.remembering(output).cutoff_hz == filter.cutoff_hz,
        filter.remembering(output).coefficient == filter.coefficient,
{
}

/// A reset filter has zero as the last output of every channel, and nothing else of it changes.
pub proof fn law_reset_filter_forgets_every_channel(filter: FilterState)
    ensures
        filter.forgetting().memory.len() == filter.memory.len(),
        forall|c: int|
            0 <= c < filter.memory.len() ==> (#[trigger] filter.forgetting().memory[c]).bits == 0,
        filter.forgetting().sample_rate == filter.sample_rate,
        filter.forgetting().cutoff_hz == filter.cutoff_hz,
        filter.forgetting().coefficient == filter.coefficient,
{
}

/// A single sample is a step of its channel alone, and passes through where the filter does not
/// remember the channel.
pub proof fn law_step_touches_one_channel(
    filter: FilterState,
    channel: nat,
    input: Sample,
    output: Sample,
    after: FilterState,
)
    requires
        filter.steps(channel, input, output, after),
    ensures
        channel >= filter.memory.len() ==> output == input && after == filter,
        channel < filter.memory.len() ==> {
            &&& output@ == smoothed(
                filter.coefficient@,
                filter.memory[channel as int]@,
                input@,
            )
            &&& after.memory.len() == filter.memory.len()
            &&& after.memory[channel as int] == output
            &&& forall|c: int|
                0 <= c < filter.memory.len() && c != channel ==> #[trigger] after.memory[c]
                    == filter.memory[c]
            &&& after.sample_rate == filter.sample_rate
            &&& after.cutoff_hz == filter.cutoff_hz
            &&& after.coefficient == filter.coefficient
        },
{
}

/// A block of one sample per channel is a step of each channel, so that blocks and single samples
/// may be mixed.
pub proof fn law_block_of_one_sample_is_a_step(
    filter: FilterState,
    input: Channels,
    output: Channels,
    c: int,
)
    requires
        filter.filters(input, output),
        0 <= c < input.len(),
        input[c].len() == 1,
        c < filter.memory.len(),
    ensures
        output[c].len() == 1,
        filter.steps(
            c as nat,
            input[c][0],
            output[c][0],
            FilterState { memory: filter.memory.update(c, output[c][0]), ..filter },
        ),
        filter.remembering(output).memory[c] == output[c][0],
{
    law_filter_steps_through_every_sample(filter, input, output, c, 0);
}

/// What a filter does as a processor is what it does as a filter.
pub proof fn law_filter_kind_is_that_of_the_filter(
    exp: Pairs,
    filter: FilterState,
    sample_rate: Sample,
    max_block_size: usize,
    next: FilterState,
    midi_events: Seq<MidiEvent>,
    input: Block,
    output: Block,
    after: ProcessorState,
)
    ensures
        filter_kind(exp).prepares(filter.state(), sample_rate, max_block_size, next.state())
            <==> filter.prepared_for(exp, sample_rate@, next),
        filter_kind(exp).processes(filter.state(), midi_events, input, output, after) <==> {
            &&& output.samples == input.samples
            &&& filter.filters(input.channels, output.channels)
            &&& after == filter.remembering(output.channels).state()
        },
        filter_kind(exp).resets(filter.state(), after) <==> after == filter.forgetting().state(),
{
    law_values_give_the_filter(filter);
    law_values_give_the_filter(next);
}

/// A decay from zero to one makes a coefficient from zero to one.
pub proof fn law_coefficient_is_in_unit_range(decay: Sample)
    requires
        decay@.within(Number::zero(), Number::whole(1)),
    ensures
        Number::whole(1).minus(decay@).within(Number::zero(), Number::whole(1)),
{
    let one = Number::whole(1);
    lemma_pow2_pos(149);
    lemma_pow2_strictly_increases(149, 277);
    decay.law_is_representable();
    assert(one.representable()) by {
        assert(1 * pow2(149) == pow2(149));
    }
    crate::number::law_minus_self(decay@);
    crate::number::law_plus_is_monotone(decay@, one, decay@.negated());
    crate::number::law_plus_does_not_increase(one, decay@.negated());
}

/// The difference that a filter works on has the sign of the order.
proof fn lemma_difference(previous: Sample, input: Sample)
    requires
        previous@.is_finite(),
        input@.is_finite(),
    ensures
        previous@.at_most(input@) ==> Number::zero().at_most(input@.minus(previous@)),
        input@.at_most(previous@) ==> input@.minus(previous@).at_most(Number::zero()),
{
    previous.law_is_representable();
    input.law_is_representable();
    crate::number::law_minus_self(previous@);
    if previous@.at_most(input@) {
        crate::number::law_plus_is_monotone(previous@, input@, previous@.negated());
    }
    if input@.at_most(previous@) {
        crate::number::law_plus_is_monotone(input@, previous@, previous@.negated());
    }
}

/// With a coefficient that is not negative a filter never moves away from its input.
pub proof fn law_filter_moves_toward_its_input(
    coefficient: Number,
    previous: Sample,
    input: Sample,
)
    requires
        coefficient.is_finite(),
        Number::zero().at_most(coefficient),
        previous@.is_finite(),
        input@.is_finite(),
        input@.minus(previous@).is_finite() || !coefficient.is_zero(),
    ensures
        previous@.at_most(input@) ==> previous@.at_most(
            smoothed(coefficient, previous@, input@),
        ),
        input@.at_most(previous@) ==> smoothed(coefficient, previous@, input@).at_most(previous@),
{
    let difference = input@.minus(previous@);
    let step = coefficient.times(difference);
    lemma_difference(previous, input);
    previous.law_is_representable();
    crate::number::law_times_commutes(coefficient, difference);
    lemma_pow2_pos(277);
    if difference.is_finite() && previous@.at_most(input@) {
        crate::number::law_times_is_not_negative(coefficient, difference);
        crate::number::law_plus_does_not_decrease(previous@, step);
    }
    if difference.is_finite() && input@.at_most(previous@) {
        crate::number::law_times_is_monotone(difference, Number::zero(), coefficient);
        crate::number::law_times_commutes(Number::zero(), coefficient);
        crate::number::law_times_zero(coefficient);
        crate::number::law_plus_does_not_increase(previous@, step);
    }
}

/// With a coefficient from zero to one a filter stops where it has moved by the whole difference to
/// its input: beyond the input by no more than the rounding of that.
pub proof fn law_filter_stops_at_its_input(coefficient: Number, previous: Sample, input: Sample)
    requires
        coefficient.within(Number::zero(), Number::whole(1)),
        previous@.is_finite(),
        input@.is_finite(),
        input@.minus(previous@).is_finite() || !coefficient.is_zero(),
    ensures
        previous@.at_most(input@) ==> smoothed(coefficient, previous@, input@).at_most(
            previous@.plus(input@.minus(previous@)),
        ),
        input@.at_most(previous@) ==> previous@.plus(input@.minus(previous@)).at_most(
            smoothed(coefficient, previous@, input@),
        ),
{
    let difference = input@.minus(previous@);
    let step = coefficient.times(difference);
    lemma_difference(previous, input);
    lemma_pow2_pos(149);
    lemma_pow2_strictly_increases(149, 277);
    assert(1 * pow2(149) == pow2(149));
    assert(coefficient.is_finite());
    crate::number::law_minus_is_positive(input@, previous@);
    if difference.is_finite() {
        crate::number::law_fraction_lies_between_zero_and_the_whole(coefficient, difference);
        crate::number::law_plus_commutes(previous@, step);
        crate::number::law_plus_commutes(previous@, difference);
        if previous@.at_most(input@) {
            crate::number::law_plus_is_monotone(step, difference, previous@);
        }
        if input@.at_most(previous@) {
            crate::number::law_plus_is_monotone(difference, step, previous@);
        }
    }
}

/// A filter that lets nothing through holds its last output.
pub proof fn law_blocking_filter_holds_its_output(previous: Sample, input: Sample)
    requires
        previous@.is_finite(),
        input@.is_finite(),
        input@.minus(previous@).is_finite(),
    ensures
        smoothed(Number::zero(), previous@, input@).equals(previous@),
{
    let difference = input@.minus(previous@);
    previous.law_is_representable();
    crate::number::law_times_commutes(Number::zero(), difference);
    crate::number::law_times_zero(difference);
    crate::number::law_plus_does_not_decrease(previous@, Number::zero().times(difference));
    crate::number::law_plus_does_not_increase(previous@, Number::zero().times(difference));
}

/// Silence stays silence.
pub proof fn law_filter_keeps_silence(coefficient: Number, previous: Number, input: Number)
    requires
        coefficient.is_finite(),
        previous.is_zero(),
        input.is_zero(),
    ensures
        smoothed(coefficient, previous, input).is_zero(),
{
    let difference = input.minus(previous);
    assert(difference.is_zero());
    assert(coefficient.times(difference).is_zero()) by {
        lemma_pow2_pos(149);
        lemma_pow2_pos(277);
        crate::rounding::lemma_nearest_zero(pow2(149));
        assert(coefficient->magnitude * 0 == 0);
    }
}

/// A filter that was reset starts every channel from silence, as one without any memory does.
pub proof fn law_reset_filter_starts_from_silence(filter: FilterState, channels: nat)
    ensures
        filter.forgetting().memory_for(channels) == crate::audio::silence(channels),
        (FilterState { memory: Seq::empty(), ..filter }).memory_for(channels)
            == crate::audio::silence(channels),
        filter.forgetting().forgetting() == filter.forgetting(),
{
    assert(filter.forgetting().memory_for(channels) =~= crate::audio::silence(channels));
    assert((FilterState { memory: Seq::empty(), ..filter }).memory_for(channels)
        =~= crate::audio::silence(channels));
    assert(filter.forgetting().forgetting().memory =~= filter.forgetting().memory);
}

/// Whether two sequences of samples have the same values.
pub open spec fn same_values(one: Seq<Sample>, other: Seq<Sample>) -> bool {
    &&& one.len() == other.len()
    &&& forall|i: int| 0 <= i < one.len() ==> (#[trigger] one[i])@ == other[i]@
}

/// Whether two blocks of channels have the same values.
pub open spec fn same_channels(one: Channels, other: Channels) -> bool {
    &&& one.len() == other.len()
    &&& forall|c: int| 0 <= c < one.len() ==> same_values(#[trigger] one[c], other[c])
}

/// Whether two cutoffs tune a filter alike: those that are not positive let nothing through.
pub open spec fn same_cutoff(one: Number, other: Number) -> bool {
    one == other || (one.at_most(Number::zero()) && other.at_most(Number::zero()))
}

/// Whether the results of a function are equal in value for arguments of equal value.
pub open spec fn goes_by_value(function: Pairs) -> bool {
    forall|a: Sample, x: Sample, b: Sample, y: Sample|
        #[trigger] gives(function, a, x) && #[trigger] gives(function, b, y) && a@ == b@ ==> x@
            == y@
}

impl FilterState {
    /// Whether two filters are tuned alike.
    pub open spec fn tuned_like(self, other: FilterState) -> bool {
        &&& self.sample_rate@ == other.sample_rate@
        &&& same_cutoff(self.cutoff_hz@, other.cutoff_hz@)
        &&& self.coefficient@ == other.coefficient@
    }

    /// Whether nothing that the filters put out tells them apart.
    pub open spec fn alike(self, other: FilterState) -> bool {
        self.tuned_like(other) && same_values(self.memory, other.memory)
    }

    /// Whether nothing that the filters make of blocks tells them apart.
    pub open spec fn alike_on_blocks(self, other: FilterState) -> bool {
        &&& self.tuned_like(other)
        &&& forall|channels: nat|
            same_values(#[trigger] self.memory_for(channels), other.memory_for(channels))
    }
}

/// Filters that are alike are so on blocks, too.
pub proof fn law_alike_filters_are_alike_on_blocks(one: FilterState, other: FilterState)
    requires
        one.alike(other),
    ensures
        one.alike_on_blocks(other),
{
}

/// The sample rate and cutoff determine the value of the coefficient, provided that the exponential
/// goes by value.
pub proof fn law_coefficient_is_determined(
    exp: Pairs,
    one: FilterState,
    other: FilterState,
)
    requires
        goes_by_value(exp),
        one.tuned_by(exp),
        other.tuned_by(exp),
        one.sample_rate@ == other.sample_rate@,
        same_cutoff(one.cutoff_hz@, other.cutoff_hz@),
    ensures
        one.tuned_like(other),
{
}

/// A filter's output is determined by its coefficient, its last output and its input.
pub proof fn law_filter_output_is_determined(
    coefficient: Number,
    before: Sample,
    input: Seq<Sample>,
    output: Seq<Sample>,
    other_before: Sample,
    other_input: Seq<Sample>,
    other_output: Seq<Sample>,
)
    requires
        smooths(coefficient, before, input, output),
        smooths(coefficient, other_before, other_input, other_output),
        before@ == other_before@,
        same_values(input, other_input),
    ensures
        same_values(output, other_output),
        last_output(before, output)@ == last_output(other_before, other_output)@,
    decreases input.len(),
{
    if input.len() > 0 {
        let last = input.len() - 1;
        let (front, other_front) = (output.drop_last(), other_output.drop_last());
        assert(smooths_at(coefficient, before, input, output, last));
        assert(smooths_at(coefficient, other_before, other_input, other_output, last));
        assert(input[last]@ == other_input[last]@);
        assert forall|i: int| 0 <= i < last implies #[trigger] smooths_at(
            coefficient,
            before,
            input.drop_last(),
            front,
            i,
        ) by {
            assert(smooths_at(coefficient, before, input, output, i));
        }
        assert forall|i: int| 0 <= i < last implies #[trigger] smooths_at(
            coefficient,
            other_before,
            other_input.drop_last(),
            other_front,
            i,
        ) by {
            assert(smooths_at(coefficient, other_before, other_input, other_output, i));
        }
        assert forall|i: int| 0 <= i < last implies (#[trigger] input.drop_last()[i])@
            == other_input.drop_last()[i]@ by {
            assert(input[i]@ == other_input[i]@);
        }
        law_filter_output_is_determined(
            coefficient,
            before,
            input.drop_last(),
            front,
            other_before,
            other_input.drop_last(),
            other_front,
        );
        assert forall|i: int| 0 <= i < output.len() implies (#[trigger] output[i])@
            == other_output[i]@ by {
            if i < last {
                assert(front[i]@ == other_front[i]@);
            }
        }
    }
}

/// Filters that are alike make the same of a sample and stay alike.
pub proof fn law_alike_filters_step_alike(
    one: FilterState,
    other: FilterState,
    channel: nat,
    input: Sample,
    other_input: Sample,
    output: Sample,
    other_output: Sample,
    after: FilterState,
    other_after: FilterState,
)
    requires
        one.alike(other),
        input@ == other_input@,
        one.steps(channel, input, output, after),
        other.steps(channel, other_input, other_output, other_after),
    ensures
        output@ == other_output@,
        after.alike(other_after),
{
    if channel < one.memory.len() {
        assert(one.memory[channel as int]@ == other.memory[channel as int]@);
    }
}

/// Filters that are alike on blocks make the same of a block and are alike from then on.
pub proof fn law_alike_filters_filter_alike(
    one: FilterState,
    other: FilterState,
    input: Channels,
    other_input: Channels,
    output: Channels,
    other_output: Channels,
)
    requires
        one.alike_on_blocks(other),
        same_channels(input, other_input),
        one.filters(input, output),
        other.filters(other_input, other_output),
    ensures
        same_channels(output, other_output),
        one.remembering(output).alike(other.remembering(other_output)),
{
    let memory = one.memory_for(input.len());
    let other_memory = other.memory_for(input.len());
    assert(same_values(memory, other_memory));
    assert forall|c: int| 0 <= c < output.len() implies same_values(
        #[trigger] output[c],
        other_output[c],
    ) && last_output(memory[c], output[c])@ == last_output(other_memory[c], other_output[c])@ by {
        assert(same_values(input[c], other_input[c]));
        assert(memory[c]@ == other_memory[c]@);
        law_filter_output_is_determined(
            one.coefficient@,
            memory[c],
            input[c],
            output[c],
            other_memory[c],
            other_input[c],
            other_output[c],
        );
    }
    assert forall|c: int| 0 <= c < output.len() implies (#[trigger] one.remembering(
        output,
    ).memory[c])@ == other.remembering(other_output).memory[c]@ by {
        assert(same_values(output[c], other_output[c]));
    }
}

/// Filters that are alike stay so when both are prepared, cut off or reset alike.
pub proof fn law_alike_filters_stay_alike(
    exp: Pairs,
    one: FilterState,
    other: FilterState,
    number: Number,
    after: FilterState,
    other_after: FilterState,
)
    requires
        goes_by_value(exp),
        ({
            ||| one.prepared_for(exp, number, after) && other.prepared_for(exp, number, other_after)
            ||| one.cut_off_at(exp, number, after) && other.cut_off_at(exp, number, other_after)
            ||| after == one.forgetting() && other_after == other.forgetting()
        }),
    ensures
        one.alike(other) ==> after.alike(other_after),
        one.alike_on_blocks(other) ==> after.alike_on_blocks(other_after),
{
    if one.tuned_like(other) && !(after == one.forgetting() && other_after
        == other.forgetting()) {
        law_coefficient_is_determined(exp, after, other_after);
    }
    if one.alike_on_blocks(other) {
        assert forall|channels: nat|
            same_values(
                #[trigger] after.memory_for(channels),
                other_after.memory_for(channels),
            ) by {
            assert(same_values(one.memory_for(channels), other.memory_for(channels)));
            if after.memory == one.memory && other_after.memory == other.memory {
                assert(after.memory_for(channels) =~= one.memory_for(channels));
                assert(other_after.memory_for(channels) =~= other.memory_for(channels));
            }
        }
    }
}

/// A filter made with a cutoff, one made with any cutoff and then set to it, and one made with it
/// and then prepared for the sample rate that filters start with are alike.
pub proof fn law_ways_to_make_a_filter_are_alike(
    exp: Pairs,
    cutoff_hz: Sample,
    any_cutoff: Sample,
    made: FilterState,
    other: FilterState,
    other_set: FilterState,
    prepared: FilterState,
)
    requires
        goes_by_value(exp),
        cutoff_hz@ !is Undefined,
        made.made_with(exp, cutoff_hz),
        other.made_with(exp, any_cutoff),
        other.cut_off_at(exp, cutoff_hz@, other_set),
        made.prepared_for(exp, Number::whole(44100), prepared),
    ensures
        made.alike(other_set),
        made.alike(prepared),
{
    lemma_pow2_pos(149);
    assert(prepared.sample_rate@ == made.sample_rate@) by {
        assert(1 * pow2(149) <= 44100 * pow2(149)) by (nonlinear_arith);
    }
    law_coefficient_is_determined(exp, made, other_set);
    law_coefficient_is_determined(exp, made, prepared);
}

/// Sample rates below one, and undefined ones, act as one.
pub proof fn law_low_sample_rates_act_as_one(
    exp: Pairs,
    filter: FilterState,
    sample_rate: Number,
    prepared: FilterState,
    other_prepared: FilterState,
)
    requires
        goes_by_value(exp),
        filter.prepared_for(exp, sample_rate, prepared),
        filter.prepared_for(
            exp,
            if Number::whole(1).at_most(sample_rate) {
                sample_rate
            } else {
                Number::whole(1)
            },
            other_prepared,
        ),
    ensures
        prepared.alike(other_prepared),
{
    law_coefficient_is_determined(exp, prepared, other_prepared);
}

/// The block size that a filter is prepared for has no effect.
pub proof fn law_block_size_has_no_effect(
    exp: Pairs,
    before: ProcessorState,
    sample_rate: Sample,
    block_size: usize,
    other_block_size: usize,
    after: ProcessorState,
)
    ensures
        filter_kind(exp).prepares(before, sample_rate, block_size, after) == filter_kind(
            exp,
        ).prepares(before, sample_rate, other_block_size, after),
{
}

/// Preparing a filter and setting its cutoff may be swapped.
pub proof fn law_preparing_and_cutting_off_commute(
    exp: Pairs,
    filter: FilterState,
    sample_rate: Number,
    cutoff_hz: Number,
    prepared: FilterState,
    prepared_first: FilterState,
    cut_off: FilterState,
    cut_off_first: FilterState,
)
    requires
        goes_by_value(exp),
        filter.prepared_for(exp, sample_rate, prepared),
        prepared.cut_off_at(exp, cutoff_hz, prepared_first),
        filter.cut_off_at(exp, cutoff_hz, cut_off),
        cut_off.prepared_for(exp, sample_rate, cut_off_first),
    ensures
        prepared_first.alike(cut_off_first),
{
    law_coefficient_is_determined(exp, prepared_first, cut_off_first);
}

/// A filter that was made, prepared, used on any blocks and reset makes the same of blocks as one
/// that was just made and prepared alike, and a second reset changes nothing.
pub proof fn law_reset_filter_acts_as_a_fresh_one(
    exp: Pairs,
    cutoff_hz: Sample,
    sample_rate: Number,
    made: FilterState,
    prepared: FilterState,
    memory: Seq<Sample>,
    other_made: FilterState,
    fresh: FilterState,
)
    requires
        goes_by_value(exp),
        made.made_with(exp, cutoff_hz),
        made.prepared_for(exp, sample_rate, prepared),
        other_made.made_with(exp, cutoff_hz),
        other_made.prepared_for(exp, sample_rate, fresh),
    ensures
        ({
            let used = FilterState { memory, ..prepared };
            &&& used.forgetting().alike_on_blocks(fresh)
            &&& used.forgetting().forgetting() == used.forgetting()
        }),
{
    let used = FilterState { memory, ..prepared };
    law_coefficient_is_determined(exp, prepared, fresh);
    law_reset_filter_starts_from_silence(used, 0);
    assert forall|channels: nat|
        same_values(
            #[trigger] used.forgetting().memory_for(channels),
            fresh.memory_for(channels),
        ) by {
        law_reset_filter_starts_from_silence(used, channels);
        law_reset_filter_starts_from_silence(fresh, channels);
        assert(fresh.memory =~= Seq::empty());
    }
}

/// Processing blocks and samples changes nothing but a filter's memory.
pub proof fn law_use_changes_only_the_memory(
    filter: FilterState,
    output: Channels,
    channel: nat,
    input: Sample,
    sample: Sample,
    after: FilterState,
)
    requires
        filter.steps(channel, input, sample, after),
    ensures
        filter.remembering(output) == (FilterState {
            memory: filter.remembering(output).memory,
            ..filter
        }),
        after == (FilterState { memory: after.memory, ..filter }),
{
}

/// Where the samples of one channel are cut into blocks makes no difference.
pub proof fn law_channel_does_not_see_block_boundaries(
    coefficient: Number,
    before: Sample,
    first: Seq<Sample>,
    first_output: Seq<Sample>,
    second: Seq<Sample>,
    second_output: Seq<Sample>,
)
    requires
        smooths(coefficient, before, first, first_output),
        smooths(coefficient, last_output(before, first_output), second, second_output),
    ensures
        smooths(coefficient, before, first + second, first_output + second_output),
        last_output(before, first_output + second_output) == last_output(
            last_output(before, first_output),
            second_output,
        ),
{
    let input = first + second;
    let output = first_output + second_output;
    let count = first.len() as int;
    assert forall|i: int| 0 <= i < input.len() implies #[trigger] smooths_at(
        coefficient,
        before,
        input,
        output,
        i,
    ) by {
        if i < count {
            assert(smooths_at(coefficient, before, first, first_output, i));
            assert(output[i] == first_output[i]);
            if i > 0 {
                assert(output[i - 1] == first_output[i - 1]);
            }
        } else {
            assert(smooths_at(
                coefficient,
                last_output(before, first_output),
                second,
                second_output,
                i - count,
            ));
            assert(output[i] == second_output[i - count]);
            if i > count {
                assert(output[i - 1] == second_output[i - count - 1]);
            } else if i > 0 {
                assert(output[i - 1] == first_output.last());
            }
        }
    }
}

/// Blocks with the same number of channels, one after the other.
pub open spec fn joined(first: Channels, second: Channels) -> Channels {
    Seq::new(first.len(), |c: int| first[c] + second[c])
}

/// Where a stream of samples is cut into blocks makes no difference to what a filter puts out or
/// remembers.
pub proof fn law_filter_does_not_see_block_boundaries(
    filter: FilterState,
    first: Channels,
    first_output: Channels,
    second: Channels,
    second_output: Channels,
)
    requires
        first.len() == second.len(),
        filter.filters(first, first_output),
        filter.remembering(first_output).filters(second, second_output),
    ensures
        filter.filters(joined(first, second), joined(first_output, second_output)),
        filter.remembering(joined(first_output, second_output)) == filter.remembering(
            first_output,
        ).remembering(second_output),
{
    let memory = filter.memory_for(first.len());
    let between = filter.remembering(first_output);
    let output = joined(first_output, second_output);
    assert(between.memory_for(second.len()) =~= between.memory);
    assert forall|c: int| 0 <= c < first.len() implies smooths(
        filter.coefficient@,
        memory[c],
        joined(first, second)[c],
        #[trigger] output[c],
    ) && last_output(memory[c], output[c]) == last_output(between.memory[c], second_output[c]) by {
        assert(smooths(filter.coefficient@, memory[c], first[c], first_output[c]));
        assert(smooths(filter.coefficient@, between.memory[c], second[c], second_output[c]));
        law_channel_does_not_see_block_boundaries(
            filter.coefficient@,
            memory[c],
            first[c],
            first_output[c],
            second[c],
            second_output[c],
        );
    }
    assert forall|c: int| 0 <= c < first.len() implies #[trigger] filter.remembering(
        output,
    ).memory[c] == between.remembering(second_output).memory[c] by {
        assert(output[c] == first_output[c] + second_output[c]);
    }
    assert(filter.remembering(output).memory =~= between.remembering(second_output).memory);
}

/// A filter's state and kind are those of its numbers and its exponential, whatever its type.
pub proof fn law_filter_is_known_by_state_and_kind<E: Fn(Sample) -> Sample>(
    filter: OnePoleLowPass<E>,
)
    ensures
        filter.state() == filter@.state(),
        filter.kind() == filter_kind(filter.exponential()),
{
}

}
