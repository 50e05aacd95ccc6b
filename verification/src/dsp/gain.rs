//! Linear gain.

use crate::audio::{AudioProcessor, Block, Kind, ProcessContext, ProcessorState};
use crate::midi::MidiEvent;
use crate::number::Number;
use crate::parameter::{FloatParameter, ParameterId, ParameterState};
use crate::rounding::SIGNIFICAND_LIMIT;
use crate::sample::Sample;
use vstd::arithmetic::power2::*;
use vstd::prelude::*;

verus! {

/// Multiplies every sample by a linear gain value.
#[derive(Debug)]
pub struct GainProcessor {
    gain: FloatParameter,
}

impl GainProcessor {
    #[verifier::type_invariant]
    closed spec fn well_formed(self) -> bool {
        &&& self.gain@.min@ == Number::zero()
        &&& self.gain@.max@ == Number::whole(4)
        &&& self.gain@.value@.within(Number::zero(), Number::whole(4))
    }

    /// The gain parameter.
    pub closed spec fn parameter(&self) -> ParameterState {
        self.gain@
    }

    /// Creates a gain processor with unity gain.
    pub fn new() -> (res: Self)
        ensures
            unity_gain(res.parameter()),
            res.parameter().value@ == Number::whole(1),
    {
        proof {
            lemma_pow2_pos(149);
        }
        GainProcessor {
            gain: FloatParameter::new(
                ParameterId::new("gain"),
                Sample::zero(),
                Sample::from_whole(4),
                Sample::one(),
            ).expect("hard-coded gain parameter range is valid"),
        }
    }

    /// Sets linear gain.
    pub fn set_gain(&mut self, gain: Sample)
        requires
            gain@.within(Number::zero(), Number::whole(4)),
        ensures
            final(self).parameter() == (ParameterState { value: gain, ..old(self).parameter() }),
    {
        proof {
            use_type_invariant(&*self);
        }
        let mut parameter: FloatParameter = self.gain.clone();
        parameter.set_value(gain).expect("gain must be finite and in range 0.0..=4.0");
        self.gain = parameter;
    }

    /// Returns linear gain, which is always from zero to four.
    pub fn gain(&self) -> (res: Sample)
        ensures
            res == self.parameter().value,
            res@.within(Number::zero(), Number::whole(4)),
    {
        proof {
            use_type_invariant(self);
        }
        self.gain.value()
    }
}

impl Clone for GainProcessor {
    fn clone(&self) -> (res: GainProcessor)
        ensures
            res == *self,
    {
        proof {
            use_type_invariant(self);
        }
        GainProcessor { gain: self.gain.clone() }
    }
}

impl Default for GainProcessor {
    fn default() -> (res: Self)
        ensures
            unity_gain(res.parameter()),
            res.parameter().value@ == Number::whole(1),
    {
        Self::new()
    }
}

/// Whether `parameter` is the gain parameter, at one.
pub open spec fn unity_gain(parameter: ParameterState) -> bool {
    &&& parameter.id@ == "gain"@
    &&& parameter.min@ == Number::zero()
    &&& parameter.max@ == Number::whole(4)
    &&& parameter.default@ == Number::whole(1)
    &&& parameter.value == parameter.default
}

/// Whether `output` is `input` with every sample multiplied by `gain`.
pub open spec fn scaled(gain: Number, input: Seq<Sample>, output: Seq<Sample>) -> bool {
    &&& output.len() == input.len()
    &&& forall|i: int| 0 <= i < input.len() ==> (#[trigger] output[i])@ == input[i]@.times(gain)
}

fn scale(samples: &mut [Sample], gain: Sample)
    ensures
        scaled(gain@, old(samples)@, final(samples)@),
{
    let count: usize = samples.len();
    let mut index: usize = 0;
    while index < count
        invariant
            count == samples@.len(),
            count == old(samples)@.len(),
            index <= count,
            forall|i: int|
                0 <= i < index ==> (#[trigger] samples@[i])@ == old(samples)@[i]@.times(gain@),
            forall|i: int| index <= i < count ==> #[trigger] samples@[i] == old(samples)@[i],
        decreases count - index,
    {
        samples[index] = samples[index].times(gain);
        index = index + 1;
    }
}

/// Whether `output` is the block `input` with every sample multiplied by `gain`.
pub open spec fn scaled_block(gain: Number, input: Block, output: Block) -> bool {
    &&& output.samples == input.samples
    &&& output.channels.len() == input.channels.len()
    &&& forall|c: int|
        0 <= c < input.channels.len() ==> scaled(
            gain,
            input.channels[c],
            #[trigger] output.channels[c],
        )
}

/// What a gain remembers.
pub open spec fn gain_state(gain: Sample) -> ProcessorState {
    ProcessorState::Values(seq![gain])
}

/// What a gain does: it multiplies by what it remembers and remembers it on.
pub open spec fn gain_kind() -> Kind {
    Kind {
        preparing: |before: ProcessorState, rate: Sample, size: usize, after: ProcessorState|
            after == before,
        processing: |
            before: ProcessorState,
            midi_events: Seq<MidiEvent>,
            input: Block,
            output: Block,
            after: ProcessorState,
        |
            after == before && scaled_block(before->Values_0[0]@, input, output),
        resetting: |before: ProcessorState, after: ProcessorState| after == before,
    }
}

impl AudioProcessor for GainProcessor {
    open spec fn state(&self) -> ProcessorState {
        gain_state(self.parameter().value)
    }

    open spec fn kind(&self) -> Kind {
        gain_kind()
    }

    fn prepare(&mut self, sample_rate: Sample, max_block_size: usize)
        ensures
            final(self).parameter() == old(self).parameter(),
    {
    }

    fn process(&mut self, ctx: &mut ProcessContext<'_>)
        ensures
            final(self).parameter() == old(self).parameter(),
            final(ctx).buffer.samples() == old(ctx).buffer.samples(),
            final(ctx).buffer@.len() == old(ctx).buffer@.len(),
            forall|c: int|
                0 <= c < old(ctx).buffer@.len() ==> (#[trigger] final(ctx).buffer@[c]).len()
                    == old(ctx).buffer@[c].len(),
            forall|c: int, i: int|
                0 <= c < old(ctx).buffer@.len() && 0 <= i < old(ctx).buffer@[c].len() ==> (
                #[trigger] final(ctx).buffer@[c][i])@ == old(ctx).buffer@[c][i]@.times(
                    old(self).parameter().value@,
                ),
    {
        let gain: Sample = self.gain();
        let count: usize = ctx.buffer.num_channels();
        let mut index: usize = 0;
        while index < count
            invariant
                gain == self.parameter().value,
                *self == *old(self),
                index <= count,
                count == ctx.buffer@.len(),
                count == old(ctx).buffer@.len(),
                ctx.buffer.samples() == old(ctx).buffer.samples(),
                ctx.midi_events@ == old(ctx).midi_events@,
                *final(ctx.buffer) == *final(old(ctx).buffer),
                forall|c: int|
                    0 <= c < index ==> scaled(
                        gain@,
                        old(ctx).buffer@[c],
                        #[trigger] ctx.buffer@[c],
                    ),
                forall|c: int|
                    index <= c < count ==> #[trigger] ctx.buffer@[c] == old(ctx).buffer@[c],
            decreases count - index,
        {
            match ctx.buffer.channel_mut(index) {
                Some(channel) => scale(channel, gain),
                None => {},
            }
            index = index + 1;
        }
    }

    fn reset(&mut self)
        ensures
            final(self).parameter() == old(self).parameter(),
    {
    }
}

/// However many channels and samples a block has, a gain multiplies every sample of every channel.
pub proof fn law_gain_multiplies_every_sample(gain: Number, input: Block, output: Block)
    ensures
        scaled_block(gain, input, output) <==> {
            &&& output.samples == input.samples
            &&& output.channels.len() == input.channels.len()
            &&& forall|c: int|
                0 <= c < input.channels.len() ==> (#[trigger] output.channels[c]).len()
                    == input.channels[c].len()
            &&& forall|c: int, i: int|
                0 <= c < input.channels.len() && 0 <= i < input.channels[c].len() ==> (
                #[trigger] output.channels[c][i])@ == input.channels[c][i]@.times(gain)
        },
{
    if forall|c: int, i: int|
        0 <= c < input.channels.len() && 0 <= i < input.channels[c].len() ==> (
        #[trigger] output.channels[c][i])@ == input.channels[c][i]@.times(gain) {
        assert forall|c: int|
            0 <= c < input.channels.len() && output.channels.len() == input.channels.len()
                && output.channels[c].len() == input.channels[c].len() implies scaled(
            gain,
            input.channels[c],
            #[trigger] output.channels[c],
        ) by {
            assert forall|i: int| 0 <= i < input.channels[c].len() implies (
            #[trigger] output.channels[c][i])@ == input.channels[c][i]@.times(gain) by {}
        }
    }
}

/// A multiplied sample is the exact product of sample and gain, but for the rounding.
pub proof fn law_gained_sample_is_the_product(
    gain: Number,
    input: Block,
    output: Block,
    c: int,
    i: int,
)
    requires
        scaled_block(gain, input, output),
        0 <= c < input.channels.len(),
        0 <= i < input.channels[c].len(),
        gain.is_finite(),
        input.channels[c][i]@.is_finite(),
        output.channels[c][i]@.is_finite(),
    ensures
        ({
            let exact = input.channels[c][i]@.units() * gain.units();
            let error = crate::number::gap(exact, pow2(149) * output.channels[c][i]@.units());
            2 * error <= pow2(149) || SIGNIFICAND_LIMIT * error <= crate::number::gap(exact, 0)
        }),
{
    assert(scaled(gain, input.channels[c], output.channels[c]));
    crate::number::law_times_error(input.channels[c][i]@, gain);
}

/// Two blocks with the same number of channels, one after the other.
pub open spec fn appended(first: Block, second: Block) -> Block {
    Block {
        channels: Seq::new(first.channels.len(), |c: int| first.channels[c] + second.channels[c]),
        samples: first.samples + second.samples,
    }
}

/// Where a stream of samples is cut into blocks makes no difference to a gain.
pub proof fn law_gain_does_not_see_block_boundaries(
    gain: Number,
    first: Block,
    first_output: Block,
    second: Block,
    second_output: Block,
)
    requires
        first.channels.len() == second.channels.len(),
        scaled_block(gain, first, first_output),
        scaled_block(gain, second, second_output),
    ensures
        scaled_block(gain, appended(first, second), appended(first_output, second_output)),
{
    let (input, output) = (appended(first, second), appended(first_output, second_output));
    assert forall|c: int| 0 <= c < input.channels.len() implies scaled(
        gain,
        input.channels[c],
        #[trigger] output.channels[c],
    ) by {
        assert(scaled(gain, first.channels[c], first_output.channels[c]));
        assert(scaled(gain, second.channels[c], second_output.channels[c]));
        let count = first.channels[c].len() as int;
        assert forall|i: int| 0 <= i < input.channels[c].len() implies (
        #[trigger] output.channels[c][i])@ == input.channels[c][i]@.times(gain) by {
            if i < count {
                assert(output.channels[c][i] == first_output.channels[c][i]);
            } else {
                assert(output.channels[c][i] == second_output.channels[c][i - count]);
            }
        }
    }
}

/// A gain of zero silences every finite sample of every channel of a block, and a gain of one
/// changes no value in it.
pub proof fn law_zero_and_one_on_whole_blocks(input: Block, output: Block, c: int, i: int)
    requires
        0 <= c < input.channels.len(),
        0 <= i < input.channels[c].len(),
    ensures
        scaled_block(Number::zero(), input, output) && input.channels[c][i]@ is Finite
            ==> output.channels[c][i]@.units() == 0,
        scaled_block(Number::whole(1), input, output) ==> output.channels[c][i]@
            == input.channels[c][i]@,
{
    if scaled_block(Number::zero(), input, output) && input.channels[c][i]@ is Finite {
        assert(scaled(Number::zero(), input.channels[c], output.channels[c]));
        crate::number::law_times_zero(input.channels[c][i]@);
    }
    if scaled_block(Number::whole(1), input, output) {
        assert(scaled(Number::whole(1), input.channels[c], output.channels[c]));
        input.channels[c][i].law_is_representable();
        crate::number::law_times_one(input.channels[c][i]@);
    }
}

/// A gain processes a block by multiplying with the gain that it remembers, and neither that nor
/// preparing or resetting changes what it remembers.
pub proof fn law_gain_remembers_its_gain(
    gain: Sample,
    midi_events: Seq<MidiEvent>,
    input: Block,
    output: Block,
    sample_rate: Sample,
    max_block_size: usize,
    after: ProcessorState,
)
    ensures
        gain_kind().processes(gain_state(gain), midi_events, input, output, after) <==> after
            == gain_state(gain) && scaled_block(gain@, input, output),
        gain_kind().prepares(gain_state(gain), sample_rate, max_block_size, after) <==> after
            == gain_state(gain),
        gain_kind().resets(gain_state(gain), after) <==> after == gain_state(gain),
        gain_state(gain) == ProcessorState::Values(seq![gain]),
{
}

/// A gain of one changes no value.
pub proof fn law_unity_gain_changes_nothing(input: Seq<Sample>, output: Seq<Sample>)
    requires
        scaled(Number::whole(1), input, output),
    ensures
        forall|i: int| 0 <= i < input.len() ==> (#[trigger] output[i])@ == input[i]@,
{
    assert forall|i: int| 0 <= i < input.len() implies (#[trigger] output[i])@ == input[i]@ by {
        input[i].law_is_representable();
        crate::number::law_times_one(input[i]@);
    }
}

/// A gain of zero silences finite samples.
pub proof fn law_zero_gain_silences(input: Seq<Sample>, output: Seq<Sample>)
    requires
        scaled(Number::zero(), input, output),
        forall|i: int| 0 <= i < input.len() ==> (#[trigger] input[i])@.is_finite(),
    ensures
        forall|i: int| 0 <= i < input.len() ==> (#[trigger] output[i])@.is_zero(),
{
    assert forall|i: int| 0 <= i < input.len() implies (#[trigger] output[i])@.is_zero() by {
        crate::number::law_times_zero(input[i]@);
    }
}

/// Samples keep their order under any gain that can be set.
pub proof fn law_gain_keeps_the_order_of_samples(
    gain: Number,
    input: Seq<Sample>,
    output: Seq<Sample>,
    i: int,
    j: int,
)
    requires
        gain.within(Number::zero(), Number::whole(4)),
        gain.is_finite(),
        scaled(gain, input, output),
        0 <= i < input.len(),
        0 <= j < input.len(),
        input[i]@.is_finite(),
        input[j]@.is_finite(),
        input[i]@.at_most(input[j]@),
    ensures
        output[i]@.at_most(output[j]@),
{
    crate::number::law_times_is_monotone(input[i]@, input[j]@, gain);
}

}
