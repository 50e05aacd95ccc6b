//! Audio buffers and processing traits.

use crate::midi::MidiEvent;
use crate::sample::Sample;
use vstd::prelude::*;

verus! {

/// The channels of a buffer: one sequence of samples each.
pub type Channels = Seq<Seq<Sample>>;

/// `count` zeros.
pub open spec fn silence(count: nat) -> Seq<Sample> {
    Seq::new(count, |i: int| Sample { bits: 0 })
}

/// Channels of the same lengths, with all samples zero.
pub open spec fn cleared(channels: Channels) -> Channels {
    Seq::new(channels.len(), |c: int| silence(channels[c].len()))
}

/// Non-interleaved channel-major audio buffer.
#[derive(Debug, PartialEq)]
pub struct AudioBuffer<T> {
    channels: Vec<Vec<T>>,
    num_samples: usize,
}

impl<T> AudioBuffer<T> {
    /// The samples of each channel.
    pub closed spec fn view(&self) -> Seq<Seq<T>> {
        Seq::new(self.channels@.len(), |i: int| self.channels@[i]@)
    }

    /// The number of samples that each channel was made with.
    pub closed spec fn samples(&self) -> nat {
        self.num_samples as nat
    }

    /// Whether every channel has the buffer's number of samples.
    pub open spec fn well_formed(&self) -> bool {
        forall|i: int| 0 <= i < self@.len() ==> (#[trigger] self@[i]).len() == self.samples()
    }
}

/// Whether a vector of `count` elements of `bytes` bytes each can be allocated at all.
pub open spec fn allocatable(count: nat, bytes: nat) -> bool {
    count * bytes <= isize::MAX
}

impl AudioBuffer<Sample> {
    /// Creates a zero-filled buffer with `num_channels` channels and `num_samples` samples.
    pub fn new(num_channels: usize, num_samples: usize) -> (res: Self)
        requires
            allocatable(num_samples as nat, 4),
            allocatable(num_channels as nat, (usize::BITS / 8 * 3) as nat),
        ensures
            res.well_formed(),
            res.samples() == num_samples,
            res@ == Seq::new(num_channels as nat, |c: int| silence(num_samples as nat)),
            res@.len() == num_channels,
            forall|c: int| 0 <= c < num_channels ==> (#[trigger] res@[c]).len() == num_samples,
            forall|c: int, i: int|
                0 <= c < num_channels && 0 <= i < num_samples ==> (#[trigger] res@[c][i]).bits == 0,
    {
        let mut channels: Vec<Vec<Sample>> = Vec::with_capacity(num_channels);
        let mut index: usize = 0;
        while index < num_channels
            invariant
                index <= num_channels,
                channels@.len() == index,
                forall|c: int|
                    0 <= c < index ==> (#[trigger] channels@[c])@ == silence(num_samples as nat),
            decreases num_channels - index,
        {
            let channel: Vec<Sample> = vec![Sample::zero(); num_samples];
            assert(channel@ =~= silence(num_samples as nat));
            channels.push(channel);
            index = index + 1;
        }
        let res: Self = AudioBuffer { channels, num_samples };
        assert(res@ =~= Seq::new(num_channels as nat, |c: int| silence(num_samples as nat)));
        res
    }

    /// Returns the number of channels.
    pub fn num_channels(&self) -> (res: usize)
        ensures
            res == self@.len(),
    {
        self.channels.len()
    }

    /// Returns the number of samples per channel.
    pub fn num_samples(&self) -> (res: usize)
        ensures
            res == self.samples(),
    {
        self.num_samples
    }

    /// Returns an immutable channel slice, or `None` if out of range.
    pub fn channel(&self, index: usize) -> (res: Option<&[Sample]>)
        ensures
            match res {
                Some(channel) => index < self@.len() && channel@ == self@[index as int],
                None => index >= self@.len(),
            },
    {
        if index < self.channels.len() {
            Some(self.channels[index].as_slice())
        } else {
            None
        }
    }

    /// Returns a mutable channel slice, or `None` if out of range.
    pub fn channel_mut(&mut self, index: usize) -> (res: Option<&mut [Sample]>)
        ensures
            final(self).samples() == old(self).samples(),
            match res {
                Some(channel) => {
                    &&& index < old(self)@.len()
                    &&& channel@ == old(self)@[index as int]
                    &&& final(self)@ == old(self)@.update(index as int, final(channel)@)
                    &&& old(self).well_formed() && final(channel)@.len() == channel@.len()
                        ==> final(self).well_formed()
                },
                None => index >= old(self)@.len() && final(self)@ == old(self)@,
            },
    {
        if index < self.channels.len() {
            let channel: &mut Vec<Sample> = &mut self.channels[index];
            Some(channel.as_mut_slice())
        } else {
            None
        }
    }

    /// Clears all samples to zero.
    pub fn clear(&mut self)
        ensures
            final(self).samples() == old(self).samples(),
            final(self)@ == cleared(old(self)@),
            final(self)@.len() == old(self)@.len(),
            forall|c: int|
                0 <= c < old(self)@.len() ==> (#[trigger] final(self)@[c]).len() == old(
                    self,
                )@[c].len(),
            forall|c: int, i: int|
                0 <= c < old(self)@.len() && 0 <= i < old(self)@[c].len() ==> (
                #[trigger] final(self)@[c][i]).bits == 0,
            old(self).well_formed() ==> final(self).well_formed(),
    {
        let count: usize = self.channels.len();
        let mut index: usize = 0;
        while index < count
            invariant
                count == self.channels@.len(),
                count == old(self).channels@.len(),
                self.num_samples == old(self).num_samples,
                index <= count,
                forall|c: int|
                    0 <= c < index ==> (#[trigger] self.channels@[c])@ == silence(
                        old(self).channels@[c]@.len(),
                    ),
                forall|c: int|
                    index <= c < count ==> (#[trigger] self.channels@[c]) == old(self).channels@[c],
            decreases count - index,
        {
            fill(&mut self.channels[index], Sample::zero());
            assert(self.channels@[index as int]@ =~= silence(
                old(self).channels@[index as int]@.len(),
            ));
            index = index + 1;
        }
        assert(self@ =~= cleared(old(self)@));
    }

    /// Returns mutable channel slices for processing.
    ///
    /// This allocates; in a realtime audio thread, take the channels one by one with `channel_mut`.
    pub fn channels_mut(&mut self) -> (res: Vec<&mut [Sample]>)
        ensures
            final(self).samples() == old(self).samples(),
            res@.len() == old(self)@.len(),
            forall|c: int| 0 <= c < res@.len() ==> res@[c]@ == #[trigger] old(self)@[c],
            final(self)@.len() == old(self)@.len(),
            forall|c: int| 0 <= c < res@.len() ==> final(res@[c])@ == #[trigger] final(self)@[c],
    {
        slices_mut(self.channels.as_mut_slice())
    }
}

/// A mutable slice of each channel, in order.
fn slices_mut<'a>(channels: &'a mut [Vec<Sample>]) -> (res: Vec<&'a mut [Sample]>)
    ensures
        res@.len() == old(channels)@.len(),
        forall|c: int| 0 <= c < res@.len() ==> res@[c]@ == (#[trigger] old(channels)@[c])@,
        final(channels)@.len() == old(channels)@.len(),
        forall|c: int| 0 <= c < res@.len() ==> final(res@[c])@ == (#[trigger] final(channels)@[c])@,
    decreases old(channels)@.len(),
{
    let count: usize = channels.len();
    if count == 0 {
        return Vec::new();
    }
    let ghost all = channels@;
    let (front, back) = channels.split_at_mut(count - 1);
    let ghost first = front@;
    let mut res: Vec<&'a mut [Sample]> = slices_mut(front);
    match back.first_mut() {
        Some(channel) => {
            res.push(channel.as_mut_slice());
        },
        None => {},
    }
    assert forall|c: int| 0 <= c < res@.len() implies res@[c]@ == (#[trigger] all[c])@ by {
        if c < count - 1 {
            assert(first[c] == all[c]);
        }
    }
    res
}

/// Overwrites every element of `samples` with `value`.
fn fill(samples: &mut Vec<Sample>, value: Sample)
    ensures
        final(samples)@ == Seq::new(old(samples)@.len(), |i: int| value),
{
    let count: usize = samples.len();
    let mut index: usize = 0;
    while index < count
        invariant
            count == samples@.len(),
            count == old(samples)@.len(),
            index <= count,
            forall|i: int| 0 <= i < index ==> samples@[i] == value,
        decreases count - index,
    {
        samples[index] = value;
        index = index + 1;
    }
    assert(samples@ =~= Seq::new(old(samples)@.len(), |i: int| value));
}

impl<T: Clone> Clone for AudioBuffer<T> {
    fn clone(&self) -> (res: AudioBuffer<T>)
        ensures
            res.samples() == self.samples(),
            res@.len() == self@.len(),
            forall|c: int|
                0 <= c < self@.len() ==> (#[trigger] res@[c]).len() == self@[c].len(),
            forall|c: int, i: int|
                0 <= c < self@.len() && 0 <= i < self@[c].len() ==> cloned::<T>(
                    self@[c][i],
                    #[trigger] res@[c][i],
                ),
    {
        AudioBuffer { channels: self.channels.clone(), num_samples: self.num_samples }
    }
}

/// What a buffer holds: its channels and the number of samples it was made with.
pub struct Block {
    pub channels: Channels,
    pub samples: nat,
}

impl AudioBuffer<Sample> {
    /// What the buffer holds.
    pub open spec fn block(&self) -> Block {
        Block { channels: self@, samples: self.samples() }
    }
}

/// Per-block context passed to an audio processor.
pub struct ProcessContext<'a> {
    /// Audio block being processed.
    pub buffer: &'a mut AudioBuffer<Sample>,
    /// MIDI events for this block.
    pub midi_events: &'a [MidiEvent],
}

impl<'a> ProcessContext<'a> {
    /// Creates a process context from an audio buffer and MIDI event slice.
    pub fn new(buffer: &'a mut AudioBuffer<Sample>, midi_events: &'a [MidiEvent]) -> (res: Self)
        ensures
            *res.buffer == *old(buffer),
            *final(res.buffer) == *final(buffer),
            res.midi_events == midi_events,
    {
        ProcessContext { buffer, midi_events }
    }
}

/// What a processor remembers between calls.
pub enum ProcessorState {
    /// The numbers that a single processor remembers.
    Values(Seq<Sample>),
    /// What each processor of a container remembers.
    Parts(Seq<ProcessorState>),
}

/// What a processor does: how each method leads from one state to the next.
pub struct Kind {
    /// The states before and after preparing for a sample rate and block size.
    pub preparing: spec_fn(ProcessorState, Sample, usize, ProcessorState) -> bool,
    /// The states before and after a block with its events, as it was and as it became.
    pub processing: spec_fn(ProcessorState, Seq<MidiEvent>, Block, Block, ProcessorState) -> bool,
    /// The states before and after resetting.
    pub resetting: spec_fn(ProcessorState, ProcessorState) -> bool,
}

impl Kind {
    /// Whether preparing may lead from the state `before` to the state `after`.
    pub open spec fn prepares(
        self,
        before: ProcessorState,
        sample_rate: Sample,
        max_block_size: usize,
        after: ProcessorState,
    ) -> bool {
        (self.preparing)(before, sample_rate, max_block_size, after)
    }

    /// Whether processing may turn `input` into `output` and lead from `before` to `after`.
    pub open spec fn processes(
        self,
        before: ProcessorState,
        midi_events: Seq<MidiEvent>,
        input: Block,
        output: Block,
        after: ProcessorState,
    ) -> bool {
        (self.processing)(before, midi_events, input, output, after)
    }

    /// Whether resetting may lead from the state `before` to the state `after`.
    pub open spec fn resets(self, before: ProcessorState, after: ProcessorState) -> bool {
        (self.resetting)(before, after)
    }
}

/// Realtime audio processor interface.
///
/// An implementation says by its spec functions what each method does: its kind tells how a call
/// leads from one state to the next, and every call keeps the kind.
pub trait AudioProcessor {
    /// What the processor remembers.
    spec fn state(&self) -> ProcessorState;

    /// What the processor does.
    spec fn kind(&self) -> Kind;

    /// Prepares the processor for a sample rate and maximum block size.
    fn prepare(&mut self, sample_rate: Sample, max_block_size: usize)
        ensures
            old(self).kind().prepares(
                old(self).state(),
                sample_rate,
                max_block_size,
                final(self).state(),
            ),
            final(self).kind() == old(self).kind(),
    ;

    /// Processes one audio block in place: the context keeps its buffer and its events.
    fn process(&mut self, ctx: &mut ProcessContext<'_>)
        ensures
            old(self).kind().processes(
                old(self).state(),
                old(ctx).midi_events@,
                old(ctx).buffer.block(),
                final(ctx).buffer.block(),
                final(self).state(),
            ),
            final(self).kind() == old(self).kind(),
            final(ctx).midi_events@ == old(ctx).midi_events@,
            *final(final(ctx).buffer) == *final(old(ctx).buffer),
            old(ctx).buffer.well_formed() ==> final(ctx).buffer.well_formed(),
    ;

    /// Resets internal state.
    fn reset(&mut self)
        ensures
            old(self).kind().resets(old(self).state(), final(self).state()),
            final(self).kind() == old(self).kind(),
    ;
}

/// Silence is as long as asked for, and every sample of it is zero.
pub proof fn law_silence_is_zero_throughout(count: nat)
    ensures
        silence(count).len() == count,
        forall|i: int| 0 <= i < count ==> (#[trigger] silence(count)[i]).bits == 0,
{
}

/// Clearing keeps the number of channels and their lengths and makes every sample zero.
pub proof fn law_cleared_is_zero_throughout(channels: Channels, c: int, i: int)
    requires
        0 <= c < channels.len(),
        0 <= i < channels[c].len(),
    ensures
        cleared(channels).len() == channels.len(),
        cleared(channels)[c].len() == channels[c].len(),
        cleared(channels)[c][i].bits == 0,
{
}

/// Clearing once is enough.
pub proof fn law_clearing_twice_is_clearing_once(channels: Channels)
    ensures
        cleared(cleared(channels)) == cleared(channels),
{
    assert(cleared(cleared(channels)) =~~= cleared(channels));
}

/// A new buffer is clear.
pub proof fn law_new_buffer_is_clear(num_channels: nat, num_samples: nat)
    ensures
        cleared(Seq::new(num_channels, |c: int| silence(num_samples))) == Seq::new(
            num_channels,
            |c: int| silence(num_samples),
        ),
{
    let channels: Channels = Seq::new(num_channels, |c: int| silence(num_samples));
    assert(cleared(channels) =~~= channels);
}

}
