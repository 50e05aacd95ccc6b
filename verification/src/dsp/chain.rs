//! Sequential processor container.

use crate::audio::{AudioProcessor, Block, Kind, ProcessContext, ProcessorState};
use crate::dsp::gain::GainProcessor;
use crate::dsp::low_pass::OnePoleLowPass;
use crate::midi::MidiEvent;
use crate::sample::Sample;
use vstd::prelude::*;

verus! {

/// A processor of any type, so that one chain can hold processors of different types.
///
/// It has the state and kind of the boxed processor, and each call keeps the kind. The constructors
/// state that these are those of the value that was boxed; of a processor of another type this is
/// not stated.
pub struct AnyProcessor {
    pub processor: Box<dyn AudioProcessor>,
}

impl AudioProcessor for AnyProcessor {
    open spec fn state(&self) -> ProcessorState {
        self.processor.state()
    }

    open spec fn kind(&self) -> Kind {
        self.processor.kind()
    }

    fn prepare(&mut self, sample_rate: Sample, max_block_size: usize) {
        self.processor.prepare(sample_rate, max_block_size);
    }

    fn process(&mut self, ctx: &mut ProcessContext<'_>) {
        self.processor.process(ctx);
    }

    fn reset(&mut self) {
        self.processor.reset();
    }
}

impl AnyProcessor {
    /// A gain as a processor of any type.
    pub fn gain(processor: GainProcessor) -> (res: Self)
        ensures
            res.state() == processor.state(),
            res.kind() == processor.kind(),
    {
        AnyProcessor { processor: Box::new(processor) }
    }

    /// A filter as a processor of any type.
    pub fn low_pass<E: Fn(Sample) -> Sample + 'static>(processor: OnePoleLowPass<E>) -> (res: Self)
        ensures
            res.state() == processor.state(),
            res.kind() == processor.kind(),
    {
        AnyProcessor { processor: Box::new(processor) }
    }

    /// A chain as a processor of any type.
    pub fn chain<P: AudioProcessor + 'static>(processor: ProcessorChain<P>) -> (res: Self)
        ensures
            res.state() == processor.state(),
            res.kind() == processor.kind(),
    {
        AnyProcessor { processor: Box::new(processor) }
    }
}

/// Sequential processor container.
pub struct ProcessorChain<P: AudioProcessor> {
    processors: Vec<P>,
}

impl<P: AudioProcessor> View for ProcessorChain<P> {
    type V = Seq<P>;

    closed spec fn view(&self) -> Seq<P> {
        self.processors@
    }
}

impl<P: AudioProcessor> ProcessorChain<P> {
    /// Creates an empty processor chain.
    pub fn new() -> (res: Self)
        ensures
            res@ == Seq::<P>::empty(),
    {
        ProcessorChain { processors: Vec::new() }
    }

    /// Adds a processor to the end of the chain.
    ///
    /// This allocates and should be called during setup, not from the realtime audio thread.
    pub fn push(&mut self, processor: P)
        ensures
            final(self)@ == old(self)@.push(processor),
    {
        self.processors.push(processor);
    }

    /// Returns the number of processors in the chain.
    pub fn len(&self) -> (res: usize)
        ensures
            res == self@.len(),
    {
        self.processors.len()
    }

    /// Returns `true` when the chain contains no processors.
    pub fn is_empty(&self) -> (res: bool)
        ensures
            res == (self@.len() == 0),
    {
        self.processors.len() == 0
    }
}

impl<P: AudioProcessor> Default for ProcessorChain<P> {
    fn default() -> (res: Self)
        ensures
            res@ == Seq::<P>::empty(),
    {
        Self::new()
    }
}

/// What each of `processors` remembers.
pub open spec fn states<P: AudioProcessor>(processors: Seq<P>) -> Seq<ProcessorState> {
    processors.map_values(|processor: P| processor.state())
}

/// What each of `processors` does.
pub open spec fn kinds<P: AudioProcessor>(processors: Seq<P>) -> Seq<Kind> {
    processors.map_values(|processor: P| processor.kind())
}

/// Whether preparing processors of the given kinds may lead from the states `before` to `after`.
pub open spec fn prepares_all(
    kinds: Seq<Kind>,
    before: Seq<ProcessorState>,
    sample_rate: Sample,
    max_block_size: usize,
    after: Seq<ProcessorState>,
) -> bool {
    &&& before.len() == kinds.len()
    &&& after.len() == kinds.len()
    &&& forall|i: int|
        0 <= i < kinds.len() ==> (#[trigger] kinds[i]).prepares(
            before[i],
            sample_rate,
            max_block_size,
            after[i],
        )
}

/// Whether resetting processors of the given kinds may lead from the states `before` to `after`.
pub open spec fn resets_all(
    kinds: Seq<Kind>,
    before: Seq<ProcessorState>,
    after: Seq<ProcessorState>,
) -> bool {
    &&& before.len() == kinds.len()
    &&& after.len() == kinds.len()
    &&& forall|i: int|
        0 <= i < kinds.len() ==> (#[trigger] kinds[i]).resets(before[i], after[i])
}

/// Whether `blocks` are the stages of a block on its way through processors of the given kinds:
/// each of these, in order, may turn one stage into the next and lead from its place in `before` to
/// that in `after`.
pub open spec fn stages(
    kinds: Seq<Kind>,
    before: Seq<ProcessorState>,
    midi_events: Seq<MidiEvent>,
    blocks: Seq<Block>,
    after: Seq<ProcessorState>,
) -> bool {
    &&& blocks.len() == kinds.len() + 1
    &&& before.len() == kinds.len()
    &&& after.len() == kinds.len()
    &&& forall|i: int|
        0 <= i < kinds.len() ==> (#[trigger] kinds[i]).processes(
            before[i],
            midi_events,
            blocks[i],
            blocks[i + 1],
            after[i],
        )
}

/// Whether `input` may become `output` on its way through processors of the given kinds.
pub open spec fn runs_through(
    kinds: Seq<Kind>,
    before: Seq<ProcessorState>,
    midi_events: Seq<MidiEvent>,
    input: Block,
    output: Block,
    after: Seq<ProcessorState>,
) -> bool {
    exists|blocks: Seq<Block>|
        {
            &&& #[trigger] stages(kinds, before, midi_events, blocks, after)
            &&& blocks.first() == input
            &&& blocks.last() == output
        }
}

/// What a chain of processors of the given kinds does.
pub open spec fn chain_kind(kinds: Seq<Kind>) -> Kind {
    Kind {
        preparing: |before: ProcessorState, rate: Sample, size: usize, after: ProcessorState|
            {
                &&& before is Parts
                &&& after is Parts
                &&& prepares_all(kinds, before->Parts_0, rate, size, after->Parts_0)
            },
        processing: |
            before: ProcessorState,
            midi_events: Seq<MidiEvent>,
            input: Block,
            output: Block,
            after: ProcessorState,
        |
            {
                &&& before is Parts
                &&& after is Parts
                &&& runs_through(
                    kinds,
                    before->Parts_0,
                    midi_events,
                    input,
                    output,
                    after->Parts_0,
                )
            },
        resetting: |before: ProcessorState, after: ProcessorState|
            {
                &&& before is Parts
                &&& after is Parts
                &&& resets_all(kinds, before->Parts_0, after->Parts_0)
            },
    }
}

impl<P: AudioProcessor> AudioProcessor for ProcessorChain<P> {
    open spec fn state(&self) -> ProcessorState {
        ProcessorState::Parts(states(self@))
    }

    open spec fn kind(&self) -> Kind {
        chain_kind(kinds(self@))
    }

    fn prepare(&mut self, sample_rate: Sample, max_block_size: usize)
        ensures
            kinds(final(self)@) == kinds(old(self)@),
            prepares_all(
                kinds(old(self)@),
                states(old(self)@),
                sample_rate,
                max_block_size,
                states(final(self)@),
            ),
    {
        let count: usize = self.processors.len();
        let mut index: usize = 0;
        while index < count
            invariant
                count == self.processors@.len(),
                count == old(self).processors@.len(),
                index <= count,
                forall|i: int|
                    0 <= i < index ==> (#[trigger] old(self).processors@[i]).kind().prepares(
                        old(self).processors@[i].state(),
                        sample_rate,
                        max_block_size,
                        self.processors@[i].state(),
                    ),
                forall|i: int|
                    0 <= i < index ==> (#[trigger] self.processors@[i]).kind() == old(
                        self,
                    ).processors@[i].kind(),
                forall|i: int|
                    index <= i < count ==> self.processors@[i] == #[trigger] old(
                        self,
                    ).processors@[i],
            decreases count - index,
        {
            self.processors[index].prepare(sample_rate, max_block_size);
            index = index + 1;
        }
        proof {
            assert(kinds(self@) =~= kinds(old(self)@));
            let (all, before, after) = (kinds(old(self)@), states(old(self)@), states(self@));
            assert forall|i: int| 0 <= i < all.len() implies (#[trigger] all[i]).prepares(
                before[i],
                sample_rate,
                max_block_size,
                after[i],
            ) by {
                assert(all[i] == old(self).processors@[i].kind());
            }
        }
    }

    fn process(&mut self, ctx: &mut ProcessContext<'_>)
        ensures
            kinds(final(self)@) == kinds(old(self)@),
            runs_through(
                kinds(old(self)@),
                states(old(self)@),
                old(ctx).midi_events@,
                old(ctx).buffer.block(),
                final(ctx).buffer.block(),
                states(final(self)@),
            ),
    {
        let count: usize = self.processors.len();
        let mut index: usize = 0;
        let ghost mut blocks: Seq<Block> = seq![ctx.buffer.block()];
        while index < count
            invariant
                count == self.processors@.len(),
                count == old(self).processors@.len(),
                index <= count,
                ctx.midi_events@ == old(ctx).midi_events@,
                *final(ctx.buffer) == *final(old(ctx).buffer),
                old(ctx).buffer.well_formed() ==> ctx.buffer.well_formed(),
                blocks.len() == index + 1,
                blocks.first() == old(ctx).buffer.block(),
                blocks.last() == ctx.buffer.block(),
                forall|i: int|
                    0 <= i < index ==> (#[trigger] old(self).processors@[i]).kind().processes(
                        old(self).processors@[i].state(),
                        ctx.midi_events@,
                        blocks[i],
                        blocks[i + 1],
                        self.processors@[i].state(),
                    ),
                forall|i: int|
                    0 <= i < index ==> (#[trigger] self.processors@[i]).kind() == old(
                        self,
                    ).processors@[i].kind(),
                forall|i: int|
                    index <= i < count ==> self.processors@[i] == #[trigger] old(
                        self,
                    ).processors@[i],
            decreases count - index,
        {
            self.processors[index].process(ctx);
            index = index + 1;
            proof {
                blocks = blocks.push(ctx.buffer.block());
            }
        }
        proof {
            assert(kinds(self@) =~= kinds(old(self)@));
            let (all, before, after) = (kinds(old(self)@), states(old(self)@), states(self@));
            assert forall|i: int| 0 <= i < all.len() implies (#[trigger] all[i]).processes(
                before[i],
                ctx.midi_events@,
                blocks[i],
                blocks[i + 1],
                after[i],
            ) by {
                assert(all[i] == old(self).processors@[i].kind());
            }
            assert(stages(all, before, ctx.midi_events@, blocks, after));
        }
    }

    fn reset(&mut self)
        ensures
            kinds(final(self)@) == kinds(old(self)@),
            resets_all(kinds(old(self)@), states(old(self)@), states(final(self)@)),
    {
        let count: usize = self.processors.len();
        let mut index: usize = 0;
        while index < count
            invariant
                count == self.processors@.len(),
                count == old(self).processors@.len(),
                index <= count,
                forall|i: int|
                    0 <= i < index ==> (#[trigger] old(self).processors@[i]).kind().resets(
                        old(self).processors@[i].state(),
                        self.processors@[i].state(),
                    ),
                forall|i: int|
                    0 <= i < index ==> (#[trigger] self.processors@[i]).kind() == old(
                        self,
                    ).processors@[i].kind(),
                forall|i: int|
                    index <= i < count ==> self.processors@[i] == #[trigger] old(
                        self,
                    ).processors@[i],
            decreases count - index,
        {
            self.processors[index].reset();
            index = index + 1;
        }
        proof {
            assert(kinds(self@) =~= kinds(old(self)@));
            let (all, before, after) = (kinds(old(self)@), states(old(self)@), states(self@));
            assert forall|i: int| 0 <= i < all.len() implies (#[trigger] all[i]).resets(
                before[i],
                after[i],
            ) by {
                assert(all[i] == old(self).processors@[i].kind());
            }
        }
    }
}

/// Pushing a processor onto a chain adds its kind and state at the end.
pub proof fn law_pushing_adds_a_kind_and_a_state<P: AudioProcessor>(
    processors: Seq<P>,
    processor: P,
)
    ensures
        kinds(processors.push(processor)) == kinds(processors).push(processor.kind()),
        states(processors.push(processor)) == states(processors).push(processor.state()),
{
    assert(kinds(processors.push(processor)) =~= kinds(processors).push(processor.kind()));
    assert(states(processors.push(processor)) =~= states(processors).push(processor.state()));
}

/// A chain without processors has no kinds and no states.
pub proof fn law_empty_chain_has_no_kinds<P: AudioProcessor>()
    ensures
        kinds(Seq::<P>::empty()) == Seq::<Kind>::empty(),
        states(Seq::<P>::empty()) == Seq::<ProcessorState>::empty(),
{
    assert(kinds(Seq::<P>::empty()) =~= Seq::<Kind>::empty());
    assert(states(Seq::<P>::empty()) =~= Seq::<ProcessorState>::empty());
}

/// A processor pushed onto a chain is prepared with it, however long the chain.
pub proof fn law_pushed_processor_is_prepared(
    kinds: Seq<Kind>,
    before: Seq<ProcessorState>,
    kind: Kind,
    state: ProcessorState,
    sample_rate: Sample,
    max_block_size: usize,
    after: Seq<ProcessorState>,
    last: ProcessorState,
)
    requires
        before.len() == kinds.len(),
        after.len() == kinds.len(),
    ensures
        prepares_all(
            kinds.push(kind),
            before.push(state),
            sample_rate,
            max_block_size,
            after.push(last),
        ) <==> {
            &&& prepares_all(kinds, before, sample_rate, max_block_size, after)
            &&& kind.prepares(state, sample_rate, max_block_size, last)
        },
{
    let (all, olds, news) = (kinds.push(kind), before.push(state), after.push(last));
    let count = kinds.len() as int;
    if prepares_all(all, olds, sample_rate, max_block_size, news) {
        assert(all[count].prepares(olds[count], sample_rate, max_block_size, news[count]));
        assert forall|i: int| 0 <= i < count implies (#[trigger] kinds[i]).prepares(
            before[i],
            sample_rate,
            max_block_size,
            after[i],
        ) by {
            assert(all[i].prepares(olds[i], sample_rate, max_block_size, news[i]));
        }
    }
}

/// A processor pushed onto a chain is reset with it, however long the chain.
pub proof fn law_pushed_processor_is_reset(
    kinds: Seq<Kind>,
    before: Seq<ProcessorState>,
    kind: Kind,
    state: ProcessorState,
    after: Seq<ProcessorState>,
    last: ProcessorState,
)
    requires
        before.len() == kinds.len(),
        after.len() == kinds.len(),
    ensures
        resets_all(kinds.push(kind), before.push(state), after.push(last)) <==> {
            &&& resets_all(kinds, before, after)
            &&& kind.resets(state, last)
        },
{
    let (all, olds, news) = (kinds.push(kind), before.push(state), after.push(last));
    let count = kinds.len() as int;
    if resets_all(all, olds, news) {
        assert(all[count].resets(olds[count], news[count]));
        assert forall|i: int| 0 <= i < count implies (#[trigger] kinds[i]).resets(
            before[i],
            after[i],
        ) by {
            assert(all[i].resets(olds[i], news[i]));
        }
    }
}

/// A chain works on its processors' states one by one: what it does is what they do.
pub proof fn law_chain_does_what_its_processors_do(
    kinds: Seq<Kind>,
    before: Seq<ProcessorState>,
    after: Seq<ProcessorState>,
    sample_rate: Sample,
    max_block_size: usize,
    midi_events: Seq<MidiEvent>,
    input: Block,
    output: Block,
)
    ensures
        chain_kind(kinds).prepares(
            ProcessorState::Parts(before),
            sample_rate,
            max_block_size,
            ProcessorState::Parts(after),
        ) <==> prepares_all(kinds, before, sample_rate, max_block_size, after),
        chain_kind(kinds).processes(
            ProcessorState::Parts(before),
            midi_events,
            input,
            output,
            ProcessorState::Parts(after),
        ) <==> runs_through(kinds, before, midi_events, input, output, after),
        chain_kind(kinds).resets(
            ProcessorState::Parts(before),
            ProcessorState::Parts(after),
        ) <==> resets_all(kinds, before, after),
{
}

/// A chain without processors leaves a block as it is.
pub proof fn law_empty_chain_changes_nothing(
    sample_rate: Sample,
    max_block_size: usize,
    midi_events: Seq<MidiEvent>,
    input: Block,
    output: Block,
    before: Seq<ProcessorState>,
    after: Seq<ProcessorState>,
)
    ensures
        runs_through(Seq::<Kind>::empty(), before, midi_events, input, output, after) <==> output
            == input && before.len() == 0 && after.len() == 0,
        prepares_all(Seq::<Kind>::empty(), before, sample_rate, max_block_size, after)
            <==> before.len() == 0 && after.len() == 0,
        resets_all(Seq::<Kind>::empty(), before, after) <==> before.len() == 0 && after.len() == 0,
{
    if output == input && before.len() == 0 && after.len() == 0 {
        assert(stages(Seq::<Kind>::empty(), before, midi_events, seq![input], after));
    }
}

/// A processor pushed onto a chain works on what the chain before it made of a block.
pub proof fn law_pushed_processor_runs_last(
    kinds: Seq<Kind>,
    before: Seq<ProcessorState>,
    kind: Kind,
    state: ProcessorState,
    midi_events: Seq<MidiEvent>,
    input: Block,
    output: Block,
    after: Seq<ProcessorState>,
    last: ProcessorState,
)
    requires
        before.len() == kinds.len(),
    ensures
        runs_through(
            kinds.push(kind),
            before.push(state),
            midi_events,
            input,
            output,
            after.push(last),
        ) <==> exists|between: Block|
            {
                &&& #[trigger] runs_through(kinds, before, midi_events, input, between, after)
                &&& kind.processes(state, midi_events, between, output, last)
            },
{
    let (all, old_states, new_states) = (kinds.push(kind), before.push(state), after.push(last));
    let count = kinds.len() as int;
    if runs_through(all, old_states, midi_events, input, output, new_states) {
        let blocks = choose|blocks: Seq<Block>|
            {
                &&& #[trigger] stages(all, old_states, midi_events, blocks, new_states)
                &&& blocks.first() == input
                &&& blocks.last() == output
            };
        let front = blocks.drop_last();
        assert forall|i: int| 0 <= i < count implies (#[trigger] kinds[i]).processes(
            before[i],
            midi_events,
            front[i],
            front[i + 1],
            after[i],
        ) by {
            assert(all[i] == kinds[i]);
        }
        assert(stages(kinds, before, midi_events, front, after));
        assert(all[count] == kind);
        assert(runs_through(kinds, before, midi_events, input, front.last(), after));
    }
    if exists|between: Block|
        {
            &&& #[trigger] runs_through(kinds, before, midi_events, input, between, after)
            &&& kind.processes(state, midi_events, between, output, last)
        } {
        let between = choose|between: Block|
            {
                &&& #[trigger] runs_through(kinds, before, midi_events, input, between, after)
                &&& kind.processes(state, midi_events, between, output, last)
            };
        let front = choose|blocks: Seq<Block>|
            {
                &&& #[trigger] stages(kinds, before, midi_events, blocks, after)
                &&& blocks.first() == input
                &&& blocks.last() == between
            };
        let blocks = front.push(output);
        assert forall|i: int| 0 <= i < all.len() implies (#[trigger] all[i]).processes(
            old_states[i],
            midi_events,
            blocks[i],
            blocks[i + 1],
            new_states[i],
        ) by {
            if i < count {
                assert(all[i] == kinds[i]);
            }
        }
        assert(stages(all, old_states, midi_events, blocks, new_states));
    }
}

}
