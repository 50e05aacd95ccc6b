//! Circular delay line.

use crate::sample::Sample;
use vstd::arithmetic::div_mod::*;
use vstd::prelude::*;

verus! {

/// What a delay line holds.
pub struct DelayState {
    /// The samples pushed last, oldest first, as many as the line has room for.
    pub history: Seq<Sample>,
    /// The current delay in samples.
    pub delay: nat,
}

impl DelayState {
    /// What holds of every delay line.
    pub open spec fn valid(self) -> bool {
        self.delay < self.history.len()
    }

    /// The largest delay.
    pub open spec fn max_delay(self) -> nat {
        (self.history.len() - 1) as nat
    }

    /// What pushing `input` returns: the sample pushed `delay` calls before, and `input` itself
    /// where the delay is zero.
    pub open spec fn output(self, input: Sample) -> Sample {
        if self.delay == 0 {
            input
        } else {
            self.history[self.history.len() - self.delay]
        }
    }

    /// The line once `input` has been pushed.
    pub open spec fn pushed(self, input: Sample) -> DelayState {
        DelayState { history: self.history.drop_first().push(input), delay: self.delay }
    }
}

/// Fixed-capacity circular delay line for samples.
#[derive(Debug)]
pub struct DelayLine {
    buffer: Vec<Sample>,
    write_pos: usize,
    delay_samples: usize,
}

/// The position `offset` places after `start` on a circle of `len` places.
spec fn around(start: int, offset: int, len: int) -> int {
    if start + offset < len {
        start + offset
    } else {
        start + offset - len
    }
}

proof fn lemma_around(start: int, offset: int, len: int)
    requires
        0 <= start < len,
        0 <= offset <= len,
    ensures
        (start + offset) % len == around(start, offset, len),
{
    if start + offset < len {
        lemma_fundamental_div_mod_converse(start + offset, len, 0, start + offset);
    } else {
        lemma_fundamental_div_mod_converse(start + offset, len, 1, start + offset - len);
    }
}

impl View for DelayLine {
    type V = DelayState;

    closed spec fn view(&self) -> DelayState {
        DelayState {
            history: Seq::new(
                self.buffer@.len(),
                |i: int| self.buffer@[around(self.write_pos as int, i, self.buffer@.len() as int)],
            ),
            delay: self.delay_samples as nat,
        }
    }
}

impl DelayLine {
    #[verifier::type_invariant]
    closed spec fn well_formed(self) -> bool {
        &&& self.write_pos < self.buffer@.len()
        &&& self.delay_samples < self.buffer@.len()
        &&& crate::audio::allocatable(self.buffer@.len(), 4)
    }

    /// Creates a delay line with the given maximum delay in samples.
    pub fn new(max_delay_samples: usize) -> (res: Self)
        requires
            crate::audio::allocatable((max_delay_samples + 1) as nat, 4),
        ensures
            res@.valid(),
            res@.history == crate::audio::silence((max_delay_samples + 1) as nat),
            res@.history.len() == max_delay_samples + 1,
            forall|i: int| 0 <= i <= max_delay_samples ==> (#[trigger] res@.history[i]).bits == 0,
            res@.max_delay() == max_delay_samples,
            res@.delay == 0,
    {
        let capacity: usize = max_delay_samples + 1;
        let res: Self = DelayLine {
            buffer: vec![Sample::zero(); capacity],
            write_pos: 0,
            delay_samples: 0,
        };
        assert(res@.history =~= crate::audio::silence((max_delay_samples + 1) as nat));
        res
    }

    /// Sets the current delay in samples, clamped to the delay line capacity.
    pub fn set_delay_samples(&mut self, delay_samples: usize)
        ensures
            final(self)@.valid(),
            final(self)@.history == old(self)@.history,
            delay_samples < old(self)@.history.len() ==> final(self)@.delay == delay_samples,
            delay_samples >= old(self)@.history.len() ==> final(self)@.delay + 1 == old(
                self,
            )@.history.len(),
            final(self)@.delay == if delay_samples as nat <= old(self)@.max_delay() {
                delay_samples as nat
            } else {
                old(self)@.max_delay()
            },
    {
        proof {
            use_type_invariant(&*self);
        }
        let most: usize = self.max_delay_samples();
        self.delay_samples = if delay_samples < most {
            delay_samples
        } else {
            most
        };
    }

    /// Returns the maximum delay in samples.
    pub fn max_delay_samples(&self) -> (res: usize)
        ensures
            self@.valid(),
            crate::audio::allocatable(self@.history.len(), 4),
            res == self@.max_delay(),
            res + 1 == self@.history.len(),
    {
        proof {
            use_type_invariant(self);
        }
        self.buffer.len() - 1
    }

    /// Pushes one sample and returns the delayed output.
    ///
    /// The sample is pushed before the output is read, so that a delay of zero returns it.
    pub fn process_sample(&mut self, input: Sample) -> (res: Sample)
        ensures
            old(self)@.valid(),
            res == old(self)@.output(input),
            final(self)@ == old(self)@.pushed(input),
            res == if old(self)@.delay == 0 {
                input
            } else {
                old(self)@.history[old(self)@.history.len() - old(self)@.delay]
            },
            final(self)@.delay == old(self)@.delay,
            final(self)@.history == old(self)@.history.push(input).skip(1),
    {
        proof {
            use_type_invariant(&*self);
        }
        let len: usize = self.buffer.len();
        proof {
            lemma_around(self.write_pos as int, len - self.delay_samples, len as int);
            lemma_around(self.write_pos as int, 1, len as int);
        }
        let read_pos: usize = (self.write_pos + len - self.delay_samples) % len;
        self.buffer[self.write_pos] = input;
        let output: Sample = self.buffer[read_pos];
        self.write_pos = (self.write_pos + 1) % len;
        assert(self@.history =~= old(self)@.pushed(input).history);
        assert(self@.history =~= old(self)@.history.push(input).skip(1));
        output
    }

    /// Clears the delay memory.
    pub fn reset(&mut self)
        ensures
            final(self)@.valid(),
            final(self)@.history == crate::audio::silence(old(self)@.history.len()),
            final(self)@.history.len() == old(self)@.history.len(),
            forall|i: int|
                0 <= i < old(self)@.history.len() ==> (#[trigger] final(self)@.history[i]).bits
                    == 0,
            final(self)@.delay == old(self)@.delay,
    {
        proof {
            use_type_invariant(&*self);
        }
        let len: usize = self.buffer.len();
        let mut index: usize = 0;
        while index < len
            invariant
                self.well_formed(),
                len == self.buffer@.len(),
                len == old(self).buffer@.len(),
                self.delay_samples == old(self).delay_samples,
                index <= len,
                forall|i: int| 0 <= i < index ==> self.buffer@[i] == (Sample { bits: 0 }),
            decreases len - index,
        {
            self.buffer[index] = Sample::zero();
            index = index + 1;
        }
        self.write_pos = 0;
        assert(self@.history =~= crate::audio::silence(old(self)@.history.len()));
    }
}

impl Clone for DelayLine {
    fn clone(&self) -> (res: DelayLine)
        ensures
            res@ == self@,
    {
        proof {
            use_type_invariant(self);
        }
        let buffer: Vec<Sample> = self.buffer.clone();
        assert(buffer@ =~= self.buffer@);
        DelayLine { buffer, write_pos: self.write_pos, delay_samples: self.delay_samples }
    }
}

impl DelayState {
    /// The line once all of `inputs` have been pushed, in order.
    pub open spec fn pushed_all(self, inputs: Seq<Sample>) -> DelayState
        decreases inputs.len(),
    {
        if inputs.len() == 0 {
            self
        } else {
            self.pushed_all(inputs.drop_last()).pushed(inputs.last())
        }
    }
}

/// The largest delay is one less than the number of samples that the line remembers, however many
/// these are, and every smaller delay can be had.
pub proof fn law_maximum_delay_is_one_less_than_the_memory(line: DelayState)
    ensures
        line.history.len() > 0 ==> line.max_delay() + 1 == line.history.len(),
        line.valid() <==> line.delay < line.history.len(),
{
}

/// Pushing keeps the capacity and the delay, and the line remembers what was pushed last.
pub proof fn law_history_is_what_was_pushed_last(line: DelayState, inputs: Seq<Sample>)
    requires
        line.delay < line.history.len(),
    ensures
        line.pushed_all(inputs).valid(),
        line.pushed_all(inputs).delay == line.delay,
        line.pushed_all(inputs).history.len() == line.history.len(),
        line.pushed_all(inputs).history == (line.history + inputs).skip(inputs.len() as int),
    decreases inputs.len(),
{
    if inputs.len() == 0 {
        assert((line.history + inputs).skip(0) =~= line.history);
    } else {
        let before = inputs.drop_last();
        law_history_is_what_was_pushed_last(line, before);
        assert(line.pushed_all(inputs).history =~= (line.history + inputs).skip(
            inputs.len() as int,
        )) by {
            assert(inputs =~= before.push(inputs.last()));
        }
    }
}

/// A push drops the oldest sample, moves the others up and keeps the capacity and the delay.
pub proof fn law_push_drops_the_oldest_sample(line: DelayState, input: Sample, i: int)
    requires
        0 <= i < line.history.len(),
    ensures
        line.pushed(input).delay == line.delay,
        line.pushed(input).history.len() == line.history.len(),
        line.pushed(input).history[i] == if i + 1 < line.history.len() {
            line.history[i + 1]
        } else {
            input
        },
{
}

/// A push returns the sample pushed `delay` calls before, and does not depend on the others.
pub proof fn law_output_depends_on_one_sample(line: DelayState, other: DelayState, input: Sample)
    requires
        0 < line.delay < line.history.len(),
        other.delay == line.delay,
        other.delay < other.history.len(),
        other.history[other.history.len() - line.delay] == line.history[line.history.len()
            - line.delay],
    ensures
        line.output(input) == other.output(input),
        line.output(input) == line.history[line.history.len() - line.delay],
{
}

/// Every delay is exact: once `inputs` have been pushed, pushing `input` returns the sample that
/// lies `delay` places before it.
pub proof fn law_output_is_delayed_input(line: DelayState, inputs: Seq<Sample>, input: Sample)
    requires
        line.delay < line.history.len(),
        line.delay <= inputs.len(),
    ensures
        line.pushed_all(inputs).output(input) == inputs.push(input)[inputs.len() - line.delay],
{
    law_history_is_what_was_pushed_last(line, inputs);
}

/// With a delay of zero the sample just pushed is returned.
pub proof fn law_zero_delay_returns_the_sample_just_pushed(
    line: DelayState,
    inputs: Seq<Sample>,
    input: Sample,
)
    requires
        line.delay < line.history.len(),
        line.delay == 0,
    ensures
        line.pushed_all(inputs).output(input) == input,
{
    law_history_is_what_was_pushed_last(line, inputs);
}

/// A line that was just made or reset is silent for as many calls as its delay has samples.
pub proof fn law_fresh_line_is_silent_for_its_delay(
    line: DelayState,
    inputs: Seq<Sample>,
    input: Sample,
)
    requires
        line.delay < line.history.len(),
        forall|i: int| 0 <= i < line.history.len() ==> (#[trigger] line.history[i]).bits == 0,
        inputs.len() < line.delay,
    ensures
        line.pushed_all(inputs).output(input).bits == 0,
{
    law_history_is_what_was_pushed_last(line, inputs);
}

/// Where a stream of samples is cut makes no difference.
pub proof fn law_pushing_in_parts(line: DelayState, first: Seq<Sample>, second: Seq<Sample>)
    ensures
        line.pushed_all(first + second) == line.pushed_all(first).pushed_all(second),
    decreases second.len(),
{
    if second.len() == 0 {
        assert(first + second =~= first);
    } else {
        law_pushing_in_parts(line, first, second.drop_last());
        assert((first + second).drop_last() =~= first + second.drop_last());
    }
}

}
