//! Basic MIDI event representation.

use vstd::prelude::*;

verus! {

/// MIDI event with a block-relative sample offset.
#[derive(Debug, PartialEq, Eq)]
pub struct MidiEvent {
    /// Offset in samples from the start of the current audio block.
    pub sample_offset: usize,
    /// MIDI message payload.
    pub message: MidiMessage,
}

impl MidiEvent {
    /// Creates a MIDI event.
    pub fn new(sample_offset: usize, message: MidiMessage) -> (res: Self)
        ensures
            res.sample_offset == sample_offset,
            res.message == message,
    {
        MidiEvent { sample_offset, message }
    }
}

/// Supported MIDI message variants.
#[allow(inconsistent_fields)]
#[derive(Debug, PartialEq, Eq)]
pub enum MidiMessage {
    /// Note-on event.
    NoteOn { channel: u8, note: u8, velocity: u8 },
    /// Note-off event.
    NoteOff { channel: u8, note: u8, velocity: u8 },
    /// MIDI control change event.
    ControlChange { channel: u8, controller: u8, value: u8 },
    /// Pitch bend event using the MIDI 14-bit range `0..=16383`.
    PitchBend { channel: u8, value: u16 },
    /// Raw MIDI bytes for messages not modeled yet.
    Raw(Vec<u8>),
}

impl MidiMessage {
    /// Whether two messages have the same kind and content.
    pub open spec fn same(self, other: MidiMessage) -> bool {
        match (self, other) {
            (MidiMessage::Raw(left), MidiMessage::Raw(right)) => left@ == right@,
            _ => self == other,
        }
    }
}

/// Raw messages are the same exactly when their bytes are, and others when they are equal.
pub proof fn law_same_messages_have_the_same_content(left: MidiMessage, right: MidiMessage)
    ensures
        left is Raw && right is Raw ==> (left.same(right) <==> left->Raw_0@ == right->Raw_0@),
        left !is Raw || right !is Raw ==> (left.same(right) <==> left == right),
{
}

impl Clone for MidiMessage {
    fn clone(&self) -> (res: MidiMessage)
        ensures
            res.same(*self),
    {
        match self {
            MidiMessage::NoteOn { channel, note, velocity } => MidiMessage::NoteOn {
                channel: *channel,
                note: *note,
                velocity: *velocity,
            },
            MidiMessage::NoteOff { channel, note, velocity } => MidiMessage::NoteOff {
                channel: *channel,
                note: *note,
                velocity: *velocity,
            },
            MidiMessage::ControlChange { channel, controller, value } => {
                MidiMessage::ControlChange {
                    channel: *channel,
                    controller: *controller,
                    value: *value,
                }
            },
            MidiMessage::PitchBend { channel, value } => MidiMessage::PitchBend {
                channel: *channel,
                value: *value,
            },
            MidiMessage::Raw(bytes) => {
                let copy: Vec<u8> = bytes.clone();
                assert(copy@ =~= bytes@);
                MidiMessage::Raw(copy)
            },
        }
    }
}

impl Clone for MidiEvent {
    fn clone(&self) -> (res: MidiEvent)
        ensures
            res.sample_offset == self.sample_offset,
            res.message.same(self.message),
    {
        MidiEvent { sample_offset: self.sample_offset, message: self.message.clone() }
    }
}

}
