use crabjuice::midi::{MidiEvent, MidiMessage};

#[test]
fn event_keeps_sample_offset() {
    let event = MidiEvent::new(
        12,
        MidiMessage::NoteOn {
            channel: 1,
            note: 60,
            velocity: 100,
        },
    );

    assert_eq!(event.sample_offset, 12);
}

#[test]
fn event_keeps_its_message() {
    let messages = vec![
        MidiMessage::NoteOn { channel: 0, note: 1, velocity: 2 },
        MidiMessage::NoteOff { channel: 3, note: 4, velocity: 5 },
        MidiMessage::ControlChange { channel: 6, controller: 7, value: 8 },
        MidiMessage::PitchBend { channel: 9, value: 16383 },
        MidiMessage::Raw(vec![0xf0, 0x7e, 0xf7]),
    ];
    for message in messages {
        let event = MidiEvent::new(usize::MAX, message.clone());
        assert_eq!(event.message, message);
        assert_eq!(event.clone(), event);
    }
}

#[test]
fn different_messages_are_not_equal() {
    let on = MidiMessage::NoteOn { channel: 1, note: 60, velocity: 100 };
    let off = MidiMessage::NoteOff { channel: 1, note: 60, velocity: 100 };
    assert_ne!(on, off);
    assert_ne!(MidiMessage::Raw(vec![1]), MidiMessage::Raw(vec![2]));
    assert_ne!(MidiEvent::new(0, on.clone()), MidiEvent::new(1, on));
}
