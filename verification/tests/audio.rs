use crabjuice::audio::{AudioBuffer, ProcessContext};
use crabjuice::midi::{MidiEvent, MidiMessage};
use crabjuice::sample::Sample;

fn samples(values: &[f32]) -> Vec<Sample> {
    values.iter().map(|value| Sample::from_bits(value.to_bits())).collect()
}

#[test]
fn audio_buffer_is_channel_major() {
    let mut buffer = AudioBuffer::new(2, 4);
    buffer.channel_mut(1).expect("channel exists")[2] = Sample::from_bits(0.75f32.to_bits());

    assert_eq!(buffer.num_channels(), 2);
    assert_eq!(buffer.num_samples(), 4);
    assert_eq!(buffer.channel(0).expect("channel exists"), &samples(&[0.0; 4])[..]);
    assert_eq!(
        buffer.channel(1).expect("channel exists"),
        &samples(&[0.0, 0.0, 0.75, 0.0])[..]
    );
}

#[test]
fn clear_zeroes_samples() {
    let mut buffer = AudioBuffer::new(1, 2);
    buffer
        .channel_mut(0)
        .expect("channel exists")
        .copy_from_slice(&samples(&[1.0, -1.0]));

    buffer.clear();

    assert_eq!(buffer.channel(0).expect("channel exists"), &samples(&[0.0, 0.0])[..]);
}

#[test]
fn clearing_twice_is_clearing_once() {
    let mut buffer = AudioBuffer::new(3, 5);
    for channel in buffer.channels_mut() {
        channel.fill(Sample::from_bits(0.5f32.to_bits()));
    }
    assert_ne!(buffer, AudioBuffer::new(3, 5));
    buffer.clear();
    let once = buffer.clone();
    buffer.clear();
    assert_eq!(buffer, once);
    assert_eq!(buffer, AudioBuffer::new(3, 5));
}

#[test]
fn channels_out_of_range_are_none() {
    let mut buffer = AudioBuffer::new(2, 1);
    assert!(buffer.channel(2).is_none());
    assert!(buffer.channel_mut(2).is_none());
    assert!(buffer.channel(usize::MAX).is_none());
    let mut empty = AudioBuffer::new(0, 7);
    assert_eq!(empty.num_channels(), 0);
    assert_eq!(empty.num_samples(), 7);
    assert!(empty.channel(0).is_none());
    assert!(empty.channels_mut().is_empty());
}

#[test]
fn channel_slices_come_in_order() {
    let mut buffer = AudioBuffer::new(3, 2);
    for (index, channel) in buffer.channels_mut().into_iter().enumerate() {
        channel[1] = Sample::from_whole(index as u32 + 1);
    }
    assert_eq!(buffer.channel(0).unwrap(), &samples(&[0.0, 1.0])[..]);
    assert_eq!(buffer.channel(1).unwrap(), &samples(&[0.0, 2.0])[..]);
    assert_eq!(buffer.channel(2).unwrap(), &samples(&[0.0, 3.0])[..]);
}

#[test]
fn writing_one_channel_keeps_the_others() {
    let mut buffer = AudioBuffer::new(3, 2);
    buffer.channel_mut(1).unwrap().copy_from_slice(&samples(&[1.0, 2.0]));
    assert_eq!(buffer.channel(0).unwrap(), &samples(&[0.0, 0.0])[..]);
    assert_eq!(buffer.channel(1).unwrap(), &samples(&[1.0, 2.0])[..]);
    assert_eq!(buffer.channel(2).unwrap(), &samples(&[0.0, 0.0])[..]);
}

#[test]
fn context_holds_buffer_and_events() {
    let events = vec![MidiEvent::new(3, MidiMessage::PitchBend { channel: 0, value: 8192 })];
    let mut buffer = AudioBuffer::new(1, 1);
    let ctx = ProcessContext::new(&mut buffer, &events);
    assert_eq!(ctx.midi_events, &events[..]);
    ctx.buffer.channel_mut(0).unwrap()[0] = Sample::one();
    assert_eq!(buffer.channel(0).unwrap(), &samples(&[1.0])[..]);
}

#[test]
fn equal_buffers_follow_the_values_of_samples() {
    let mut left = AudioBuffer::new(1, 1);
    let right = AudioBuffer::new(1, 1);
    left.channel_mut(0).unwrap()[0] = Sample::from_bits((-0.0f32).to_bits());
    assert_eq!(left, right);
    left.channel_mut(0).unwrap()[0] = Sample::from_bits(f32::NAN.to_bits());
    assert_ne!(left, left.clone());
}
