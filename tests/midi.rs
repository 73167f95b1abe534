use midi_panel::midi::{
    clock_check, has_clock_tick, ClockCheck, DecodeError, Framer, MidiEvent, DEFAULT_CLOCK_TIMEOUT_MS,
};

fn feed_bytes(f: &mut Framer, bytes: &[u8]) -> Vec<MidiEvent> {
    bytes.iter().filter_map(|&b| f.process(b)).collect()
}

#[test]
fn note_on_is_framed() {
    let mut f = Framer::new(false);
    assert_eq!(f.process(0x91), None);
    assert_eq!(f.process(60), None);
    assert_eq!(f.process(100), Some(MidiEvent::NoteOn(1, 60, 100)));
}

#[test]
fn zero_velocity_note_on_becomes_note_off() {
    let mut f = Framer::new(false);
    assert_eq!(f.process_all(&[0x90, 64, 0]), vec![MidiEvent::NoteOff(0, 64, 0)]);
    assert_eq!(f.process_all(&[0x80, 64, 0]), vec![MidiEvent::NoteOff(0, 64, 0)]);
}

#[test]
fn chunking_gives_the_same_events() {
    let bytes: Vec<u8> = vec![
        0x90, 60, 100, 0xF8, 0xB0, 64, 127, 0x40, 0x80, 60, 0, 0xD2, 33, 0xF0, 1, 2, 3, 0xF7, 0xA1, 61, 5,
    ];
    for with_ticks in [false, true] {
        let mut one = Framer::new(with_ticks);
        let single = feed_bytes(&mut one, &bytes);
        for cut in 0..=bytes.len() {
            let mut two = Framer::new(with_ticks);
            let mut chunked = two.process_all(&bytes[..cut]);
            chunked.extend(two.process_all(&bytes[cut..]));
            assert_eq!(chunked, single);
        }
        let mut three = Framer::new(with_ticks);
        let mut chunked = Vec::new();
        for c in bytes.chunks(4) {
            chunked.extend(three.process_all(c));
        }
        assert_eq!(chunked, single);
    }
}

#[test]
fn malformed_bytes_then_a_message_yield_one_event() {
    let mut f = Framer::new(false);
    assert_eq!(f.process_all(&[0x40, 0x41, 0x90, 60, 100]), vec![MidiEvent::NoteOn(0, 60, 100)]);
    let mut g = Framer::new(false);
    assert_eq!(g.process_all(&[0x90, 60, 0x91, 62, 10]), vec![]);
    assert_eq!(g.process_all(&[0x92, 62, 10]), vec![MidiEvent::NoteOn(2, 62, 10)]);
}

#[test]
fn clock_ticks_only_when_asked_for() {
    let mut f = Framer::new(false);
    assert_eq!(f.process(0xF8), None);
    let mut g = Framer::new(true);
    assert_eq!(g.process(0xF8), Some(MidiEvent::TimingClock));
}

#[test]
fn other_messages_keep_their_bytes() {
    let mut f = Framer::new(false);
    assert_eq!(f.process_all(&[0xC3, 5]), vec![MidiEvent::Other(vec![0xC3, 5])]);
    assert_eq!(f.process_all(&[0xF0, 1, 2, 0xF7]), vec![MidiEvent::Other(vec![0xF0, 1, 2, 0xF7])]);
    assert_eq!(
        f.process_all(&[0xB1, 11, 90, 0xD0, 7, 0xA0, 60, 3]),
        vec![
            MidiEvent::ControlChange(1, 11, 90),
            MidiEvent::ChannelPressure(0, 7),
            MidiEvent::PolyphonicKeyPressure(0, 60, 3),
        ]
    );
}

#[test]
fn clock_tick_found_in_raw_bytes() {
    assert!(has_clock_tick(&[0x90, 60, 0xF8]));
    assert!(!has_clock_tick(&[0x90, 60, 100]));
    assert!(!has_clock_tick(&[]));
}

#[test]
fn clock_check_decides_the_wait() {
    assert_eq!(clock_check(&[0xF8], true, 5000, 1000), ClockCheck::Live);
    assert_eq!(clock_check(&[1, 2], true, 10, 1000), ClockCheck::Ended);
    assert_eq!(clock_check(&[], false, 1000, DEFAULT_CLOCK_TIMEOUT_MS), ClockCheck::TimedOut);
    assert_eq!(clock_check(&[], false, 999, DEFAULT_CLOCK_TIMEOUT_MS), ClockCheck::Waiting);
}

#[test]
fn decoded_results_are_acted_on() {
    let mut f = Framer::new(false);
    assert_eq!(f.handle_decoded(Ok(MidiEvent::NoteOn(3, 60, 0))), Some(MidiEvent::NoteOff(3, 60, 0)));
    assert_eq!(f.handle_decoded(Ok(MidiEvent::NoteOn(3, 60, 9))), Some(MidiEvent::NoteOn(3, 60, 9)));
    assert_eq!(f.handle_decoded(Ok(MidiEvent::TimingClock)), None);
    assert_eq!(f.handle_decoded(Err(DecodeError::NotEnoughBytes)), None);
    // a partial message is kept
    let mut g = Framer::new(true);
    assert_eq!(g.process(0x90), None);
    assert_eq!(g.handle_decoded(Err(DecodeError::NotEnoughBytes)), None);
    assert_eq!(g.process_all(&[60, 100]), vec![MidiEvent::NoteOn(0, 60, 100)]);
    assert_eq!(g.handle_decoded(Ok(MidiEvent::TimingClock)), Some(MidiEvent::TimingClock));
    // a malformed one is dropped
    let mut h = Framer::new(true);
    assert_eq!(h.process(0x90), None);
    assert_eq!(h.handle_decoded(Err(DecodeError::UnexpectedDataByte)), None);
    assert_eq!(h.process_all(&[60, 100]), vec![]);
}
