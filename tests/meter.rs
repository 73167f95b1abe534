use midi_panel::helper::{add_assign, combine, scale, Color};
use midi_panel::meter::{channel_color_table, PanelMeter, DAMPER_PEDAL, EXPRESSION_CONTROLLER};
use midi_panel::midi::{MidiEvent, TICKS_PER_BEAT};

fn held(m: &PanelMeter) -> Vec<(u8, [u8; 3])> {
    (0..24).filter_map(|i| m.notes().slot(i)).map(|s| (s.note, s.channels)).collect()
}

#[test]
fn ticks_wrap_after_one_beat() {
    let mut m = PanelMeter::new();
    for _ in 0..TICKS_PER_BEAT - 1 {
        m.handle(MidiEvent::TimingClock);
    }
    assert_eq!(m.tick(), TICKS_PER_BEAT - 1);
    m.handle(MidiEvent::TimingClock);
    assert_eq!(m.tick(), 0);
}

#[test]
fn pedals_follow_their_controllers() {
    let mut m = PanelMeter::new();
    m.handle(MidiEvent::ControlChange(1, DAMPER_PEDAL, 65));
    m.handle(MidiEvent::ControlChange(2, DAMPER_PEDAL, 64));
    m.handle(MidiEvent::ControlChange(0, EXPRESSION_CONTROLLER, 90));
    m.handle(MidiEvent::ControlChange(5, EXPRESSION_CONTROLLER, 90));
    m.handle(MidiEvent::ControlChange(0, 7, 90));
    assert!(!m.damper(0));
    assert!(m.damper(1));
    assert!(!m.damper(2));
    assert_eq!(m.expression(0), 90);
    assert_eq!(m.expression(1), 0);
    assert_eq!(m.expression(2), 0);
}

#[test]
fn zero_velocity_note_on_acts_as_note_off() {
    let mut a = PanelMeter::new();
    let mut b = PanelMeter::new();
    for m in [&mut a, &mut b] {
        m.handle(MidiEvent::NoteOn(0, 60, 100));
        m.handle(MidiEvent::NoteOn(1, 64, 50));
    }
    a.handle(MidiEvent::NoteOn(0, 60, 0));
    b.handle(MidiEvent::NoteOff(0, 60, 0));
    assert_eq!(held(&a), held(&b));
    assert_eq!(held(&a), vec![(64, [0, 50, 0])]);
}

#[test]
fn note_events_reach_the_slots() {
    let mut m = PanelMeter::new();
    m.handle(MidiEvent::NoteOn(0, 60, 100));
    m.handle(MidiEvent::PolyphonicKeyPressure(0, 60, 40));
    assert_eq!(held(&m), vec![(60, [40, 0, 0])]);
    m.handle(MidiEvent::ChannelPressure(0, 10));
    assert_eq!(held(&m), vec![(60, [10, 0, 0])]);
    m.handle(MidiEvent::NoteOff(0, 60, 64));
    assert_eq!(held(&m), vec![]);
    m.handle(MidiEvent::Other(vec![0xC0, 1]));
    assert_eq!(held(&m), vec![]);
}

#[test]
fn panel_pixels() {
    let mut m = PanelMeter::new();
    let red = Color { red: 255, green: 0, blue: 0 };
    let blank = Color { red: 0, green: 0, blue: 0 };
    let white = Color { red: 255, green: 255, blue: 255 };
    // tick 0: corner flash
    assert_eq!(m.pixel(29, 0), white);
    assert_eq!(m.pixel(31, 2), white);
    assert_eq!(m.pixel(31, 3), blank);
    for _ in 0..6 {
        m.handle(MidiEvent::TimingClock);
    }
    assert_eq!(m.pixel(29, 0), blank);
    // expression 20: two full pixels at the bottom, the third at half
    m.handle(MidiEvent::ControlChange(0, EXPRESSION_CONTROLLER, 20));
    assert_eq!(m.pixel(0, 15), red);
    assert_eq!(m.pixel(0, 14), red);
    assert_eq!(m.pixel(0, 13), Color { red: 127, green: 0, blue: 0 });
    assert_eq!(m.pixel(0, 12), blank);
    m.handle(MidiEvent::ControlChange(0, EXPRESSION_CONTROLLER, 127));
    assert_eq!(m.pixel(0, 0), red);
    // damper held on channel 2
    m.handle(MidiEvent::ControlChange(2, DAMPER_PEDAL, 127));
    assert_eq!(m.pixel(31, 4), Color { red: 0, green: 0, blue: 255 });
    assert_eq!(m.pixel(31, 3), blank);
    assert_eq!(m.pixel(30, 4), blank);
    // a note in column 10 shows at x = 14
    m.handle(MidiEvent::NoteOn(1, 60, 8));
    assert_eq!(m.pixel(14, 15), Color { red: 0, green: 255, blue: 0 });
    assert_eq!(m.pixel(14, 14), blank);
    assert_eq!(m.pixel(3, 15), blank);
}

#[test]
fn channel_colors_are_red_green_blue() {
    let c = channel_color_table();
    assert_eq!(c[0], Color { red: 255, green: 0, blue: 0 });
    assert_eq!(c[1], Color { red: 0, green: 255, blue: 0 });
    assert_eq!(c[2], Color { red: 0, green: 0, blue: 255 });
}

#[test]
fn color_arithmetic() {
    let c = Color { red: 200, green: 100, blue: 1 };
    assert_eq!(scale(&c, 128), Color { red: 100, green: 50, blue: 0 });
    assert_eq!(scale(&c, 255), Color { red: 199, green: 99, blue: 0 });
    let a = Color { red: 100, green: 200, blue: 0 };
    let b = Color { red: 100, green: 100, blue: 5 };
    assert_eq!(combine(&a, &b, &c), Color { red: 255, green: 255, blue: 6 });
    let mut d = a;
    add_assign(&mut d, &b);
    assert_eq!(d, Color { red: 200, green: 255, blue: 5 });
}
