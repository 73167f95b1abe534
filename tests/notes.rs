use midi_panel::helper::Color;
use midi_panel::notes::{NoteSlot, NoteSlots};

fn pitches<const N: usize, const C: usize>(t: &NoteSlots<N, C>) -> Vec<Option<u8>> {
    (0..N).map(|i| t.slot(i).map(|s| s.note)).collect()
}

fn assert_ordered<const N: usize, const C: usize>(t: &NoteSlots<N, C>) {
    let held: Vec<u8> = pitches(t).into_iter().flatten().collect();
    for w in held.windows(2) {
        assert!(w[0] < w[1], "columns out of pitch order: {:?}", pitches(t));
    }
}

#[test]
fn three_notes_take_three_columns_in_pitch_order() {
    let mut t = NoteSlots::<3, 3>::new();
    t.set_note(60, 0, 100); // C4
    t.set_note(64, 1, 80); // E4
    t.set_note(67, 2, 60); // G4
    assert_eq!(pitches(&t), vec![Some(60), Some(64), Some(67)]);
    assert_eq!(t.slot(0).unwrap().channels, [100, 0, 0]);
    assert_eq!(t.slot(1).unwrap().channels, [0, 80, 0]);
    assert_eq!(t.slot(2).unwrap().channels, [0, 0, 60]);
    assert_eq!(t.count(), 3);
}

#[test]
fn first_note_lands_on_its_ideal_column() {
    let mut t = NoteSlots::<24, 3>::new();
    // 24 * (60 - 21) / 88 = 10
    t.set_note(60, 0, 1);
    assert_eq!(t.slot(10).unwrap().note, 60);
    assert_eq!(t.count(), 1);
    let mut u = NoteSlots::<24, 3>::new();
    u.set_note(21, 0, 1);
    u.set_note(108, 0, 1);
    assert_eq!(u.slot(0).unwrap().note, 21);
    assert_eq!(u.slot(23).unwrap().note, 108);
}

#[test]
fn no_eviction_up_to_capacity() {
    let mut t = NoteSlots::<24, 3>::new();
    let order: Vec<u8> = vec![
        60, 61, 59, 62, 58, 100, 21, 108, 22, 107, 70, 71, 72, 50, 51, 52, 40, 41, 42, 90, 91, 92, 30, 31,
    ];
    assert_eq!(order.len(), 24);
    for (i, &p) in order.iter().enumerate() {
        t.set_note(p, (i % 3) as u8, 1 + i as u8);
        assert_eq!(t.count(), i + 1);
        assert_ordered(&t);
    }
    let mut held: Vec<u8> = pitches(&t).into_iter().flatten().collect();
    let mut want = order.clone();
    want.sort();
    held.sort();
    assert_eq!(held, want);
}

#[test]
fn no_eviction_with_clustered_pitches() {
    let mut t = NoteSlots::<4, 1>::new();
    for p in [60u8, 61, 62, 63] {
        t.set_note(p, 0, 90);
        assert_ordered(&t);
    }
    assert_eq!(pitches(&t), vec![Some(60), Some(61), Some(62), Some(63)]);
}

#[test]
fn overflow_evicts_one_and_keeps_the_newest() {
    let mut t = NoteSlots::<3, 3>::new();
    t.set_note(60, 0, 100);
    t.set_note(64, 0, 100);
    t.set_note(67, 0, 100);
    t.set_note(62, 1, 50);
    assert_eq!(t.count(), 3);
    let held: Vec<u8> = pitches(&t).into_iter().flatten().collect();
    assert!(held.contains(&62));
    assert_ordered(&t);
    assert_eq!(held.iter().filter(|p| [60u8, 64, 67].contains(p)).count(), 2);
}

#[test]
fn overflow_at_either_end() {
    let mut t = NoteSlots::<2, 1>::new();
    t.set_note(50, 0, 10);
    t.set_note(60, 0, 10);
    t.set_note(100, 0, 10);
    assert_eq!(t.count(), 2);
    assert!(pitches(&t).contains(&Some(100)));
    t.set_note(21, 0, 10);
    assert_eq!(t.count(), 2);
    assert!(pitches(&t).contains(&Some(21)));
    assert_ordered(&t);
}

#[test]
fn last_channel_silenced_frees_the_column() {
    let mut t = NoteSlots::<3, 3>::new();
    t.set_note(60, 0, 100);
    t.set_note(60, 2, 40);
    t.set_note(60, 0, 0);
    assert_eq!(t.count(), 1);
    assert_eq!(t.slot(1).unwrap().channels, [0, 0, 40]);
    t.set_note(60, 2, 0);
    assert_eq!(t.count(), 0);
    assert_eq!(pitches(&t), vec![None, None, None]);
}

#[test]
fn silence_for_an_absent_pitch_changes_nothing() {
    let mut t = NoteSlots::<3, 1>::new();
    t.set_note(60, 0, 100);
    t.set_note(64, 0, 100);
    t.set_note(67, 0, 100);
    let before = pitches(&t);
    t.set_note(62, 0, 0);
    assert_eq!(pitches(&t), before);
}

#[test]
fn untracked_pitch_or_channel_is_ignored() {
    let mut t = NoteSlots::<3, 2>::new();
    t.set_note(20, 0, 100);
    t.set_note(109, 0, 100);
    t.set_note(60, 2, 100);
    assert_eq!(t.count(), 0);
}

#[test]
fn channel_pressure_changes_only_sounding_channels() {
    let mut t = NoteSlots::<4, 2>::new();
    t.set_note(60, 0, 100);
    t.set_note(64, 1, 100);
    t.set_note(67, 0, 30);
    t.set_note(67, 1, 30);
    t.set_channel(0, 70);
    let slots: Vec<NoteSlot<2>> = (0..4).filter_map(|i| t.slot(i)).collect();
    assert_eq!(slots.iter().map(|s| s.note).collect::<Vec<_>>(), vec![60, 64, 67]);
    assert_eq!(slots[0].channels, [70, 0]);
    assert_eq!(slots[1].channels, [0, 100]);
    assert_eq!(slots[2].channels, [70, 30]);
    t.set_channel(0, 0);
    let slots: Vec<NoteSlot<2>> = (0..4).filter_map(|i| t.slot(i)).collect();
    assert_eq!(slots.iter().map(|s| s.note).collect::<Vec<_>>(), vec![64, 67]);
    assert_eq!(slots[1].channels, [0, 30]);
    t.set_channel(5, 0);
    assert_eq!(t.count(), 2);
}

#[test]
fn order_kept_over_mixed_calls() {
    let mut t = NoteSlots::<5, 2>::new();
    let mut x: u32 = 12345;
    for _ in 0..400 {
        x = x.wrapping_mul(1103515245).wrapping_add(12345);
        let p = 21 + ((x >> 8) % 88) as u8;
        let ch = ((x >> 4) % 2) as u8;
        let v = ((x >> 16) % 3) as u8 * 40;
        if (x >> 20) % 7 == 0 {
            t.set_channel(ch, v);
        } else {
            t.set_note(p, ch, v);
        }
        assert_ordered(&t);
        assert!(t.count() <= 5);
    }
}

#[test]
fn slot_led_colors_mix_channels() {
    let colors = [
        Color { red: 255, green: 0, blue: 0 },
        Color { red: 0, green: 255, blue: 0 },
    ];
    let mut s = NoteSlot::<2>::new(60);
    assert!(s.is_empty());
    s.channels = [20, 127];
    assert!(!s.is_empty());
    // channel 0: 20 / 8 = 2 full LEDs, LED 2 at 4 * 32 = 128 of 256
    assert_eq!(s.led_color(0, &colors), Color { red: 255, green: 255, blue: 0 });
    assert_eq!(s.led_color(2, &colors), Color { red: 127, green: 255, blue: 0 });
    assert_eq!(s.led_color(3, &colors), Color { red: 0, green: 255, blue: 0 });
    // channel 1: 127 / 8 = 15 full LEDs, LED 15 at 7 * 32 = 224
    assert_eq!(s.led_color(15, &colors), Color { red: 0, green: 223, blue: 0 });
}
