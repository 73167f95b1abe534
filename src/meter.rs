//! The performance state: pedals, beat position and sounding notes, updated
//! by events and read out as panel pixels.

use vstd::prelude::*;

use crate::helper::{blank, scale, scaled_color, Color};
use crate::midi::{MidiEvent, TICKS_PER_BEAT};
use crate::notes::{channel_set, led_mix, note_set, table_wf, NoteSlot, NoteSlots};
use crate::table_laws::lemma_note_set_deterministic;

verus! {

/// Channels whose controllers and notes are shown.
pub const MIDI_CHANNELS: usize = 3;

/// Display columns for sounding notes.
pub const NOTE_SLOTS: usize = 24;

/// Controller number of the damper (sustain) pedal.
pub const DAMPER_PEDAL: u8 = 64;

/// Controller number of the expression pedal.
pub const EXPRESSION_CONTROLLER: u8 = 11;

/// Width of the panel in pixels.
pub const PANEL_WIDTH: usize = 32;

/// Height of the panel in pixels.
pub const PANEL_HEIGHT: usize = 16;

/// First column of the expression pedal bars, one per channel.
pub const FIRST_EXP_COL: usize = 0;

/// First column of the note slots.
pub const FIRST_NOTE_COL: usize = 4;

/// First column of the damper pedal bars, one per channel.
pub const FIRST_DAMP_COL: usize = 29;

/// Beat positions at the start of each beat during which the corner flashes.
pub const FLASH_TICKS: usize = 6;

/// The colour of each channel: red, green, blue.
pub open spec fn channel_colors() -> Seq<Color> {
    seq![
        Color { red: 255, green: 0, blue: 0 },
        Color { red: 0, green: 255, blue: 0 },
        Color { red: 0, green: 0, blue: 255 },
    ]
}

/// The colour of the beat flash.
pub open spec fn flash() -> Color {
    Color { red: 255, green: 255, blue: 255 }
}

/// Pixel `y` (from the top) of a bar showing value `v` (0 to 127) from the
/// bottom: two pixels per 16 steps, the last pixel dimmed by the remainder.
pub open spec fn value_pixel(v: u8, y: int, color: Color) -> Color {
    if v == 127 {
        color
    } else if v / 8 > 0 && y >= 16 - v / 8 {
        color
    } else if v % 8 > 0 && y == 15 - v / 8 {
        scaled_color(color, (v % 8 * 32) as u8)
    } else {
        blank()
    }
}

/// Pixel `y` (from the top) of a bar that shows a pedal held down.
pub open spec fn bool_pixel(b: bool, y: int, color: Color) -> Color {
    if b && 4 <= y <= 15 {
        color
    } else {
        blank()
    }
}

/// The colour of pixel (`x`, `y`) of the panel for state `m`: expression bars
/// on the left, note slots in the middle, damper bars on the right, and a
/// flash in the top right corner at the start of each beat.
pub open spec fn meter_pixel(m: MeterView, x: int, y: int) -> Color {
    if x >= FIRST_DAMP_COL && y <= 2 && m.tick < FLASH_TICKS {
        flash()
    } else if FIRST_EXP_COL <= x < FIRST_EXP_COL + MIDI_CHANNELS {
        value_pixel(m.expression[x - FIRST_EXP_COL], y, channel_colors()[x - FIRST_EXP_COL])
    } else if FIRST_NOTE_COL <= x < FIRST_NOTE_COL + NOTE_SLOTS {
        match m.notes[x - FIRST_NOTE_COL] {
            Some(slot) => led_mix(slot.channels@, channel_colors(), 15 - y, MIDI_CHANNELS as int),
            None => blank(),
        }
    } else if FIRST_DAMP_COL <= x < FIRST_DAMP_COL + MIDI_CHANNELS {
        bool_pixel(m.damper[x - FIRST_DAMP_COL], y, channel_colors()[x - FIRST_DAMP_COL])
    } else {
        blank()
    }
}

/// The colours of the channels, in channel order.
pub fn channel_color_table() -> (r: [Color; MIDI_CHANNELS])
    ensures
        r@ == channel_colors(),
{
    let r = [
        Color { red: 255, green: 0, blue: 0 },
        Color { red: 0, green: 255, blue: 0 },
        Color { red: 0, green: 0, blue: 255 },
    ];
    assert(r@ =~= channel_colors());
    r
}

fn draw_value(value: u8, y: usize, color: &Color) -> (r: Color)
    requires
        y < PANEL_HEIGHT,
    ensures
        r == value_pixel(value, y as int, *color),
{
    let full = value / 8;
    let last = value % 8 * 32;
    if value == 127 {
        *color
    } else if full > 0 && y + full as usize >= 16 {
        *color
    } else if last > 0 && y + full as usize == 15 {
        scale(color, last)
    } else {
        Color { red: 0, green: 0, blue: 0 }
    }
}

fn draw_bool(b: bool, y: usize, color: &Color) -> (r: Color)
    ensures
        r == bool_pixel(b, y as int, *color),
{
    if b && 4 <= y && y <= 15 {
        *color
    } else {
        Color { red: 0, green: 0, blue: 0 }
    }
}

/// The performance state as plain values.
pub struct MeterView {
    pub expression: Seq<u8>,
    pub damper: Seq<bool>,
    pub tick: nat,
    pub notes: Seq<Option<NoteSlot<MIDI_CHANNELS>>>,
}

/// The beat position after one more clock pulse.
pub open spec fn next_tick(t: nat) -> nat {
    (t + 1) % (TICKS_PER_BEAT as nat)
}

/// State `b` is what handling event `e` makes of state `a`.
pub open spec fn meter_step(a: MeterView, e: MidiEvent, b: MeterView) -> bool {
    match e {
        MidiEvent::TimingClock => b == MeterView { tick: next_tick(a.tick), ..a },
        MidiEvent::ControlChange(ch, f, v) => if f == DAMPER_PEDAL && (ch as int) < MIDI_CHANNELS {
            b == MeterView { damper: a.damper.update(ch as int, v > 64), ..a }
        } else if f == EXPRESSION_CONTROLLER && (ch as int) < MIDI_CHANNELS {
            b == MeterView { expression: a.expression.update(ch as int, v), ..a }
        } else {
            b == a
        },
        MidiEvent::NoteOn(ch, n, v) => b == MeterView { notes: b.notes, ..a } && note_set(
            a.notes,
            b.notes,
            n,
            ch,
            v,
        ),
        MidiEvent::NoteOff(ch, n, _) => b == MeterView { notes: b.notes, ..a } && note_set(
            a.notes,
            b.notes,
            n,
            ch,
            0,
        ),
        MidiEvent::PolyphonicKeyPressure(ch, n, v) => b == MeterView { notes: b.notes, ..a }
            && note_set(a.notes, b.notes, n, ch, v),
        MidiEvent::ChannelPressure(ch, v) => b == MeterView { notes: b.notes, ..a } && b.notes.len()
            == a.notes.len() && forall|i: int|
            0 <= i < a.notes.len() ==> channel_set(a.notes[i], #[trigger] b.notes[i], ch, v),
        MidiEvent::Other(_) => b == a,
    }
}

/// A note-on of velocity zero and a note-off change the performance state in
/// the same way.
pub proof fn lemma_zero_velocity_note_on(a: MeterView, b: MeterView, ch: u8, n: u8, off_velocity: u8)
    ensures
        meter_step(a, MidiEvent::NoteOn(ch, n, 0), b) <==> meter_step(
            a,
            MidiEvent::NoteOff(ch, n, off_velocity),
            b,
        ),
{
}

/// From a well-formed state, a note-on of velocity zero and a note-off of the
/// same pitch and channel lead to the same state.
pub proof fn lemma_zero_velocity_same_state(
    a: MeterView,
    b1: MeterView,
    b2: MeterView,
    ch: u8,
    n: u8,
    off_velocity: u8,
)
    requires
        table_wf(a.notes),
        meter_step(a, MidiEvent::NoteOn(ch, n, 0), b1),
        meter_step(a, MidiEvent::NoteOff(ch, n, off_velocity), b2),
    ensures
        b1 == b2,
{
    lemma_note_set_deterministic(a.notes, b1.notes, b2.notes, n, ch, 0);
}

/// `states` is a run of clock pulses: each state is what handling one timing
/// clock event makes of the one before.
pub open spec fn clock_run(states: Seq<MeterView>) -> bool {
    forall|i: int|
        0 <= i < states.len() - 1 ==> meter_step(
            #[trigger] states[i],
            MidiEvent::TimingClock,
            states[i + 1],
        )
}

proof fn lemma_clock_run_tick(states: Seq<MeterView>, i: int)
    requires
        clock_run(states),
        states.len() > 0,
        states[0].tick == 0,
        0 <= i < states.len(),
    ensures
        states[i].tick == i % (TICKS_PER_BEAT as int),
    decreases i,
{
    if i > 0 {
        lemma_clock_run_tick(states, i - 1);
        assert(meter_step(states[i - 1], MidiEvent::TimingClock, states[i]));
        lemma_clock_step(states[i - 1], states[i]);
        lemma_next_tick_mod(i);
    }
}

proof fn lemma_clock_step(a: MeterView, b: MeterView)
    requires
        meter_step(a, MidiEvent::TimingClock, b),
    ensures
        b.tick == next_tick(a.tick),
{
}

proof fn lemma_next_tick_mod(i: int)
    requires
        i > 0,
    ensures
        next_tick(((i - 1) % (TICKS_PER_BEAT as int)) as nat) == i % (TICKS_PER_BEAT as int),
{
}

/// From the start of a beat, one beat's worth of clock pulses brings the beat
/// position back to the start, and one pulse fewer leaves it at its last value.
pub proof fn lemma_tick_wraparound(states: Seq<MeterView>)
    requires
        clock_run(states),
        states.len() == TICKS_PER_BEAT + 1,
        states[0].tick == 0,
    ensures
        states[TICKS_PER_BEAT as int].tick == 0,
        states[TICKS_PER_BEAT - 1].tick == TICKS_PER_BEAT - 1,
{
    lemma_clock_run_tick(states, TICKS_PER_BEAT as int);
    lemma_clock_run_tick(states, TICKS_PER_BEAT - 1);
}

/// The performance model behind the panel: per-channel pedal positions, the
/// beat position and the sounding notes.
pub struct PanelMeter {
    expression_cc: [u8; MIDI_CHANNELS],
    notes: NoteSlots<NOTE_SLOTS, MIDI_CHANNELS>,
    damper_cc: [bool; MIDI_CHANNELS],
    tick: usize,
}

impl View for PanelMeter {
    type V = MeterView;

    closed spec fn view(&self) -> MeterView {
        MeterView {
            expression: self.expression_cc@,
            damper: self.damper_cc@,
            tick: self.tick as nat,
            notes: self.notes@,
        }
    }
}

impl PanelMeter {
    pub closed spec fn wf(&self) -> bool {
        self.notes.wf() && self.tick < TICKS_PER_BEAT
    }

    pub fn new() -> (r: Self)
        ensures
            r.wf(),
            r@.expression == Seq::new(MIDI_CHANNELS as nat, |i: int| 0u8),
            r@.damper == Seq::new(MIDI_CHANNELS as nat, |i: int| false),
            r@.tick == 0,
            r@.notes.len() == NOTE_SLOTS,
            forall|i: int| 0 <= i < NOTE_SLOTS ==> r@.notes[i] is None,
    {
        let r = PanelMeter {
            expression_cc: [0u8; MIDI_CHANNELS],
            notes: NoteSlots::new(),
            damper_cc: [false; MIDI_CHANNELS],
            tick: 0,
        };
        assert(r@.expression =~= Seq::new(MIDI_CHANNELS as nat, |i: int| 0u8));
        assert(r@.damper =~= Seq::new(MIDI_CHANNELS as nat, |i: int| false));
        r
    }

    /// The colour of pixel (`x`, `y`) of the panel, `y` counted from the top.
    pub fn pixel(&self, x: usize, y: usize) -> (r: Color)
        requires
            self.wf(),
            x < PANEL_WIDTH,
            y < PANEL_HEIGHT,
        ensures
            r == meter_pixel(self@, x as int, y as int),
    {
        let colors = channel_color_table();
        if x >= FIRST_DAMP_COL && y <= 2 && self.tick < FLASH_TICKS {
            Color { red: 255, green: 255, blue: 255 }
        } else if x < FIRST_EXP_COL + MIDI_CHANNELS {
            draw_value(self.expression_cc[x - FIRST_EXP_COL], y, &colors[x - FIRST_EXP_COL])
        } else if FIRST_NOTE_COL <= x && x < FIRST_NOTE_COL + NOTE_SLOTS {
            match self.notes.slot(x - FIRST_NOTE_COL) {
                Some(slot) => slot.led_color(15 - y, &colors),
                None => Color { red: 0, green: 0, blue: 0 },
            }
        } else if FIRST_DAMP_COL <= x && x < FIRST_DAMP_COL + MIDI_CHANNELS {
            draw_bool(self.damper_cc[x - FIRST_DAMP_COL], y, &colors[x - FIRST_DAMP_COL])
        } else {
            Color { red: 0, green: 0, blue: 0 }
        }
    }

    /// The note slots.
    pub fn notes(&self) -> (r: &NoteSlots<NOTE_SLOTS, MIDI_CHANNELS>)
        ensures
            r@ == self@.notes,
            self.wf() ==> r.wf(),
    {
        &self.notes
    }

    /// The expression pedal position of channel `ch`.
    pub fn expression(&self, ch: usize) -> (r: u8)
        requires
            ch < MIDI_CHANNELS,
        ensures
            r == self@.expression[ch as int],
    {
        self.expression_cc[ch]
    }

    /// Whether the damper pedal of channel `ch` is held down.
    pub fn damper(&self, ch: usize) -> (r: bool)
        requires
            ch < MIDI_CHANNELS,
        ensures
            r == self@.damper[ch as int],
    {
        self.damper_cc[ch]
    }

    /// The position within the current beat, in clock pulses.
    pub fn tick(&self) -> (r: usize)
        ensures
            r == self@.tick,
    {
        self.tick
    }

    /// Applies one event: clock pulses advance the beat, pedal controllers
    /// set the pedal of their channel, note and pressure events update the
    /// note slots, and every other event is ignored.
    pub fn handle(&mut self, message: MidiEvent)
        requires
            old(self).wf(),
        ensures
            final(self).wf(),
            meter_step(old(self)@, message, final(self)@),
    {
        match message {
            MidiEvent::TimingClock => {
                self.tick = if self.tick + 1 == TICKS_PER_BEAT {
                    0
                } else {
                    self.tick + 1
                };
            },
            MidiEvent::ControlChange(ch, f, v) => {
                let i = ch as usize;
                if f == DAMPER_PEDAL && i < MIDI_CHANNELS {
                    self.damper_cc[i] = v > 64;
                } else if f == EXPRESSION_CONTROLLER && i < MIDI_CHANNELS {
                    self.expression_cc[i] = v;
                }
            },
            MidiEvent::NoteOn(ch, n, v) => {
                self.notes.set_note(n, ch, v);
            },
            MidiEvent::NoteOff(ch, n, _) => {
                self.notes.set_note(n, ch, 0);
            },
            MidiEvent::PolyphonicKeyPressure(ch, n, v) => {
                self.notes.set_note(n, ch, v);
            },
            MidiEvent::ChannelPressure(ch, v) => {
                self.notes.set_channel(ch, v);
            },
            MidiEvent::Other(_) => {},
        }
    }
}

} // verus!
