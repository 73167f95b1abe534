//! Protocol events and the framer that turns a link's raw bytes into them.

use vstd::prelude::*;
use wmidi::FromBytesError;
use wmidi::MidiMessage;

verus! {

/// Timing clock pulses in one beat.
pub const TICKS_PER_BEAT: usize = 24;

/// The status byte of a timing clock pulse, which carries no data bytes.
pub const TIMING_CLOCK_BYTE: u8 = 0xF8;

/// One decoded protocol message. Channels, pitches and values are the
/// message's 7-bit fields; kinds that the performance model does not read
/// keep their wire bytes.
#[derive(Debug, Clone, PartialEq, Eq)]
pub enum MidiEvent {
    /// channel, pitch, velocity
    NoteOff(u8, u8, u8),
    /// channel, pitch, velocity
    NoteOn(u8, u8, u8),
    /// channel, pitch, pressure
    PolyphonicKeyPressure(u8, u8, u8),
    /// channel, controller number, value
    ControlChange(u8, u8, u8),
    /// channel, pressure
    ChannelPressure(u8, u8),
    TimingClock,
    Other(Vec<u8>),
}

/// Why a byte sequence does not (yet) form a message.
#[derive(Debug, Clone, Copy, PartialEq, Eq, Structural)]
pub enum DecodeError {
    ChannelOutOfRange,
    NoBytes,
    NoSysExEndByte,
    NotEnoughBytes,
    UnexpectedEndSysExByte,
    UnexpectedNonSysExEndByte(u8),
    UnexpectedDataByte,
    UnexpectedStatusByte,
    NoteOutOfRange,
    DataByteOutOfRange,
    U14OutOfRange,
}

#[verifier::external_type_specification]
#[verifier::external_body]
pub struct ExMidiMessage<'a>(MidiMessage<'a>);

#[verifier::external_type_specification]
#[verifier::external_body]
pub struct ExFromBytesError(FromBytesError);

/// The message that a byte sequence starts with, as the protocol codec reads it.
pub uninterp spec fn midi_decoded(bytes: Seq<u8>) -> Result<MidiEvent, DecodeError>;

/// Relies on wmidi's `MidiMessage::try_from(&[u8])`: it decodes the message
/// that `bytes` starts with from the bytes alone, reports `NoBytes` for no
/// bytes and reads the single byte 0xF8 as a timing clock.
#[verifier::external_body]
fn decode(bytes: &[u8]) -> (r: Result<MidiEvent, DecodeError>)
    ensures
        r == midi_decoded(bytes@),
        bytes@.len() == 0 ==> r matches Err(DecodeError::NoBytes),
        bytes@ == seq![TIMING_CLOCK_BYTE] ==> r matches Ok(MidiEvent::TimingClock),
{
    match MidiMessage::try_from(bytes) {
        Ok(m) => Ok(event_of(m)),
        Err(e) => Err(error_of(e)),
    }
}

/// Moves the fields of a decoded wmidi message into a `MidiEvent`, relying on
/// wmidi's `Channel::index`, its `u8` conversions of `Note`, `U7` and
/// `ControlFunction`, and `MidiMessage::to_vec` for the message's wire bytes.
#[verifier::external_body]
fn event_of(m: MidiMessage) -> MidiEvent {
    match m {
        MidiMessage::NoteOff(c, n, v) => MidiEvent::NoteOff(c.index(), u8::from(n), u8::from(v)),
        MidiMessage::NoteOn(c, n, v) => MidiEvent::NoteOn(c.index(), u8::from(n), u8::from(v)),
        MidiMessage::PolyphonicKeyPressure(c, n, v) => MidiEvent::PolyphonicKeyPressure(c.index(), u8::from(n), u8::from(v)),
        MidiMessage::ControlChange(c, f, v) => MidiEvent::ControlChange(c.index(), u8::from(f), u8::from(v)),
        MidiMessage::ChannelPressure(c, v) => MidiEvent::ChannelPressure(c.index(), u8::from(v)),
        MidiMessage::TimingClock => MidiEvent::TimingClock,
        other => MidiEvent::Other(other.to_vec()),
    }
}

/// Names a wmidi `FromBytesError` by its variant.
#[verifier::external_body]
fn error_of(e: FromBytesError) -> DecodeError {
    match e {
        FromBytesError::ChannelOutOfRange => DecodeError::ChannelOutOfRange,
        FromBytesError::NoBytes => DecodeError::NoBytes,
        FromBytesError::NoSysExEndByte => DecodeError::NoSysExEndByte,
        FromBytesError::NotEnoughBytes => DecodeError::NotEnoughBytes,
        FromBytesError::UnexpectedEndSysExByte => DecodeError::UnexpectedEndSysExByte,
        FromBytesError::UnexpectedNonSysExEndByte(b) => DecodeError::UnexpectedNonSysExEndByte(b),
        FromBytesError::UnexpectedDataByte => DecodeError::UnexpectedDataByte,
        FromBytesError::UnexpectedStatusByte => DecodeError::UnexpectedStatusByte,
        FromBytesError::NoteOutOfRange => DecodeError::NoteOutOfRange,
        FromBytesError::DataByteOutOfRange => DecodeError::DataByteOutOfRange,
        FromBytesError::U14OutOfRange => DecodeError::U14OutOfRange,
    }
}

/// The bytes so far may still grow into a message.
pub open spec fn awaits_more(e: DecodeError) -> bool {
    e is NoBytes || e is NoSysExEndByte || e is NotEnoughBytes
}

/// What the framer does with its buffer `b` once the codec has read it as
/// `decoded`: the buffer it keeps and the event it emits, if any.
pub open spec fn after_decode(
    b: Seq<u8>,
    decoded: Result<MidiEvent, DecodeError>,
    include_clock_ticks: bool,
    rewrite_note_zero_as_off: bool,
) -> (Seq<u8>, Option<MidiEvent>) {
    match decoded {
        Ok(MidiEvent::TimingClock) => if include_clock_ticks {
            (Seq::empty(), Some(MidiEvent::TimingClock))
        } else {
            (Seq::empty(), None)
        },
        Ok(MidiEvent::NoteOn(c, n, v)) => if rewrite_note_zero_as_off && v == 0 {
            (Seq::empty(), Some(MidiEvent::NoteOff(c, n, 0)))
        } else {
            (Seq::empty(), Some(MidiEvent::NoteOn(c, n, v)))
        },
        Ok(m) => (Seq::empty(), Some(m)),
        Err(e) => if awaits_more(e) {
            (b, None)
        } else {
            (Seq::empty(), None)
        },
    }
}

/// What the framer does with its buffer `b` once a byte has been appended:
/// the buffer it keeps and the event it emits, if any.
pub open spec fn framed(b: Seq<u8>, include_clock_ticks: bool, rewrite_note_zero_as_off: bool) -> (
    Seq<u8>,
    Option<MidiEvent>,
) {
    after_decode(b, midi_decoded(b), include_clock_ticks, rewrite_note_zero_as_off)
}

/// The buffer left and the events emitted after the framer, starting from
/// buffer `buf`, has taken the bytes of `input` one by one.
pub open spec fn feed(
    buf: Seq<u8>,
    include_clock_ticks: bool,
    rewrite_note_zero_as_off: bool,
    input: Seq<u8>,
) -> (Seq<u8>, Seq<MidiEvent>)
    decreases input.len(),
{
    if input.len() == 0 {
        (buf, Seq::empty())
    } else {
        let before = feed(buf, include_clock_ticks, rewrite_note_zero_as_off, input.drop_last());
        let after = framed(before.0.push(input.last()), include_clock_ticks, rewrite_note_zero_as_off);
        (
            after.0,
            match after.1 {
                Some(e) => before.1.push(e),
                None => before.1,
            },
        )
    }
}

/// Feeding `a` and then `b` leaves the same buffer and emits the same events,
/// in the same order, as feeding `a + b` in one go.
pub proof fn lemma_feed_split(
    buf: Seq<u8>,
    include_clock_ticks: bool,
    rewrite_note_zero_as_off: bool,
    a: Seq<u8>,
    b: Seq<u8>,
)
    ensures
        ({
            let first = feed(buf, include_clock_ticks, rewrite_note_zero_as_off, a);
            let second = feed(first.0, include_clock_ticks, rewrite_note_zero_as_off, b);
            feed(buf, include_clock_ticks, rewrite_note_zero_as_off, a + b) == (
                second.0,
                first.1 + second.1,
            )
        }),
    decreases b.len(),
{
    let first = feed(buf, include_clock_ticks, rewrite_note_zero_as_off, a);
    if b.len() == 0 {
        assert(a + b =~= a);
        assert(first.1 + Seq::<MidiEvent>::empty() =~= first.1);
    } else {
        lemma_feed_split(buf, include_clock_ticks, rewrite_note_zero_as_off, a, b.drop_last());
        assert((a + b).drop_last() =~= a + b.drop_last());
        assert((a + b).last() == b.last());
        let mid = feed(first.0, include_clock_ticks, rewrite_note_zero_as_off, b.drop_last());
        let after = framed(mid.0.push(b.last()), include_clock_ticks, rewrite_note_zero_as_off);
        match after.1 {
            Some(e) => {
                assert(first.1 + mid.1.push(e) =~= (first.1 + mid.1).push(e));
            },
            None => {},
        }
    }
}

/// The bytes of a sequence of chunks, in order.
pub open spec fn joined(chunks: Seq<Seq<u8>>) -> Seq<u8>
    decreases chunks.len(),
{
    if chunks.len() == 0 {
        Seq::empty()
    } else {
        joined(chunks.drop_last()) + chunks.last()
    }
}

/// The buffer left and the events emitted after the framer has taken the
/// chunks one after another, each in one go.
pub open spec fn feed_chunks(
    buf: Seq<u8>,
    include_clock_ticks: bool,
    rewrite_note_zero_as_off: bool,
    chunks: Seq<Seq<u8>>,
) -> (Seq<u8>, Seq<MidiEvent>)
    decreases chunks.len(),
{
    if chunks.len() == 0 {
        (buf, Seq::empty())
    } else {
        let before = feed_chunks(buf, include_clock_ticks, rewrite_note_zero_as_off, chunks.drop_last());
        let after = feed(before.0, include_clock_ticks, rewrite_note_zero_as_off, chunks.last());
        (after.0, before.1 + after.1)
    }
}

/// However a byte stream is cut into chunks, the framer emits the same events
/// and keeps the same buffer as when it takes the bytes one at a time.
pub proof fn lemma_chunking_invariance(
    buf: Seq<u8>,
    include_clock_ticks: bool,
    rewrite_note_zero_as_off: bool,
    chunks: Seq<Seq<u8>>,
)
    ensures
        feed_chunks(buf, include_clock_ticks, rewrite_note_zero_as_off, chunks) == feed(
            buf,
            include_clock_ticks,
            rewrite_note_zero_as_off,
            joined(chunks),
        ),
    decreases chunks.len(),
{
    if chunks.len() > 0 {
        lemma_chunking_invariance(buf, include_clock_ticks, rewrite_note_zero_as_off, chunks.drop_last());
        lemma_feed_split(
            buf,
            include_clock_ticks,
            rewrite_note_zero_as_off,
            joined(chunks.drop_last()),
            chunks.last(),
        );
    }
}

/// The codec asks for more bytes after `b`.
pub open spec fn pending(b: Seq<u8>) -> bool {
    match midi_decoded(b) {
        Err(e) => awaits_more(e),
        Ok(_) => false,
    }
}

/// The codec rejects `b` as malformed.
pub open spec fn rejected(b: Seq<u8>) -> bool {
    match midi_decoded(b) {
        Err(e) => !awaits_more(e),
        Ok(_) => false,
    }
}

/// `m` is one attempt at a message: the codec waits for more after each of
/// its shorter prefixes.
pub open spec fn pending_prefixes(m: Seq<u8>) -> bool {
    forall|j: int| 0 < j < m.len() ==> pending(#[trigger] m.subrange(0, j))
}

proof fn lemma_feed_prefix(
    include_clock_ticks: bool,
    rewrite_note_zero_as_off: bool,
    m: Seq<u8>,
    i: int,
)
    requires
        0 <= i < m.len(),
        pending_prefixes(m),
    ensures
        feed(Seq::empty(), include_clock_ticks, rewrite_note_zero_as_off, m.subrange(0, i)) == (
            m.subrange(0, i),
            Seq::<MidiEvent>::empty(),
        ),
    decreases i,
{
    if i == 0 {
        assert(m.subrange(0, 0) =~= Seq::<u8>::empty());
    } else {
        lemma_feed_prefix(include_clock_ticks, rewrite_note_zero_as_off, m, i - 1);
        let p = m.subrange(0, i);
        assert(p.drop_last() =~= m.subrange(0, i - 1));
        assert(m.subrange(0, i - 1).push(p.last()) =~= p);
        assert(pending(p));
    }
}

/// Feeding one whole attempt at a message to an empty framer leaves it empty
/// and emits at most that message's event.
pub proof fn lemma_feed_message(
    include_clock_ticks: bool,
    rewrite_note_zero_as_off: bool,
    m: Seq<u8>,
)
    requires
        m.len() > 0,
        pending_prefixes(m),
        !pending(m),
    ensures
        feed(Seq::empty(), include_clock_ticks, rewrite_note_zero_as_off, m) == (
            Seq::<u8>::empty(),
            match framed(m, include_clock_ticks, rewrite_note_zero_as_off).1 {
                Some(e) => seq![e],
                None => Seq::empty(),
            },
        ),
{
    lemma_feed_prefix(include_clock_ticks, rewrite_note_zero_as_off, m, m.len() - 1);
    assert(m.drop_last() =~= m.subrange(0, m.len() - 1));
    assert(m.subrange(0, m.len() - 1).push(m.last()) =~= m);
    match framed(m, include_clock_ticks, rewrite_note_zero_as_off).1 {
        Some(e) => {
            assert(Seq::<MidiEvent>::empty().push(e) =~= seq![e]);
        },
        None => {},
    }
}

/// A malformed message followed by a whole valid one yields exactly the valid
/// message's event, and nothing for the malformed bytes.
pub proof fn lemma_resync(
    include_clock_ticks: bool,
    rewrite_note_zero_as_off: bool,
    bad: Seq<u8>,
    good: Seq<u8>,
)
    requires
        bad.len() > 0,
        pending_prefixes(bad),
        rejected(bad),
        good.len() > 0,
        pending_prefixes(good),
        midi_decoded(good) is Ok,
        framed(good, include_clock_ticks, rewrite_note_zero_as_off).1 is Some,
    ensures
        feed(Seq::empty(), include_clock_ticks, rewrite_note_zero_as_off, bad + good) == (
            Seq::<u8>::empty(),
            seq![framed(good, include_clock_ticks, rewrite_note_zero_as_off).1.unwrap()],
        ),
{
    lemma_feed_message(include_clock_ticks, rewrite_note_zero_as_off, bad);
    lemma_feed_message(include_clock_ticks, rewrite_note_zero_as_off, good);
    lemma_feed_split(Seq::empty(), include_clock_ticks, rewrite_note_zero_as_off, bad, good);
    let e = framed(good, include_clock_ticks, rewrite_note_zero_as_off).1.unwrap();
    assert(Seq::<MidiEvent>::empty() + seq![e] =~= seq![e]);
}

/// Turns the raw bytes of one link into events: buffers a partial message,
/// drops a malformed one and starts afresh on the next byte.
pub struct Framer {
    bytes: Vec<u8>,
    include_clock_ticks: bool,
    rewrite_note_zero_as_off: bool,
}

impl Framer {
    /// The bytes of the message in progress.
    pub closed spec fn buffer(&self) -> Seq<u8> {
        self.bytes@
    }

    pub closed spec fn includes_clock_ticks(&self) -> bool {
        self.include_clock_ticks
    }

    pub closed spec fn rewrites_note_zero(&self) -> bool {
        self.rewrite_note_zero_as_off
    }

    /// A framer with an empty buffer that rewrites zero-velocity note-ons as
    /// note-offs, and passes clock ticks on only when asked to.
    pub fn new(include_clock_ticks: bool) -> (r: Self)
        ensures
            r.buffer() == Seq::<u8>::empty(),
            r.includes_clock_ticks() == include_clock_ticks,
            r.rewrites_note_zero(),
    {
        Framer { bytes: Vec::new(), include_clock_ticks, rewrite_note_zero_as_off: true }
    }

    /// Takes one byte; returns the event it completes, if any.
    pub fn process(&mut self, byte: u8) -> (r: Option<MidiEvent>)
        ensures
            (final(self).buffer(), r) == framed(
                old(self).buffer().push(byte),
                old(self).includes_clock_ticks(),
                old(self).rewrites_note_zero(),
            ),
            final(self).includes_clock_ticks() == old(self).includes_clock_ticks(),
            final(self).rewrites_note_zero() == old(self).rewrites_note_zero(),
    {
        self.bytes.push(byte);
        let decoded = decode(self.bytes.as_slice());
        self.handle_decoded(decoded)
    }

    /// Acts on what the codec read from the buffer: emits a completed
    /// message (a clock tick only when asked for, a zero-velocity note-on as a
    /// note-off) and empties the buffer, keeps a partial one, and drops a
    /// malformed one.
    pub fn handle_decoded(&mut self, decoded: Result<MidiEvent, DecodeError>) -> (r: Option<MidiEvent>)
        ensures
            (final(self).buffer(), r) == after_decode(
                old(self).buffer(),
                decoded,
                old(self).includes_clock_ticks(),
                old(self).rewrites_note_zero(),
            ),
            final(self).includes_clock_ticks() == old(self).includes_clock_ticks(),
            final(self).rewrites_note_zero() == old(self).rewrites_note_zero(),
    {
        match decoded {
            Ok(MidiEvent::TimingClock) => {
                self.bytes.clear();
                if self.include_clock_ticks {
                    Some(MidiEvent::TimingClock)
                } else {
                    // clock ticks come from elsewhere: skip this one
                    None
                }
            },
            Ok(MidiEvent::NoteOn(c, n, v)) => {
                self.bytes.clear();
                if self.rewrite_note_zero_as_off && v == 0 {
                    // some keyboards release a key with a zero-velocity note-on
                    Some(MidiEvent::NoteOff(c, n, 0))
                } else {
                    Some(MidiEvent::NoteOn(c, n, v))
                }
            },
            Ok(message) => {
                self.bytes.clear();
                Some(message)
            },
            Err(e) => {
                if !(e == DecodeError::NoBytes || e == DecodeError::NoSysExEndByte || e
                    == DecodeError::NotEnoughBytes) {
                    // malformed: drop it and wait for the next message
                    self.bytes.clear();
                }
                None
            },
        }
    }

    /// Takes a run of bytes; returns the events they complete, in order.
    pub fn process_all(&mut self, input: &[u8]) -> (r: Vec<MidiEvent>)
        ensures
            (final(self).buffer(), r@) == feed(
                old(self).buffer(),
                old(self).includes_clock_ticks(),
                old(self).rewrites_note_zero(),
                input@,
            ),
            final(self).includes_clock_ticks() == old(self).includes_clock_ticks(),
            final(self).rewrites_note_zero() == old(self).rewrites_note_zero(),
    {
        let ghost b0 = self.buffer();
        let ghost inc = self.includes_clock_ticks();
        let ghost rw = self.rewrites_note_zero();
        let mut events: Vec<MidiEvent> = Vec::new();
        let mut i: usize = 0;
        while i < input.len()
            invariant
                i <= input@.len(),
                self.includes_clock_ticks() == inc,
                self.rewrites_note_zero() == rw,
                (self.buffer(), events@) == feed(b0, inc, rw, input@.subrange(0, i as int)),
            decreases input@.len() - i,
        {
            let e = self.process(input[i]);
            proof {
                let pre = input@.subrange(0, i + 1);
                assert(pre.drop_last() =~= input@.subrange(0, i as int));
                assert(pre.last() == input@[i as int]);
            }
            if let Some(ev) = e {
                events.push(ev);
            }
            i = i + 1;
        }
        assert(input@.subrange(0, input@.len() as int) =~= input@);
        events
    }
}

/// True when the raw bytes hold a timing clock pulse.
pub fn has_clock_tick(bytes: &[u8]) -> (r: bool)
    ensures
        r == bytes@.contains(TIMING_CLOCK_BYTE),
{
    let mut i: usize = 0;
    while i < bytes.len()
        invariant
            i <= bytes@.len(),
            forall|j: int| 0 <= j < i ==> bytes@[j] != TIMING_CLOCK_BYTE,
        decreases bytes@.len() - i,
    {
        if bytes[i] == TIMING_CLOCK_BYTE {
            return true;
        }
        i = i + 1;
    }
    false
}

/// How long to wait for a separate clock link to show a pulse when it opens.
pub const DEFAULT_CLOCK_TIMEOUT_MS: u64 = 1000;

/// Where the wait for a clock pulse stands.
#[derive(Debug, Clone, Copy, PartialEq, Eq, Structural)]
pub enum ClockCheck {
    /// A pulse arrived: the clock link is live.
    Live,
    /// Nothing yet: read again.
    Waiting,
    /// No pulse within the timeout.
    TimedOut,
    /// The clock link ended before a pulse arrived.
    Ended,
}

/// One step of the wait for a clock pulse on a link opened as a clock source:
/// `chunk` is what was read since the last step, `ended` whether the link then
/// reported its end, and `elapsed_ms` the time since the wait began.
pub fn clock_check(chunk: &[u8], ended: bool, elapsed_ms: u64, timeout_ms: u64) -> (r: ClockCheck)
    ensures
        r == (if chunk@.contains(TIMING_CLOCK_BYTE) {
            ClockCheck::Live
        } else if ended {
            ClockCheck::Ended
        } else if elapsed_ms >= timeout_ms {
            ClockCheck::TimedOut
        } else {
            ClockCheck::Waiting
        }),
{
    if has_clock_tick(chunk) {
        ClockCheck::Live
    } else if ended {
        ClockCheck::Ended
    } else if elapsed_ms >= timeout_ms {
        ClockCheck::TimedOut
    } else {
        ClockCheck::Waiting
    }
}

} // verus!
