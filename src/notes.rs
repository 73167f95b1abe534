//! The note-slot table: sounding pitches mapped onto a fixed row of display
//! columns in pitch order, with their per-channel intensities.

use vstd::prelude::*;

use crate::helper::{add_assign, added, blank, scale, scaled_color, Color};
use crate::table_lemmas::{
    lemma_gap_down_fits, lemma_gap_up_fits, lemma_ideal_in_range, lemma_nearest_gap_above_unique, lemma_nearest_gap_below_unique, lemma_occupied_add, lemma_occupied_len, lemma_occupied_none, lemma_occupied_single, lemma_occupied_write,
};

verus! {

/// Lowest pitch the table tracks (A0 on an 88-key piano).
pub const MIN_NOTE: u8 = 21;

/// Highest pitch the table tracks (C8 on an 88-key piano).
pub const MAX_NOTE: u8 = 108;

/// One occupied display column: a pitch and the intensity that each tracked
/// channel currently gives it.
#[derive(Debug, Clone, Copy)]
pub struct NoteSlot<const C: usize> {
    pub note: u8,
    pub channels: [u8; C],
}

/// True when every channel intensity is zero.
pub open spec fn all_zero(chs: Seq<u8>) -> bool {
    forall|i: int| 0 <= i < chs.len() ==> chs[i] == 0
}

impl<const C: usize> NoteSlot<C> {
    /// A slot for pitch `n` with every channel silent.
    pub fn new(n: u8) -> (r: Self)
        ensures
            r.note == n,
            r.channels@ == Seq::new(C as nat, |i: int| 0u8),
    {
        let r = NoteSlot { note: n, channels: [0u8; C] };
        assert(r.channels@ =~= Seq::new(C as nat, |i: int| 0u8));
        r
    }

    /// The colour of LED `led` of this slot's column, counted from the bottom:
    /// each channel lights its share of the column in its own colour, and the
    /// shares add up.
    pub fn led_color(&self, led: usize, colors: &[Color; C]) -> (r: Color)
        ensures
            r == led_mix(self.channels@, colors@, led as int, C as int),
    {
        let mut color = Color { red: 0, green: 0, blue: 0 };
        let mut i: usize = 0;
        while i < C
            invariant
                i <= C,
                color == led_mix(self.channels@, colors@, led as int, i as int),
            decreases C - i,
        {
            let level = led_level_of(self.channels[i], led);
            if level > 0 {
                if level < 255 {
                    add_assign(&mut color, &scale(&colors[i], level));
                } else {
                    add_assign(&mut color, &colors[i]);
                }
            }
            i = i + 1;
        }
        color
    }

    pub fn is_empty(&self) -> (r: bool)
        ensures
            r == all_zero(self.channels@),
    {
        let mut i: usize = 0;
        while i < C
            invariant
                i <= C,
                forall|j: int| 0 <= j < i ==> self.channels@[j] == 0,
            decreases C - i,
        {
            if self.channels[i] != 0 {
                return false;
            }
            i = i + 1;
        }
        true
    }
}

/// How brightly (out of 255) a channel of intensity `v` lights LED `led` of a
/// column, counted from the bottom: each LED covers eight intensity steps.
pub open spec fn led_level(v: u8, led: int) -> u8 {
    if led < v / 8 {
        255
    } else if led == v / 8 {
        (v % 8 * 32) as u8
    } else {
        0
    }
}

/// The light that a channel of colour `color` adds at brightness `level`.
pub open spec fn led_share(color: Color, level: u8) -> Color {
    if level < 255 {
        scaled_color(color, level)
    } else {
        color
    }
}

/// The colour of LED `led` of a column, mixing the first `k` channels.
pub open spec fn led_mix(chs: Seq<u8>, colors: Seq<Color>, led: int, k: int) -> Color
    decreases k,
{
    if k <= 0 {
        blank()
    } else {
        let prev = led_mix(chs, colors, led, k - 1);
        let level = led_level(chs[k - 1], led);
        if level > 0 {
            added(prev, led_share(colors[k - 1], level))
        } else {
            prev
        }
    }
}

fn led_level_of(v: u8, led: usize) -> (r: u8)
    ensures
        r == led_level(v, led as int),
{
    let full = (v / 8) as usize;
    if led < full {
        255
    } else if led == full {
        v % 8 * 32
    } else {
        0
    }
}

/// The occupied slots of a table, in column order.
pub open spec fn occupied<const C: usize>(s: Seq<Option<NoteSlot<C>>>) -> Seq<NoteSlot<C>>
    decreases s.len(),
{
    if s.len() == 0 {
        Seq::empty()
    } else {
        let rest = occupied(s.drop_last());
        match s.last() {
            Some(x) => rest.push(x),
            None => rest,
        }
    }
}

/// For any two occupied columns, the left one holds the lower pitch.
pub open spec fn sorted<const C: usize>(s: Seq<Option<NoteSlot<C>>>) -> bool {
    forall|i: int, j: int|
        0 <= i < j < s.len() && s[i] is Some && s[j] is Some ==> s[i].unwrap().note
            < s[j].unwrap().note
}

/// Every column is occupied.
pub open spec fn full<const C: usize>(s: Seq<Option<NoteSlot<C>>>) -> bool {
    forall|i: int| 0 <= i < s.len() ==> s[i] is Some
}

/// Some column holds pitch `n`.
pub open spec fn has_note<const C: usize>(s: Seq<Option<NoteSlot<C>>>, n: u8) -> bool {
    exists|i: int| 0 <= i < s.len() && s[i] is Some && s[i].unwrap().note == n
}

/// Every occupied column left of `r` holds a pitch below `n`.
pub open spec fn lower_left_of<const C: usize>(s: Seq<Option<NoteSlot<C>>>, n: u8, r: int) -> bool {
    forall|i: int| 0 <= i < r && i < s.len() && s[i] is Some ==> s[i].unwrap().note < n
}

/// Every occupied column right of `r` holds a pitch above `n`.
pub open spec fn higher_right_of<const C: usize>(
    s: Seq<Option<NoteSlot<C>>>,
    n: u8,
    r: int,
) -> bool {
    forall|i: int| r < i < s.len() && s[i] is Some ==> s[i].unwrap().note > n
}

/// Column `r` is a place for pitch `n` that keeps the table in pitch order.
pub open spec fn fits_at<const C: usize>(s: Seq<Option<NoteSlot<C>>>, n: u8, r: int) -> bool {
    0 <= r < s.len() && lower_left_of(s, n, r) && higher_right_of(s, n, r)
}

/// Channel intensities of a slot just created for one channel: `v` on `ch`,
/// silence on the others.
pub open spec fn fresh_channels(c: nat, ch: u8, v: u8) -> Seq<u8> {
    Seq::new(c, |i: int| if i == ch { v } else { 0u8 })
}

/// `y` is what becomes of slot `x` once channel `ch` is set to `v`: nothing
/// when every channel is then silent.
pub open spec fn slot_after<const C: usize>(
    x: NoteSlot<C>,
    y: Option<NoteSlot<C>>,
    ch: u8,
    v: u8,
) -> bool {
    let chs = x.channels@.update(ch as int, v);
    if all_zero(chs) {
        y is None
    } else {
        y is Some && y.unwrap().note == x.note && y.unwrap().channels@ == chs
    }
}

/// The column that pitch `n` takes in a row of `cols` columns when nothing
/// stands in the way: the tracked pitch range spread evenly over the row.
pub open spec fn ideal_index(cols: nat, n: u8) -> int {
    (cols * ((n - MIN_NOTE) as nat) / ((MAX_NOTE - MIN_NOTE) as nat + 1)) as int
}

/// Table `t` is what `set_note(n, ch, v)` makes of table `s`.
pub open spec fn note_set<const C: usize>(
    s: Seq<Option<NoteSlot<C>>>,
    t: Seq<Option<NoteSlot<C>>>,
    n: u8,
    ch: u8,
    v: u8,
) -> bool {
    if ch as int >= C || n < MIN_NOTE || n > MAX_NOTE || s.len() == 0 {
        t == s
    } else if has_note(s, n) {
        // the pitch keeps its column
        exists|i: int|
            0 <= i < s.len() && s[i] is Some && s[i].unwrap().note == n && t == s.update(i, t[i])
                && slot_after(s[i].unwrap(), t[i], ch, v)
    } else if v == 0 {
        t == s
    } else {
        &&& t.len() == s.len()
        &&& exists|y: NoteSlot<C>|
            y.note == n && y.channels@ == fresh_channels(C as nat, ch, v) && (if full(s) {
                // one earlier pitch gives way to the new one
                exists|k: int|
                    0 <= k < occupied(s).len() && occupied(t) == occupied(s).update(k, y)
            } else {
                // every earlier pitch stays, the new one joins them
                exists|k: int|
                    0 <= k <= occupied(s).len() && occupied(t) == occupied(s).insert(k, y)
            }) && exists|c: int|
                // the pitch takes the column that room is made for near its candidate
                candidate(s, n, c) && t == room_for(s, n, c).0.update(room_for(s, n, c).1, Some(y))
    }
}

/// Column content `y` is what `set_channel(ch, v)` makes of column content `x`:
/// only slots where channel `ch` sounds are changed.
pub open spec fn channel_set<const C: usize>(
    x: Option<NoteSlot<C>>,
    y: Option<NoteSlot<C>>,
    ch: u8,
    v: u8,
) -> bool {
    match x {
        None => y is None,
        Some(a) => if (ch as int) < C && a.channels@[ch as int] > 0 {
            slot_after(a, y, ch, v)
        } else {
            y == x
        },
    }
}

/// Some column at or below `u` is empty.
pub open spec fn gap_at_or_below<const C: usize>(s: Seq<Option<NoteSlot<C>>>, u: int) -> bool {
    exists|g: int| 0 <= g <= u && s[g] is None
}

/// Some column from `l` on is empty.
pub open spec fn gap_at_or_above<const C: usize>(s: Seq<Option<NoteSlot<C>>>, l: int) -> bool {
    exists|g: int| l <= g < s.len() && s[g] is None
}

/// `g` is the nearest empty column at or below `u`.
pub open spec fn nearest_gap_below<const C: usize>(s: Seq<Option<NoteSlot<C>>>, u: int, g: int) -> bool {
    0 <= g <= u && s[g] is None && forall|j: int| g < j <= u ==> s[j] is Some
}

/// `g` is the nearest empty column at or above `l`.
pub open spec fn nearest_gap_above<const C: usize>(s: Seq<Option<NoteSlot<C>>>, l: int, g: int) -> bool {
    l <= g < s.len() && s[g] is None && forall|j: int| l <= j < g ==> s[j] is Some
}

/// The table after the nearest empty column at or below `u` has been moved up
/// to `u`, the occupied run in between moving one column down.
pub open spec fn gap_moved_up_to<const C: usize>(s: Seq<Option<NoteSlot<C>>>, u: int) -> Seq<
    Option<NoteSlot<C>>,
> {
    let g = choose|g: int| nearest_gap_below(s, u, g);
    s.subrange(0, g) + s.subrange(g + 1, u + 1) + seq![None] + s.subrange(u + 1, s.len() as int)
}

/// The table after the nearest empty column at or above `l` has been moved
/// down to `l`, the occupied run in between moving one column up.
pub open spec fn gap_moved_down_to<const C: usize>(s: Seq<Option<NoteSlot<C>>>, l: int) -> Seq<
    Option<NoteSlot<C>>,
> {
    let g = choose|g: int| nearest_gap_above(s, l, g);
    s.subrange(0, l) + seq![None] + s.subrange(l, g) + s.subrange(g + 1, s.len() as int)
}

/// Room for a pitch that belongs just above occupied column `i`: an empty
/// column brought up from below to `i`, else one brought down from above to
/// `i + 1`, else column `i` itself, to be overwritten.
pub open spec fn room_above<const C: usize>(s: Seq<Option<NoteSlot<C>>>, i: int) -> (
    Seq<Option<NoteSlot<C>>>,
    int,
) {
    if gap_at_or_below(s, i) {
        (gap_moved_up_to(s, i), i)
    } else if i + 1 < s.len() && gap_at_or_above(s, i + 1) {
        (gap_moved_down_to(s, i + 1), i + 1)
    } else {
        (s, i)
    }
}

/// Room for a pitch that belongs just below occupied column `i`: an empty
/// column brought down from above to `i`, else one brought up from below to
/// `i - 1`, else column `i` itself, to be overwritten.
pub open spec fn room_below<const C: usize>(s: Seq<Option<NoteSlot<C>>>, i: int) -> (
    Seq<Option<NoteSlot<C>>>,
    int,
) {
    if gap_at_or_above(s, i) {
        (gap_moved_down_to(s, i), i)
    } else if i > 0 && gap_at_or_below(s, i - 1) {
        (gap_moved_up_to(s, i - 1), i - 1)
    } else {
        (s, i)
    }
}

/// The table, and the column for pitch `n`, once room has been made at
/// candidate column `c`: an empty candidate is used as it is; beside an
/// occupied one the pitch takes the empty neighbour on its side, or room is
/// made there.
pub open spec fn room_for<const C: usize>(s: Seq<Option<NoteSlot<C>>>, n: u8, c: int) -> (
    Seq<Option<NoteSlot<C>>>,
    int,
) {
    match s[c] {
        None => (s, c),
        Some(e) => if e.note < n {
            if c == s.len() - 1 {
                room_above(s, c)
            } else if s[c + 1] is None {
                (s, c + 1)
            } else {
                room_below(s, c + 1)
            }
        } else {
            if c == 0 {
                room_below(s, 0)
            } else if s[c - 1] is None {
                (s, c - 1)
            } else {
                room_above(s, c - 1)
            }
        },
    }
}

/// Column `c` is where the search for pitch `n`'s place, starting from its
/// ideal column, stops: a column that keeps pitch order, which is the ideal
/// column itself or else the nearest occupied column towards which the order
/// pushes the pitch.
pub open spec fn candidate<const C: usize>(s: Seq<Option<NoteSlot<C>>>, n: u8, c: int) -> bool {
    let ideal = ideal_index(s.len(), n);
    &&& fits_at(s, n, c)
    &&& (c == ideal || (s[c] is Some && s[c].unwrap().note < n && ideal < c) || (s[c] is Some
        && s[c].unwrap().note > n && c < ideal))
}

#[derive(Clone, Copy, PartialEq, Eq, Structural)]
enum Direction {
    Any,
    Up,
    Down,
}

/// A fixed row of `N` display columns, each empty or holding one pitch with
/// `C` channel intensities.
pub struct NoteSlots<const N: usize, const C: usize> {
    slots: [Option<NoteSlot<C>>; N],
}

impl<const N: usize, const C: usize> View for NoteSlots<N, C> {
    type V = Seq<Option<NoteSlot<C>>>;

    closed spec fn view(&self) -> Seq<Option<NoteSlot<C>>> {
        self.slots@
    }
}

/// The table invariant: columns in pitch order, only sounding pitches of the
/// tracked range are held.
pub open spec fn table_wf<const C: usize>(s: Seq<Option<NoteSlot<C>>>) -> bool {
    &&& sorted(s)
    &&& forall|i: int|
        0 <= i < s.len() && #[trigger] s[i] is Some ==> !all_zero(s[i].unwrap().channels@)
            && MIN_NOTE <= s[i].unwrap().note <= MAX_NOTE
}

impl<const N: usize, const C: usize> NoteSlots<N, C> {
    pub open spec fn wf(&self) -> bool {
        self@.len() == N && table_wf(self@)
    }

    pub fn new() -> (r: Self)
        ensures
            r.wf(),
            forall|i: int| 0 <= i < N ==> r@[i] is None,
            occupied(r@).len() == 0,
    {
        let r = NoteSlots { slots: [None; N] };
        proof {
            lemma_occupied_none(r@);
        }
        r
    }

    /// The content of column `i`.
    pub fn slot(&self, i: usize) -> (r: Option<NoteSlot<C>>)
        requires
            i < N,
        ensures
            r == self@[i as int],
    {
        self.slots[i]
    }

    /// How many columns are occupied.
    pub fn count(&self) -> (r: usize)
        requires
            self.wf(),
        ensures
            r == occupied(self@).len(),
    {
        let mut k: usize = 0;
        let mut i: usize = 0;
        while i < N
            invariant
                i <= N,
                self@.len() == N,
                k == occupied(self@.subrange(0, i as int)).len(),
                k <= i,
            decreases N - i,
        {
            proof {
                let a = self@.subrange(0, i as int);
                assert(self@.subrange(0, i + 1) =~= a + seq![self@[i as int]]);
                lemma_occupied_add(a, seq![self@[i as int]]);
                lemma_occupied_single(self@[i as int]);
            }
            if self.slots[i].is_some() {
                k = k + 1;
            }
            i = i + 1;
        }
        assert(self@.subrange(0, N as int) =~= self@);
        k
    }

    /// Sets the intensity of pitch `n` on channel `ch` to `v`.
    ///
    /// A sounding pitch keeps its column and is dropped once all its channels
    /// are silent. A new pitch is placed in pitch order near its ideal column,
    /// shifting neighbours into the nearest empty column; in a full table one
    /// neighbouring pitch is overwritten. Silence for an absent pitch, a pitch
    /// outside the tracked range and an untracked channel change nothing.
    pub fn set_note(&mut self, n: u8, ch: u8, v: u8)
        requires
            old(self).wf(),
        ensures
            final(self).wf(),
            sorted(final(self)@),
            note_set(old(self)@, final(self)@, n, ch, v),
    {
        let ghost s0 = self@;
        let c = ch as usize;
        if c < C && n >= MIN_NOTE && n <= MAX_NOTE && N > 0 {
            match self.find_slot(n) {
                Some(s) => {
                    // the pitch already sounds: use its column
                    let mut slot = self.slots[s].unwrap();
                    slot.channels[c] = v;
                    if slot.is_empty() {
                        self.slots[s] = None;
                    } else {
                        self.slots[s] = Some(slot);
                    }
                    proof {
                        assert(slot.channels@ == s0[s as int].unwrap().channels@.update(c as int, v));
                        assert(self@ == s0.update(s as int, self@[s as int]));
                    }
                },
                None => {
                    if v > 0 {
                        // spread the tracked pitches evenly over the columns
                        let cols = N as u128;
                        let d = (n - MIN_NOTE) as u128;
                        proof {
                            lemma_ideal_in_range(N as nat, n);
                            assert(cols * d <= cols * 87) by (nonlinear_arith)
                                requires
                                    d <= 87,
                            ;
                        }
                        let ideal = (cols * d / ((MAX_NOTE - MIN_NOTE) as u128 + 1)) as usize;
                        assert(ideal == ideal_index(N as nat, n));
                        // respect the pitches already placed around it
                        let valid = self.valid_relative_to_existing(ideal, n);
                        // free that column, moving others where needed
                        let index = self.make_free_slot(n, valid, Direction::Any);
                        let ghost f = self@;
                        let mut slot = NoteSlot::new(n);
                        slot.channels[c] = v;
                        self.slots[index] = Some(slot);
                        proof {
                            self.lemma_placed(s0, f, index as int, valid as int, slot, n, ch, v);
                        }
                    }
                },
            }
        }
    }

    proof fn lemma_placed(
        &self,
        s0: Seq<Option<NoteSlot<C>>>,
        f: Seq<Option<NoteSlot<C>>>,
        r: int,
        c: int,
        y: NoteSlot<C>,
        n: u8,
        ch: u8,
        v: u8,
    )
        requires
            table_wf(s0),
            table_wf(f),
            s0.len() == N,
            f.len() == N,
            N > 0,
            (ch as int) < C,
            MIN_NOTE <= n <= MAX_NOTE,
            v > 0,
            !has_note(s0, n),
            fits_at(f, n, r),
            (f[r] is None && occupied(f) == occupied(s0)) || (f == s0 && full(s0)),
            candidate(s0, n, c),
            (f, r) == room_for(s0, n, c),
            y.note == n,
            y.channels@ == Seq::new(C as nat, |i: int| 0u8).update(ch as int, v),
            self@ == f.update(r, Some(y)),
        ensures
            table_wf(self@),
            note_set(s0, self@, n, ch, v),
    {
        let t = self@;
        assert(y.channels@ =~= fresh_channels(C as nat, ch, v));
        assert(y.channels@[ch as int] == v);
        assert forall|i: int| 0 <= i < t.len() && #[trigger] t[i] is Some implies !all_zero(t[i].unwrap().channels@)
            && MIN_NOTE <= t[i].unwrap().note <= MAX_NOTE by {
            if i != r {
                assert(t[i] == f[i]);
            }
        }
        assert forall|i: int, j: int| 0 <= i < j < t.len() && t[i] is Some && t[j] is Some implies t[i].unwrap().note
            < t[j].unwrap().note by {
            if i != r && j != r {
                assert(t[i] == f[i] && t[j] == f[j]);
            }
        }
        lemma_occupied_write(f, r, Some(y));
        lemma_occupied_single(Some(y));
        lemma_occupied_single(f[r]);
        let a = occupied(f.subrange(0, r));
        let b = occupied(f.subrange(r + 1, f.len() as int));
        lemma_occupied_len(f);
        lemma_occupied_len(s0);
        if f[r] is None {
            assert(!full(f));
            assert(!full(s0));
            assert(occupied(t) =~= occupied(s0).insert(a.len() as int, y));
        } else {
            assert(occupied(t) =~= occupied(s0).update(a.len() as int, y));
        }
    }

    /// Sets channel `ch` to `v` in every slot where that channel sounds,
    /// dropping slots that fall silent.
    pub fn set_channel(&mut self, ch: u8, v: u8)
        requires
            old(self).wf(),
        ensures
            final(self).wf(),
            sorted(final(self)@),
            forall|i: int| 0 <= i < N ==> channel_set(old(self)@[i], #[trigger] final(self)@[i], ch, v),
    {
        let ghost s0 = self@;
        let c = ch as usize;
        if c < C {
            let mut s: usize = 0;
            while s < N
                invariant
                    s <= N,
                    c < C,
                    c == ch,
                    table_wf(s0),
                    self@.len() == N,
                    forall|i: int| 0 <= i < s ==> channel_set(s0[i], #[trigger] self@[i], ch, v),
                    forall|i: int| s <= i < N ==> self@[i] == s0[i],
                    forall|i: int|
                        0 <= i < N && #[trigger] self@[i] is Some ==> s0[i] is Some && self@[i].unwrap().note
                            == s0[i].unwrap().note && !all_zero(self@[i].unwrap().channels@),
                decreases N - s,
            {
                if let Some(slot) = self.slots[s] {
                    if slot.channels[c] > 0 {
                        let mut changed = slot;
                        changed.channels[c] = v;
                        if changed.is_empty() {
                            self.slots[s] = None;
                        } else {
                            self.slots[s] = Some(changed);
                        }
                    }
                }
                s = s + 1;
            }
            proof {
                let t = self@;
                assert forall|i: int, j: int| 0 <= i < j < t.len() && t[i] is Some && t[j] is Some implies t[i].unwrap().note
                    < t[j].unwrap().note by {
                    assert(s0[i] is Some && s0[j] is Some);
                }
            }
        }
    }

    /// Moves the first empty column at or above `lower` down to `lower`,
    /// shifting the occupied run in between one column up.
    fn shift_up(&mut self, lower: usize) -> (r: bool)
        requires
            lower < N,
        ensures
            r <==> exists|g: int| lower <= g < N && old(self)@[g] is None,
            r <==> gap_at_or_above(old(self)@, lower as int),
            r ==> final(self)@ == gap_moved_down_to(old(self)@, lower as int),
            !r ==> final(self)@ == old(self)@,
            r ==> exists|g: int|
                #![trigger old(self)@[g]]
                lower <= g < N && old(self)@[g] is None && (forall|i: int|
                    lower <= i < g ==> old(self)@[i] is Some) && final(self)@ == old(self)@.subrange(
                    0,
                    lower as int,
                ) + seq![None] + old(self)@.subrange(lower as int, g) + old(self)@.subrange(
                    g + 1,
                    N as int,
                ),
    {
        let mut gap: usize = lower;
        while gap < N && self.slots[gap].is_some()
            invariant
                lower <= gap <= N,
                forall|i: int| lower <= i < gap ==> self@[i] is Some,
            decreases N - gap,
        {
            gap = gap + 1;
        }
        if gap == N {
            return false;
        }
        let ghost s0 = self@;
        let mut i: usize = gap;
        while i > lower
            invariant
                lower <= i <= gap < N,
                self@.len() == N,
                forall|j: int| 0 <= j < N && (j <= i || j > gap) ==> self@[j] == s0[j],
                forall|j: int| i < j <= gap ==> self@[j] == s0[j - 1],
            decreases i,
        {
            self.slots[i] = self.slots[i - 1];
            i = i - 1;
        }
        self.slots[lower] = None;
        assert(self@ =~= s0.subrange(0, lower as int) + seq![None] + s0.subrange(lower as int, gap as int)
            + s0.subrange(gap + 1, N as int));
        proof {
            assert(nearest_gap_above(s0, lower as int, gap as int));
            lemma_nearest_gap_above_unique(s0, lower as int, gap as int);
        }
        true
    }

    /// Moves the last empty column at or below `upper` up to `upper`,
    /// shifting the occupied run in between one column down.
    fn shift_down(&mut self, upper: usize) -> (r: bool)
        requires
            upper < N,
        ensures
            r <==> exists|g: int| 0 <= g <= upper && old(self)@[g] is None,
            r <==> gap_at_or_below(old(self)@, upper as int),
            r ==> final(self)@ == gap_moved_up_to(old(self)@, upper as int),
            !r ==> final(self)@ == old(self)@,
            r ==> exists|g: int|
                #![trigger old(self)@[g]]
                0 <= g <= upper && old(self)@[g] is None && (forall|i: int|
                    g < i <= upper ==> old(self)@[i] is Some) && final(self)@ == old(self)@.subrange(
                    0,
                    g,
                ) + old(self)@.subrange(g + 1, upper + 1) + seq![None] + old(self)@.subrange(
                    upper + 1,
                    N as int,
                ),
    {
        let mut top: usize = upper + 1;
        while top > 0 && self.slots[top - 1].is_some()
            invariant
                0 <= top <= upper + 1,
                upper < N,
                forall|i: int| top <= i <= upper ==> self@[i] is Some,
            decreases top,
        {
            top = top - 1;
        }
        if top == 0 {
            return false;
        }
        let gap: usize = top - 1;
        let ghost s0 = self@;
        let mut i: usize = gap;
        while i < upper
            invariant
                gap <= i <= upper < N,
                self@.len() == N,
                forall|j: int| 0 <= j < N && (j >= i || j < gap) ==> self@[j] == s0[j],
                forall|j: int| gap <= j < i ==> self@[j] == s0[j + 1],
            decreases upper - i,
        {
            self.slots[i] = self.slots[i + 1];
            i = i + 1;
        }
        self.slots[upper] = None;
        assert(self@ =~= s0.subrange(0, gap as int) + s0.subrange(gap + 1, upper + 1) + seq![None]
            + s0.subrange(upper + 1, N as int));
        proof {
            assert(nearest_gap_below(s0, upper as int, gap as int));
            lemma_nearest_gap_below_unique(s0, upper as int, gap as int);
        }
        true
    }

    fn find_slot(&self, n: u8) -> (r: Option<usize>)
        ensures
            r is Some ==> r.unwrap() < N && self@[r.unwrap() as int] is Some
                && self@[r.unwrap() as int].unwrap().note == n,
            r is None ==> !has_note(self@, n),
    {
        let mut s: usize = 0;
        while s < N
            invariant
                s <= N,
                forall|i: int| 0 <= i < s ==> !(self@[i] is Some && self@[i].unwrap().note == n),
            decreases N - s,
        {
            if let Some(existing) = &self.slots[s] {
                if existing.note == n {
                    return Some(s);
                }
            }
            s = s + 1;
        }
        None
    }

    /// Moves `ideal` to a column that respects the pitch order of the
    /// occupied columns around it.
    fn valid_relative_to_existing(&self, ideal: usize, n: u8) -> (r: usize)
        requires
            self.wf(),
            ideal < N,
            !has_note(self@, n),
        ensures
            fits_at(self@, n, r as int),
            r == ideal || (self@[r as int] is Some && self@[r as int].unwrap().note < n && ideal < r) || (
            self@[r as int] is Some && self@[r as int].unwrap().note > n && r < ideal),
            self@[r as int] is None ==> r == ideal,
            self@[ideal as int] is None && fits_at(self@, n, ideal as int) ==> r == ideal,
    {
        let ghost s = self@;
        let mut valid: Option<usize> = None;
        let mut i: usize = ideal + 1;
        let mut stop = false;
        while i < N && !stop
            invariant
                s == self@,
                sorted(s),
                !has_note(s, n),
                ideal < i <= N,
                stop ==> i < N && s[i as int] is Some && s[i as int].unwrap().note > n,
                valid is None ==> forall|j: int| ideal < j < i ==> s[j] is None,
                valid is Some ==> ideal < valid.unwrap() < i && s[valid.unwrap() as int] is Some
                    && s[valid.unwrap() as int].unwrap().note < n,
                valid is Some ==> forall|j: int| valid.unwrap() < j < i ==> s[j] is None,
            decreases N - i + (if stop { 0int } else { 1int }),
        {
            if let Some(slot) = &self.slots[i] {
                if slot.note < n {
                    valid = Some(i);
                } else if slot.note > n {
                    stop = true;
                }
            }
            if !stop {
                i = i + 1;
            }
        }
        if let Some(v) = valid {
            assert(s[ideal as int] is None ==> !fits_at(s, n, ideal as int));
            return v;
        }
        let mut k: usize = ideal;
        let mut stop_down = false;
        while k > 0 && !stop_down
            invariant
                s == self@,
                sorted(s),
                !has_note(s, n),
                ideal < N,
                k <= ideal,
                stop_down ==> k > 0 && s[k - 1] is Some && s[k - 1].unwrap().note < n,
                valid is None ==> forall|j: int| k <= j < ideal ==> s[j] is None,
                valid is Some ==> k <= valid.unwrap() < ideal && s[valid.unwrap() as int] is Some
                    && s[valid.unwrap() as int].unwrap().note > n,
                valid is Some ==> forall|j: int| k <= j < valid.unwrap() ==> s[j] is None,
            decreases k + (if stop_down { 0int } else { 1int }),
        {
            if let Some(slot) = &self.slots[k - 1] {
                if slot.note > n {
                    valid = Some(k - 1);
                } else if slot.note < n {
                    stop_down = true;
                }
            }
            if !stop_down {
                k = k - 1;
            }
        }
        if let Some(v) = valid {
            assert(s[ideal as int] is None ==> !fits_at(s, n, ideal as int));
            return v;
        }
        ideal
    }

    /// Frees a column for the absent pitch `n` at or next to `ideal`, shifting
    /// a run of neighbours into the nearest empty column. When no column is
    /// empty, the returned column is left occupied, to be overwritten.
    #[verifier::spinoff_prover]
    #[verifier::rlimit(40)]
    fn make_free_slot(&mut self, n: u8, ideal: usize, previous: Direction) -> (r: usize)
        requires
            old(self).wf(),
            !has_note(old(self)@, n),
            fits_at(old(self)@, n, ideal as int),
            previous == Direction::Up && old(self)@[ideal as int] is Some ==> old(
                self,
            )@[ideal as int].unwrap().note > n,
            previous == Direction::Down && old(self)@[ideal as int] is Some ==> old(
                self,
            )@[ideal as int].unwrap().note < n,
        ensures
            r < N,
            final(self).wf(),
            fits_at(final(self)@, n, r as int),
            (final(self)@[r as int] is None && occupied(final(self)@) == occupied(old(self)@)) || (
            final(self)@ == old(self)@ && full(old(self)@)),
            old(self)@[ideal as int] is None ==> r == ideal && final(self)@ == old(self)@,
            previous == Direction::Any ==> (final(self)@, r as int) == room_for(
                old(self)@,
                n,
                ideal as int,
            ),
            previous == Direction::Up && old(self)@[ideal as int] is Some ==> (
            final(self)@,
            r as int,
            ) == room_below(old(self)@, ideal as int),
            previous == Direction::Down && old(self)@[ideal as int] is Some ==> (
            final(self)@,
            r as int,
            ) == room_above(old(self)@, ideal as int),
        decreases (if previous == Direction::Any { 1int } else { 0int }),
    {
        let ghost s = self@;
        match self.slots[ideal] {
            None => ideal,
            Some(existing) => {
                if n > existing.note {
                    // the new pitch belongs above this column
                    if ideal == N - 1 || previous == Direction::Down {
                        if self.shift_down(ideal) {
                            proof {
                                let g = choose|g: int|
                                    #![trigger s[g]]
                                    0 <= g <= ideal && s[g] is None && (forall|i: int|
                                        g < i <= ideal ==> s[i] is Some) && self@ == s.subrange(0, g)
                                        + s.subrange(g + 1, ideal + 1) + seq![None] + s.subrange(
                                        ideal + 1,
                                        N as int,
                                    );
                                lemma_gap_up_fits(s, n, g, ideal as int);
                            }
                            ideal
                        } else if ideal < N - 1 && self.shift_up(ideal + 1) {
                            proof {
                                let g = choose|g: int|
                                    #![trigger s[g]]
                                    ideal + 1 <= g < N && s[g] is None && (forall|i: int|
                                        ideal + 1 <= i < g ==> s[i] is Some) && self@ == s.subrange(
                                        0,
                                        ideal + 1,
                                    ) + seq![None] + s.subrange(ideal + 1, g) + s.subrange(
                                        g + 1,
                                        N as int,
                                    );
                                lemma_gap_down_fits(s, n, ideal + 1, g);
                            }
                            ideal + 1
                        } else {
                            // no empty column anywhere: overwrite this one
                            proof {
                                assert forall|i: int| 0 <= i < N implies s[i] is Some by {
                                    if i > ideal {
                                        assert(ideal < N - 1);
                                    }
                                }
                            }
                            ideal
                        }
                    } else {
                        self.make_free_slot(n, ideal + 1, Direction::Up)
                    }
                } else if n < existing.note {
                    // the new pitch belongs below this column
                    if ideal == 0 || previous == Direction::Up {
                        if self.shift_up(ideal) {
                            proof {
                                let g = choose|g: int|
                                    #![trigger s[g]]
                                    ideal <= g < N && s[g] is None && (forall|i: int|
                                        ideal <= i < g ==> s[i] is Some) && self@ == s.subrange(
                                        0,
                                        ideal as int,
                                    ) + seq![None] + s.subrange(ideal as int, g) + s.subrange(
                                        g + 1,
                                        N as int,
                                    );
                                lemma_gap_down_fits(s, n, ideal as int, g);
                            }
                            ideal
                        } else if ideal > 0 && self.shift_down(ideal - 1) {
                            proof {
                                let g = choose|g: int|
                                    #![trigger s[g]]
                                    0 <= g <= ideal - 1 && s[g] is None && (forall|i: int|
                                        g < i <= ideal - 1 ==> s[i] is Some) && self@ == s.subrange(
                                        0,
                                        g,
                                    ) + s.subrange(g + 1, ideal as int) + seq![None] + s.subrange(
                                        ideal as int,
                                        N as int,
                                    );
                                lemma_gap_up_fits(s, n, g, ideal - 1);
                            }
                            ideal - 1
                        } else {
                            // no empty column anywhere: overwrite this one
                            proof {
                                assert forall|i: int| 0 <= i < N implies s[i] is Some by {
                                    if i < ideal {
                                        assert(ideal > 0);
                                    }
                                }
                            }
                            ideal
                        }
                    } else {
                        self.make_free_slot(n, ideal - 1, Direction::Down)
                    }
                } else {
                    proof {
                        assert(s[ideal as int] is Some && s[ideal as int].unwrap().note == n);
                    }
                    ideal
                }
            },
        }
    }
}

} // verus!
