//! What holds of the note-slot table over runs of calls.

use vstd::prelude::*;

use crate::notes::{
    MAX_NOTE, MIN_NOTE, NoteSlot, all_zero, candidate, fresh_channels, full, has_note, note_set, occupied, room_for, slot_after, table_wf,
};
use crate::table_lemmas::{lemma_has_note_occupied, lemma_occupied_len, lemma_occupied_none};

verus! {

/// `tables` is a run of `set_note` calls: table `i + 1` is what placing
/// `pitches[i]` on channel `chans[i]` with intensity `vels[i]` makes of table `i`.
pub open spec fn note_run<const C: usize>(
    tables: Seq<Seq<Option<NoteSlot<C>>>>,
    pitches: Seq<u8>,
    chans: Seq<u8>,
    vels: Seq<u8>,
) -> bool {
    &&& tables.len() == pitches.len() + 1
    &&& chans.len() == pitches.len()
    &&& vels.len() == pitches.len()
    &&& forall|i: int|
        0 <= i < pitches.len() ==> note_set(
            #[trigger] tables[i],
            tables[i + 1],
            pitches[i],
            chans[i],
            vels[i],
        )
}

/// The run starts from an empty table and places distinct tracked pitches
/// with nonzero intensity on tracked channels.
pub open spec fn fresh_notes<const C: usize>(
    tables: Seq<Seq<Option<NoteSlot<C>>>>,
    pitches: Seq<u8>,
    chans: Seq<u8>,
    vels: Seq<u8>,
) -> bool {
    &&& forall|i: int| 0 <= i < tables[0].len() ==> tables[0][i] is None
    &&& forall|i: int|
        0 <= i < pitches.len() ==> MIN_NOTE <= #[trigger] pitches[i] <= MAX_NOTE && (chans[i] as int)
            < C && vels[i] > 0
    &&& forall|i: int, j: int| 0 <= i < j < pitches.len() ==> pitches[i] != pitches[j]
}

/// One placement of an absent sounding pitch into a table with an empty
/// column: the pitch joins, every earlier pitch stays.
pub proof fn lemma_insert_step<const C: usize>(
    s: Seq<Option<NoteSlot<C>>>,
    t: Seq<Option<NoteSlot<C>>>,
    p: u8,
    ch: u8,
    v: u8,
)
    requires
        note_set(s, t, p, ch, v),
        !has_note(s, p),
        MIN_NOTE <= p <= MAX_NOTE,
        (ch as int) < C,
        v > 0,
        occupied(s).len() < s.len(),
    ensures
        t.len() == s.len(),
        occupied(t).len() == occupied(s).len() + 1,
        forall|q: u8| has_note(t, q) <==> has_note(s, q) || q == p,
{
    lemma_occupied_len(s);
    let y = choose|y: NoteSlot<C>|
        y.note == p && y.channels@ == fresh_channels(C as nat, ch, v) && (exists|k: int|
            0 <= k <= occupied(s).len() && occupied(t) == occupied(s).insert(k, y))
            && exists|c: int|
            candidate(s, p, c) && t == room_for(s, p, c).0.update(room_for(s, p, c).1, Some(y));
    let k = choose|k: int| 0 <= k <= occupied(s).len() && occupied(t) == occupied(s).insert(k, y);
    assert forall|q: u8| has_note(t, q) <==> has_note(s, q) || q == p by {
        lemma_has_note_occupied(s, q);
        lemma_has_note_occupied(t, q);
        if has_note(s, q) {
            let j = choose|j: int| 0 <= j < occupied(s).len() && #[trigger] occupied(s)[j].note == q;
            if j < k {
                assert(occupied(t)[j] == occupied(s)[j]);
            } else {
                assert(occupied(t)[j + 1] == occupied(s)[j]);
            }
        }
        if q == p {
            assert(occupied(t)[k] == y);
        }
        if has_note(t, q) && q != p {
            let j = choose|j: int| 0 <= j < occupied(t).len() && #[trigger] occupied(t)[j].note == q;
            if j < k {
                assert(occupied(s)[j] == occupied(t)[j]);
            } else if j > k {
                assert(occupied(s)[j - 1] == occupied(t)[j]);
            }
        }
    }
}

/// One placement of an absent sounding pitch into a full table: the table
/// stays full and holds the new pitch.
pub proof fn lemma_evict_step<const C: usize>(
    s: Seq<Option<NoteSlot<C>>>,
    t: Seq<Option<NoteSlot<C>>>,
    p: u8,
    ch: u8,
    v: u8,
)
    requires
        note_set(s, t, p, ch, v),
        !has_note(s, p),
        MIN_NOTE <= p <= MAX_NOTE,
        (ch as int) < C,
        v > 0,
        s.len() > 0,
        full(s),
    ensures
        t.len() == s.len(),
        occupied(t).len() == s.len(),
        full(t),
        has_note(t, p),
{
    lemma_occupied_len(s);
    let y = choose|y: NoteSlot<C>|
        y.note == p && y.channels@ == fresh_channels(C as nat, ch, v) && (exists|k: int|
            0 <= k < occupied(s).len() && occupied(t) == occupied(s).update(k, y))
            && exists|c: int|
            candidate(s, p, c) && t == room_for(s, p, c).0.update(room_for(s, p, c).1, Some(y));
    let k = choose|k: int| 0 <= k < occupied(s).len() && occupied(t) == occupied(s).update(k, y);
    lemma_occupied_len(t);
    lemma_has_note_occupied(t, p);
    assert(occupied(t)[k].note == p);
}

/// Placing at most as many distinct sounding pitches as there are columns
/// into an empty table evicts none: each ends up in a column of its own.
pub proof fn lemma_no_eviction_under_capacity<const C: usize>(
    tables: Seq<Seq<Option<NoteSlot<C>>>>,
    pitches: Seq<u8>,
    chans: Seq<u8>,
    vels: Seq<u8>,
)
    requires
        note_run(tables, pitches, chans, vels),
        fresh_notes(tables, pitches, chans, vels),
        pitches.len() <= tables[0].len(),
    ensures
        tables.last().len() == tables[0].len(),
        occupied(tables.last()).len() == pitches.len(),
        forall|i: int| 0 <= i < pitches.len() ==> has_note(tables.last(), #[trigger] pitches[i]),
        forall|q: u8|
            has_note(tables.last(), q) ==> exists|i: int| 0 <= i < pitches.len() && pitches[i] == q,
    decreases pitches.len(),
{
    let m = pitches.len() as int;
    if m == 0 {
        lemma_occupied_none(tables[0]);
        assert forall|q: u8| !has_note(tables[0], q) by {}
    } else {
        let tp = tables.subrange(0, m);
        let pp = pitches.subrange(0, m - 1);
        let cp = chans.subrange(0, m - 1);
        let vp = vels.subrange(0, m - 1);
        assert forall|i: int| 0 <= i < pp.len() implies note_set(
            #[trigger] tp[i],
            tp[i + 1],
            pp[i],
            cp[i],
            vp[i],
        ) by {
            assert(tables[i] == tp[i]);
            assert(tables[i + 1] == tp[i + 1]);
        }
        assert(tp[0] == tables[0]);
        lemma_no_eviction_under_capacity(tp, pp, cp, vp);
        let s = tables[m - 1];
        let t = tables[m];
        let p = pitches[m - 1];
        assert(tp.last() == s);
        assert(!has_note(s, p)) by {
            if has_note(s, p) {
                let i = choose|i: int| 0 <= i < pp.len() && pp[i] == p;
                assert(pitches[i] == p);
            }
        }
        lemma_insert_step(s, t, p, chans[m - 1], vels[m - 1]);
        assert(tables.last() == t);
        assert forall|i: int| 0 <= i < pitches.len() implies has_note(t, #[trigger] pitches[i]) by {
            if i < m - 1 {
                assert(pp[i] == pitches[i]);
            }
        }
        assert forall|q: u8| has_note(t, q) implies exists|i: int|
            0 <= i < pitches.len() && pitches[i] == q by {
            if q != p {
                let i = choose|i: int| 0 <= i < pp.len() && pp[i] == q;
                assert(pitches[i] == q);
            } else {
                assert(pitches[m - 1] == q);
            }
        }
    }
}

/// Placing one more distinct sounding pitch than there are columns into an
/// empty table of at least one column leaves every column occupied, holding
/// the newest pitch: one earlier pitch gave way.
pub proof fn lemma_eviction_on_overflow<const C: usize>(
    tables: Seq<Seq<Option<NoteSlot<C>>>>,
    pitches: Seq<u8>,
    chans: Seq<u8>,
    vels: Seq<u8>,
)
    requires
        note_run(tables, pitches, chans, vels),
        fresh_notes(tables, pitches, chans, vels),
        tables[0].len() > 0,
        pitches.len() == tables[0].len() + 1,
    ensures
        tables.last().len() == tables[0].len(),
        occupied(tables.last()).len() == tables[0].len(),
        full(tables.last()),
        has_note(tables.last(), pitches.last()),
{
    let m = pitches.len() as int;
    let tp = tables.subrange(0, m);
    let pp = pitches.subrange(0, m - 1);
    let cp = chans.subrange(0, m - 1);
    let vp = vels.subrange(0, m - 1);
    assert forall|i: int| 0 <= i < pp.len() implies note_set(
        #[trigger] tp[i],
        tp[i + 1],
        pp[i],
        cp[i],
        vp[i],
    ) by {
        assert(tables[i] == tp[i]);
        assert(tables[i + 1] == tp[i + 1]);
    }
    assert(tp[0] == tables[0]);
    lemma_no_eviction_under_capacity(tp, pp, cp, vp);
    let s = tables[m - 1];
    let t = tables[m];
    let p = pitches[m - 1];
    assert(tp.last() == s);
    assert(!has_note(s, p)) by {
        if has_note(s, p) {
            let i = choose|i: int| 0 <= i < pp.len() && pp[i] == p;
            assert(pitches[i] == p);
        }
    }
    lemma_occupied_len(s);
    lemma_evict_step(s, t, p, chans[m - 1], vels[m - 1]);
    assert(tables.last() == t);
}

/// Silencing the last sounding channel of a pitch frees its column.
pub proof fn lemma_slot_release<const C: usize>(
    s: Seq<Option<NoteSlot<C>>>,
    t: Seq<Option<NoteSlot<C>>>,
    i: int,
    ch: u8,
)
    requires
        table_wf(s),
        0 <= i < s.len(),
        s[i] is Some,
        (ch as int) < C,
        forall|c: int| 0 <= c < C && c != ch ==> s[i].unwrap().channels@[c] == 0,
        note_set(s, t, s[i].unwrap().note, ch, 0),
    ensures
        t[i] is None,
        !has_note(t, s[i].unwrap().note),
{
    let n = s[i].unwrap().note;
    assert(has_note(s, n));
    let j = choose|j: int|
        0 <= j < s.len() && s[j] is Some && s[j].unwrap().note == n && t == s.update(j, t[j])
            && slot_after(s[j].unwrap(), t[j], ch, 0);
    assert(j == i);
    assert(all_zero(s[i].unwrap().channels@.update(ch as int, 0)));
    if has_note(t, n) {
        let k = choose|k: int| 0 <= k < t.len() && t[k] is Some && t[k].unwrap().note == n;
        assert(t[k] == s[k]);
    }
}

/// Pitch `n` has only one candidate column.
pub proof fn lemma_candidate_unique<const C: usize>(s: Seq<Option<NoteSlot<C>>>, n: u8, c1: int, c2: int)
    requires
        candidate(s, n, c1),
        candidate(s, n, c2),
    ensures
        c1 == c2,
{
    if c1 < c2 {
        assert(s[c1] is Some ==> s[c1].unwrap().note < n);
        assert(s[c2] is Some ==> s[c2].unwrap().note > n);
    } else if c2 < c1 {
        assert(s[c2] is Some ==> s[c2].unwrap().note < n);
        assert(s[c1] is Some ==> s[c1].unwrap().note > n);
    }
}

/// `set_note` is a function: for a well-formed table there is exactly one
/// table that its contract allows.
pub proof fn lemma_note_set_deterministic<const C: usize>(
    s: Seq<Option<NoteSlot<C>>>,
    t1: Seq<Option<NoteSlot<C>>>,
    t2: Seq<Option<NoteSlot<C>>>,
    n: u8,
    ch: u8,
    v: u8,
)
    requires
        table_wf(s),
        note_set(s, t1, n, ch, v),
        note_set(s, t2, n, ch, v),
    ensures
        t1 == t2,
{
    if ch as int >= C || n < MIN_NOTE || n > MAX_NOTE || s.len() == 0 {
    } else if has_note(s, n) {
        let i1 = choose|i: int|
            0 <= i < s.len() && s[i] is Some && s[i].unwrap().note == n && t1 == s.update(i, t1[i])
                && slot_after(s[i].unwrap(), t1[i], ch, v);
        let i2 = choose|i: int|
            0 <= i < s.len() && s[i] is Some && s[i].unwrap().note == n && t2 == s.update(i, t2[i])
                && slot_after(s[i].unwrap(), t2[i], ch, v);
        assert(i1 == i2) by {
            if i1 < i2 {
                assert(s[i1].unwrap().note < s[i2].unwrap().note);
            } else if i2 < i1 {
                assert(s[i2].unwrap().note < s[i1].unwrap().note);
            }
        }
        if t1[i1] is Some {
            assert(t1[i1].unwrap().channels =~= t2[i1].unwrap().channels);
        }
        assert(t1 =~= t2);
    } else if v == 0 {
    } else {
        let y1 = choose|y: NoteSlot<C>|
            y.note == n && y.channels@ == fresh_channels(C as nat, ch, v) && (if full(s) {
                exists|k: int|
                    0 <= k < occupied(s).len() && occupied(t1) == occupied(s).update(k, y)
            } else {
                exists|k: int|
                    0 <= k <= occupied(s).len() && occupied(t1) == occupied(s).insert(k, y)
            }) && exists|c: int|
                candidate(s, n, c) && t1 == room_for(s, n, c).0.update(room_for(s, n, c).1, Some(y));
        let y2 = choose|y: NoteSlot<C>|
            y.note == n && y.channels@ == fresh_channels(C as nat, ch, v) && (if full(s) {
                exists|k: int|
                    0 <= k < occupied(s).len() && occupied(t2) == occupied(s).update(k, y)
            } else {
                exists|k: int|
                    0 <= k <= occupied(s).len() && occupied(t2) == occupied(s).insert(k, y)
            }) && exists|c: int|
                candidate(s, n, c) && t2 == room_for(s, n, c).0.update(room_for(s, n, c).1, Some(y));
        let c1 = choose|c: int|
            candidate(s, n, c) && t1 == room_for(s, n, c).0.update(room_for(s, n, c).1, Some(y1));
        let c2 = choose|c: int|
            candidate(s, n, c) && t2 == room_for(s, n, c).0.update(room_for(s, n, c).1, Some(y2));
        lemma_candidate_unique(s, n, c1, c2);
        assert(y1.channels =~= y2.channels);
        assert(y1 == y2);
    }
}

} // verus!
