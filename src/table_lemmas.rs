//! Facts about note tables as sequences of columns, used by the table's proofs.

use vstd::prelude::*;

use crate::notes::{
    MAX_NOTE, MIN_NOTE, NoteSlot, all_zero, fits_at, full, has_note, higher_right_of, ideal_index, lower_left_of, nearest_gap_above, nearest_gap_below, occupied, table_wf,
};

verus! {

/// The occupied entries of two rows side by side are those of each, in turn.
pub proof fn lemma_occupied_add<const C: usize>(a: Seq<Option<NoteSlot<C>>>, b: Seq<Option<NoteSlot<C>>>)
    ensures
        occupied(a + b) == occupied(a) + occupied(b),
    decreases b.len(),
{
    if b.len() == 0 {
        assert(a + b =~= a);
        assert(occupied(b) =~= Seq::<NoteSlot<C>>::empty());
        assert(occupied(a) + occupied(b) =~= occupied(a));
    } else {
        let b0 = b.drop_last();
        assert((a + b).drop_last() =~= a + b0);
        assert((a + b).last() == b.last());
        lemma_occupied_add(a, b0);
        match b.last() {
            Some(x) => {
                assert(occupied(a) + occupied(b0).push(x) =~= (occupied(a) + occupied(b0)).push(x));
            },
            None => {},
        }
    }
}

/// A row has at most one occupied entry per column, and as many only when full.
pub proof fn lemma_occupied_len<const C: usize>(s: Seq<Option<NoteSlot<C>>>)
    ensures
        occupied(s).len() <= s.len(),
        occupied(s).len() == s.len() <==> full(s),
    decreases s.len(),
{
    if s.len() > 0 {
        lemma_occupied_len(s.drop_last());
        if full(s) {
            assert(full(s.drop_last()));
        }
        if full(s.drop_last()) && s.last() is Some {
            assert forall|i: int| 0 <= i < s.len() implies s[i] is Some by {
                if i < s.len() - 1 {
                    assert(s.drop_last()[i] == s[i]);
                }
            }
        }
    }
}

/// An all-empty row has no occupied entries.
pub proof fn lemma_occupied_none<const C: usize>(s: Seq<Option<NoteSlot<C>>>)
    requires
        forall|i: int| 0 <= i < s.len() ==> s[i] is None,
    ensures
        occupied(s).len() == 0,
    decreases s.len(),
{
    if s.len() > 0 {
        lemma_occupied_none(s.drop_last());
    }
}

/// Each occupied entry sits in some column, and each occupied column appears
/// among the occupied entries, in order.
pub proof fn lemma_occupied_index<const C: usize>(s: Seq<Option<NoteSlot<C>>>)
    ensures
        forall|k: int|
            0 <= k < occupied(s).len() ==> exists|i: int|
                0 <= i < s.len() && s[i] == Some(#[trigger] occupied(s)[k]),
        forall|i: int|
            0 <= i < s.len() && (#[trigger] s[i]) is Some ==> exists|k: int|
                0 <= k < occupied(s).len() && occupied(s)[k] == s[i].unwrap(),
    decreases s.len(),
{
    if s.len() > 0 {
        let d = s.drop_last();
        lemma_occupied_index(d);
        let o = occupied(s);
        let od = occupied(d);
        assert forall|k: int| 0 <= k < o.len() implies exists|i: int|
            0 <= i < s.len() && s[i] == Some(#[trigger] o[k]) by {
            if k < od.len() {
                assert(o[k] == od[k]);
                let i = choose|i: int| 0 <= i < d.len() && d[i] == Some(od[k]);
                assert(s[i] == d[i]);
            } else {
                assert(s[s.len() - 1] == Some(o[k]));
            }
        }
        assert forall|i: int| 0 <= i < s.len() && (#[trigger] s[i]) is Some implies exists|k: int|
            0 <= k < o.len() && o[k] == s[i].unwrap() by {
            if i < d.len() {
                assert(d[i] == s[i]);
                let k = choose|k: int| 0 <= k < od.len() && od[k] == d[i].unwrap();
                assert(o[k] == od[k]);
            } else {
                assert(o[od.len() as int] == s[i].unwrap());
            }
        }
    }
}

/// The occupied entries of a single column.
pub proof fn lemma_occupied_single<const C: usize>(x: Option<NoteSlot<C>>)
    ensures
        occupied(seq![x]) == (match x {
            Some(y) => seq![y],
            None => Seq::empty(),
        }),
{
    assert(seq![x].drop_last() =~= Seq::<Option<NoteSlot<C>>>::empty());
    assert(seq![x].last() == x);
    assert(occupied(Seq::<Option<NoteSlot<C>>>::empty()) =~= Seq::<NoteSlot<C>>::empty());
    match x {
        Some(y) => {
            assert(Seq::<NoteSlot<C>>::empty().push(y) =~= seq![y]);
        },
        None => {},
    }
}

/// What writing one column does to the occupied entries.
pub proof fn lemma_occupied_write<const C: usize>(s: Seq<Option<NoteSlot<C>>>, r: int, x: Option<NoteSlot<C>>)
    requires
        0 <= r < s.len(),
    ensures
        occupied(s.update(r, x)) == occupied(s.subrange(0, r)) + occupied(seq![x]) + occupied(
            s.subrange(r + 1, s.len() as int),
        ),
        occupied(s) == occupied(s.subrange(0, r)) + occupied(seq![s[r]]) + occupied(
            s.subrange(r + 1, s.len() as int),
        ),
{
    let a = s.subrange(0, r);
    let b = s.subrange(r + 1, s.len() as int);
    assert(s.update(r, x) =~= a + seq![x] + b);
    assert(s =~= a + seq![s[r]] + b);
    lemma_occupied_add(a + seq![x], b);
    lemma_occupied_add(a, seq![x]);
    lemma_occupied_add(a + seq![s[r]], b);
    lemma_occupied_add(a, seq![s[r]]);
}

/// Moving an empty column from `g` up to `u` keeps the table's entries and
/// their order.
pub proof fn lemma_gap_up<const C: usize>(s: Seq<Option<NoteSlot<C>>>, g: int, u: int)
    requires
        table_wf(s),
        0 <= g <= u < s.len(),
        s[g] is None,
    ensures
        ({
            let t = s.subrange(0, g) + s.subrange(g + 1, u + 1) + seq![None] + s.subrange(
                u + 1,
                s.len() as int,
            );
            &&& t.len() == s.len()
            &&& table_wf(t)
            &&& occupied(t) == occupied(s)
            &&& t[u] is None
            &&& forall|j: int| 0 <= j < s.len() && (j < g || j > u) ==> t[j] == s[j]
            &&& forall|j: int| g <= j < u ==> t[j] == s[j + 1]
        }),
{
    let a = s.subrange(0, g);
    let m = s.subrange(g + 1, u + 1);
    let z = s.subrange(u + 1, s.len() as int);
    let t = a + m + seq![None] + z;
    assert(s =~= a + seq![s[g]] + m + z);
    lemma_occupied_add(a + seq![s[g]] + m, z);
    lemma_occupied_add(a + seq![s[g]], m);
    lemma_occupied_add(a, seq![s[g]]);
    lemma_occupied_add(a + m + seq![None], z);
    lemma_occupied_add(a + m, seq![None]);
    lemma_occupied_add(a, m);
    lemma_occupied_single(s[g]);
    lemma_occupied_single(None::<NoteSlot<C>>);
    assert(forall|j: int| 0 <= j < s.len() && (j < g || j > u) ==> t[j] == s[j]);
    assert(forall|j: int| g <= j < u ==> t[j] == s[j + 1]);
    assert forall|i: int, j: int| 0 <= i < j < t.len() && t[i] is Some && t[j] is Some implies t[i].unwrap().note
        < t[j].unwrap().note by {
        let i0 = if g <= i < u { i + 1 } else { i };
        let j0 = if g <= j < u { j + 1 } else { j };
        assert(t[i] == s[i0] && t[j] == s[j0]);
    }
    assert forall|i: int| 0 <= i < t.len() && #[trigger] t[i] is Some implies !all_zero(t[i].unwrap().channels@)
        && MIN_NOTE <= t[i].unwrap().note <= MAX_NOTE by {
        let i0 = if g <= i < u { i + 1 } else { i };
        assert(t[i] == s[i0]);
    }
}

/// Moving an empty column from `g` down to `l` keeps the table's entries and
/// their order.
pub proof fn lemma_gap_down<const C: usize>(s: Seq<Option<NoteSlot<C>>>, l: int, g: int)
    requires
        table_wf(s),
        0 <= l <= g < s.len(),
        s[g] is None,
    ensures
        ({
            let t = s.subrange(0, l) + seq![None] + s.subrange(l, g) + s.subrange(
                g + 1,
                s.len() as int,
            );
            &&& t.len() == s.len()
            &&& table_wf(t)
            &&& occupied(t) == occupied(s)
            &&& t[l] is None
            &&& forall|j: int| 0 <= j < s.len() && (j < l || j > g) ==> t[j] == s[j]
            &&& forall|j: int| l < j <= g ==> t[j] == s[j - 1]
        }),
{
    let a = s.subrange(0, l);
    let m = s.subrange(l, g);
    let z = s.subrange(g + 1, s.len() as int);
    let t = a + seq![None] + m + z;
    assert(s =~= a + m + seq![s[g]] + z);
    lemma_occupied_add(a + m + seq![s[g]], z);
    lemma_occupied_add(a + m, seq![s[g]]);
    lemma_occupied_add(a, m);
    lemma_occupied_add(a + seq![None] + m, z);
    lemma_occupied_add(a + seq![None], m);
    lemma_occupied_add(a, seq![None]);
    lemma_occupied_single(s[g]);
    lemma_occupied_single(None::<NoteSlot<C>>);
    assert(forall|j: int| 0 <= j < s.len() && (j < l || j > g) ==> t[j] == s[j]);
    assert(forall|j: int| l < j <= g ==> t[j] == s[j - 1]);
    assert forall|i: int, j: int| 0 <= i < j < t.len() && t[i] is Some && t[j] is Some implies t[i].unwrap().note
        < t[j].unwrap().note by {
        let i0 = if l < i <= g { i - 1 } else { i };
        let j0 = if l < j <= g { j - 1 } else { j };
        assert(t[i] == s[i0] && t[j] == s[j0]);
    }
    assert forall|i: int| 0 <= i < t.len() && #[trigger] t[i] is Some implies !all_zero(t[i].unwrap().channels@)
        && MIN_NOTE <= t[i].unwrap().note <= MAX_NOTE by {
        let i0 = if l < i <= g { i - 1 } else { i };
        assert(t[i] == s[i0]);
    }
}

/// After moving an empty column up to `u`, column `u` fits pitch `n` when
/// everything up to `u` was below `n` and everything after it above.
pub proof fn lemma_gap_up_fits<const C: usize>(s: Seq<Option<NoteSlot<C>>>, n: u8, g: int, u: int)
    requires
        table_wf(s),
        0 <= g <= u < s.len(),
        s[g] is None,
        lower_left_of(s, n, u + 1),
        higher_right_of(s, n, u),
    ensures
        ({
            let t = s.subrange(0, g) + s.subrange(g + 1, u + 1) + seq![None] + s.subrange(
                u + 1,
                s.len() as int,
            );
            &&& table_wf(t)
            &&& occupied(t) == occupied(s)
            &&& t[u] is None
            &&& fits_at(t, n, u)
        }),
{
    lemma_gap_up(s, g, u);
    let t = s.subrange(0, g) + s.subrange(g + 1, u + 1) + seq![None] + s.subrange(
        u + 1,
        s.len() as int,
    );
    assert forall|j: int| 0 <= j < u && j < t.len() && t[j] is Some implies t[j].unwrap().note < n by {
        if j >= g {
            assert(t[j] == s[j + 1]);
        } else {
            assert(t[j] == s[j]);
        }
    }
    assert forall|j: int| u < j < t.len() && t[j] is Some implies t[j].unwrap().note > n by {
        assert(t[j] == s[j]);
    }
}

/// After moving an empty column down to `l`, column `l` fits pitch `n` when
/// everything before `l` was below `n` and everything from `l` on above.
pub proof fn lemma_gap_down_fits<const C: usize>(s: Seq<Option<NoteSlot<C>>>, n: u8, l: int, g: int)
    requires
        table_wf(s),
        0 <= l <= g < s.len(),
        s[g] is None,
        lower_left_of(s, n, l),
        higher_right_of(s, n, l - 1),
    ensures
        ({
            let t = s.subrange(0, l) + seq![None] + s.subrange(l, g) + s.subrange(
                g + 1,
                s.len() as int,
            );
            &&& table_wf(t)
            &&& occupied(t) == occupied(s)
            &&& t[l] is None
            &&& fits_at(t, n, l)
        }),
{
    lemma_gap_down(s, l, g);
    let t = s.subrange(0, l) + seq![None] + s.subrange(l, g) + s.subrange(
        g + 1,
        s.len() as int,
    );
    assert forall|j: int| 0 <= j < l && j < t.len() && t[j] is Some implies t[j].unwrap().note < n by {
        assert(t[j] == s[j]);
    }
    assert forall|j: int| l < j < t.len() && t[j] is Some implies t[j].unwrap().note > n by {
        if j <= g {
            assert(t[j] == s[j - 1]);
        } else {
            assert(t[j] == s[j]);
        }
    }
}

/// The ideal column of a tracked pitch lies within the row.
pub proof fn lemma_ideal_in_range(cols: nat, n: u8)
    requires
        cols > 0,
        MIN_NOTE <= n <= MAX_NOTE,
    ensures
        0 <= ideal_index(cols, n) < cols,
{
    let d = (n - MIN_NOTE) as nat;
    assert(cols * d <= cols * 87) by (nonlinear_arith)
        requires
            d <= 87,
    ;
    assert(cols * d / 88 < cols) by (nonlinear_arith)
        requires
            cols * d <= cols * 87,
            cols > 0,
    ;
}

/// A pitch holds a column exactly when it is among the occupied entries.
pub proof fn lemma_has_note_occupied<const C: usize>(s: Seq<Option<NoteSlot<C>>>, n: u8)
    ensures
        has_note(s, n) <==> exists|k: int| 0 <= k < occupied(s).len() && #[trigger] occupied(s)[k].note == n,
{
    lemma_occupied_index(s);
    if has_note(s, n) {
        let i = choose|i: int| 0 <= i < s.len() && s[i] is Some && s[i].unwrap().note == n;
        let k = choose|k: int| 0 <= k < occupied(s).len() && occupied(s)[k] == s[i].unwrap();
        assert(occupied(s)[k].note == n);
    }
    if exists|k: int| 0 <= k < occupied(s).len() && #[trigger] occupied(s)[k].note == n {
        let k = choose|k: int| 0 <= k < occupied(s).len() && #[trigger] occupied(s)[k].note == n;
        let i = choose|i: int| 0 <= i < s.len() && s[i] == Some(occupied(s)[k]);
        assert(s[i] is Some && s[i].unwrap().note == n);
    }
}

/// The nearest empty column at or below `u` is unique.
pub proof fn lemma_nearest_gap_below_unique<const C: usize>(s: Seq<Option<NoteSlot<C>>>, u: int, g: int)
    requires
        nearest_gap_below(s, u, g),
    ensures
        (choose|h: int| nearest_gap_below(s, u, h)) == g,
{
    let h = choose|h: int| nearest_gap_below(s, u, h);
    assert(nearest_gap_below(s, u, h));
    if h < g {
        assert(s[g] is Some);
    } else if h > g {
        assert(s[h] is Some);
    }
}

/// The nearest empty column at or above `l` is unique.
pub proof fn lemma_nearest_gap_above_unique<const C: usize>(s: Seq<Option<NoteSlot<C>>>, l: int, g: int)
    requires
        nearest_gap_above(s, l, g),
    ensures
        (choose|h: int| nearest_gap_above(s, l, h)) == g,
{
    let h = choose|h: int| nearest_gap_above(s, l, h);
    assert(nearest_gap_above(s, l, h));
    if h < g {
        assert(s[h] is Some);
    } else if h > g {
        assert(s[g] is Some);
    }
}

} // verus!
