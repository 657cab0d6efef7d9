//! The note events a performance is made of, and the immutable sequence the
//! engine plays from.
//!
//! All times are whole milliseconds.  A sequence is only ever built through
//! [`Notes::new`], which checks the invariants the engine relies on: unique
//! note identifiers and time offsets small enough that every derived quantity
//! fits comfortably in machine arithmetic.

use vstd::prelude::*;

verus! {

/// Largest start offset or duration magnitude a note may carry, in
/// milliseconds (about 35 years): keeps every time computation far from
/// overflow.
pub const MAX_NOTE_MS: i64 = 0x100_0000_0000;

/// Lowest pitch shown on the 88-key visual keyboard.
pub const FIRST_KEY: u8 = 21;

/// Highest pitch shown on the 88-key visual keyboard.
pub const LAST_KEY: u8 = 108;

/// Number of keys in the visual snapshot.
pub const KEY_COUNT: usize = 88;

/// A single timed note event.
#[derive(Clone, Copy, PartialEq, Eq, Structural, Debug)]
pub struct MidiNote {
    /// Identifier, unique within a sequence.
    pub id: usize,
    /// Output channel.
    pub ch: u8,
    /// Pitch (conventionally 0..=127; only 21..=108 is shown on the keyboard).
    pub note: u8,
    /// Velocity.
    pub vel: u8,
    /// Start offset from the beginning of the performance, in milliseconds.
    pub start_ms: i64,
    /// Nominal sounding length in milliseconds.  A non-positive value is
    /// tolerated as long as the note does not end before the performance
    /// begins.
    pub duration_ms: i64,
    /// Grouping used by visual consumers.
    pub track_id: usize,
}

/// The bounds a single note must satisfy.
pub open spec fn note_ok(n: MidiNote) -> bool {
    &&& 0 <= n.start_ms <= MAX_NOTE_MS
    &&& -MAX_NOTE_MS <= n.duration_ms <= MAX_NOTE_MS
    &&& 0 <= n.start_ms + n.duration_ms
}

/// Some note in `s` carries `id`.
pub open spec fn has_id(s: Seq<MidiNote>, id: usize) -> bool {
    exists|i: int| 0 <= i < s.len() && (#[trigger] s[i]).id == id
}

/// No two notes in `s` share an identifier.
pub open spec fn unique_ids(s: Seq<MidiNote>) -> bool {
    forall|i: int, j: int|
        0 <= i < j < s.len() ==> (#[trigger] s[i]).id != (#[trigger] s[j]).id
}

/// Every note in `s` satisfies the bounds of `note_ok`.
pub open spec fn all_notes_ok(s: Seq<MidiNote>) -> bool {
    forall|i: int| 0 <= i < s.len() ==> note_ok(#[trigger] s[i])
}

/// The invariant of a well-formed sequence.
pub open spec fn notes_wf(s: Seq<MidiNote>) -> bool {
    unique_ids(s) && all_notes_ok(s)
}

/// `s` with its (unique) note of identifier `id` taken out; `s` unchanged
/// when no note carries `id`.
pub open spec fn remove_id(s: Seq<MidiNote>, id: usize) -> Seq<MidiNote>
    decreases s.len(),
{
    if s.len() == 0 {
        s
    } else if s.last().id == id {
        s.drop_last()
    } else {
        remove_id(s.drop_last(), id).push(s.last())
    }
}

/// Start of the earliest note, or 0 for an empty sequence.
pub open spec fn spec_first_start(s: Seq<MidiNote>) -> int
    decreases s.len(),
{
    if s.len() == 0 {
        0
    } else if s.len() == 1 {
        s[0].start_ms as int
    } else {
        let rest = spec_first_start(s.drop_last());
        if s.last().start_ms < rest {
            s.last().start_ms as int
        } else {
            rest
        }
    }
}

/// Latest `start + duration` over the sequence, or 0 for an empty sequence.
pub open spec fn spec_last_end(s: Seq<MidiNote>) -> int
    decreases s.len(),
{
    if s.len() == 0 {
        0
    } else if s.len() == 1 {
        s[0].start_ms + s[0].duration_ms
    } else {
        let rest = spec_last_end(s.drop_last());
        if s.last().start_ms + s.last().duration_ms > rest {
            s.last().start_ms + s.last().duration_ms
        } else {
            rest
        }
    }
}

/// The pitch lies on the visual keyboard.
pub open spec fn pitch_on_keyboard(p: u8) -> bool {
    FIRST_KEY <= p <= LAST_KEY
}

/// The earliest start is a lower bound on every start.
pub proof fn lemma_first_start_le(s: Seq<MidiNote>, i: int)
    requires
        0 <= i < s.len(),
    ensures
        spec_first_start(s) <= s[i].start_ms,
    decreases s.len(),
{
    if s.len() > 1 && i < s.len() - 1 {
        lemma_first_start_le(s.drop_last(), i);
    }
}

/// Bounds of the derived playback window for a well-formed sequence.
pub proof fn lemma_window_bounds(s: Seq<MidiNote>)
    requires
        all_notes_ok(s),
    ensures
        0 <= spec_first_start(s) <= MAX_NOTE_MS,
        0 <= spec_last_end(s) <= 2 * MAX_NOTE_MS,
    decreases s.len(),
{
    if s.len() > 1 {
        assert(all_notes_ok(s.drop_last())) by {
            assert(forall|i: int|
                0 <= i < s.len() - 1 ==> s.drop_last()[i] == #[trigger] s[i]);
        }
        lemma_window_bounds(s.drop_last());
        assert(note_ok(s.last()));
    } else if s.len() == 1 {
        assert(note_ok(s[0]));
    }
}

/// The ordered, immutable collection of note events the engine plays from.
pub struct Notes {
    notes: Vec<MidiNote>,
}

impl View for Notes {
    type V = Seq<MidiNote>;

    closed spec fn view(&self) -> Seq<MidiNote> {
        self.notes@
    }
}

impl Notes {
    /// The sequence invariant: unique identifiers and bounded times.
    pub open spec fn wf(&self) -> bool {
        notes_wf(self@)
    }

    /// Builds a sequence after checking the invariant; rejects input with a
    /// duplicated identifier or a note outside the time bounds.
    pub fn new(notes: Vec<MidiNote>) -> (r: Option<Notes>)
        ensures
            r is Some <==> notes_wf(notes@),
            r matches Some(ns) ==> ns@ == notes@ && ns.wf(),
    {
        let n = notes.len();
        let mut i: usize = 0;
        while i < n
            invariant
                i <= n,
                n == notes@.len(),
                forall|k: int| 0 <= k < i ==> note_ok(#[trigger] notes@[k]),
            decreases n - i,
        {
            let e = notes[i];
            if !(0 <= e.start_ms && e.start_ms <= MAX_NOTE_MS
                && -MAX_NOTE_MS <= e.duration_ms && e.duration_ms <= MAX_NOTE_MS
                && 0 <= e.start_ms + e.duration_ms) {
                return None;
            }
            i = i + 1;
        }
        let mut i: usize = 0;
        while i < n
            invariant
                i <= n,
                n == notes@.len(),
                all_notes_ok(notes@),
                forall|p: int, q: int|
                    0 <= p < q < notes@.len() && p < i ==> (#[trigger] notes@[p]).id
                        != (#[trigger] notes@[q]).id,
            decreases n - i,
        {
            let mut j: usize = i + 1;
            while j < n
                invariant
                    i < j <= n,
                    n == notes@.len(),
                    forall|q: int| i < q < j ==> (#[trigger] notes@[q]).id != notes@[i as int].id,
                decreases n - j,
            {
                if notes[j].id == notes[i].id {
                    return None;
                }
                j = j + 1;
            }
            i = i + 1;
        }
        Some(Notes { notes })
    }

    /// Number of notes.
    pub fn len(&self) -> (r: usize)
        ensures
            r == self@.len(),
    {
        self.notes.len()
    }

    /// The note at position `i`.
    pub fn get(&self, i: usize) -> (r: MidiNote)
        requires
            i < self@.len(),
        ensures
            r == self@[i as int],
    {
        self.notes[i]
    }

    /// Start of the earliest note in milliseconds, or 0 when empty.
    pub fn first_start_ms(&self) -> (r: i64)
        ensures
            r == spec_first_start(self@),
    {
        let n = self.notes.len();
        if n == 0 {
            return 0;
        }
        let mut acc: i64 = self.notes[0].start_ms;
        let mut i: usize = 1;
        while i < n
            invariant
                1 <= i <= n,
                n == self@.len(),
                self@ == self.notes@,
                acc == spec_first_start(self@.take(i as int)),
            decreases n - i,
        {
            proof {
                assert(self@.take(i + 1 as int).drop_last() =~= self@.take(i as int));
                assert(self@.take(i + 1 as int).last() == self@[i as int]);
            }
            if self.notes[i].start_ms < acc {
                acc = self.notes[i].start_ms;
            }
            i = i + 1;
        }
        proof {
            assert(self@.take(n as int) =~= self@);
        }
        acc
    }

    /// Latest `start + duration` in milliseconds, or 0 when empty.
    pub fn last_end_ms(&self) -> (r: i64)
        requires
            self.wf(),
        ensures
            r == spec_last_end(self@),
    {
        let n = self.notes.len();
        if n == 0 {
            return 0;
        }
        assert(note_ok(self@[0]));
        let mut acc: i64 = self.notes[0].start_ms + self.notes[0].duration_ms;
        let mut i: usize = 1;
        while i < n
            invariant
                1 <= i <= n,
                n == self@.len(),
                self@ == self.notes@,
                all_notes_ok(self@),
                acc == spec_last_end(self@.take(i as int)),
            decreases n - i,
        {
            proof {
                assert(self@.take(i + 1 as int).drop_last() =~= self@.take(i as int));
                assert(self@.take(i + 1 as int).last() == self@[i as int]);
                assert(note_ok(self@[i as int]));
            }
            let e = self.notes[i].start_ms + self.notes[i].duration_ms;
            if e > acc {
                acc = e;
            }
            i = i + 1;
        }
        proof {
            assert(self@.take(n as int) =~= self@);
        }
        acc
    }

    /// Whether some note's pitch falls outside the visual keyboard.  Such a
    /// note still sounds and is still tracked; only the snapshot omits it, so
    /// a host should surface this once as a warning.
    pub fn has_out_of_range_pitch(&self) -> (r: bool)
        ensures
            r == exists|i: int|
                0 <= i < self@.len() && !pitch_on_keyboard((#[trigger] self@[i]).note),
    {
        let n = self.notes.len();
        let mut i: usize = 0;
        while i < n
            invariant
                i <= n,
                n == self@.len(),
                self@ == self.notes@,
                forall|k: int| 0 <= k < i ==> pitch_on_keyboard((#[trigger] self@[k]).note),
            decreases n - i,
        {
            let p = self.notes[i].note;
            if !(FIRST_KEY <= p && p <= LAST_KEY) {
                return true;
            }
            i = i + 1;
        }
        false
    }
}

} // verus!
