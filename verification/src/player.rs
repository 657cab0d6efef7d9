//! The playback/transport engine.
//!
//! On each tick the engine advances the clock, derives the playback position,
//! walks the sequence, starts and stops notes through the sink, and returns a
//! per-key snapshot for visual consumers.  The effect of one tick is defined
//! mathematically by [`run_tick`], a fold of [`tick_note`] over the sequence,
//! and every operation's contract is stated against that model.

use vstd::prelude::*;
use crate::clock::{TransportClock, MAX_ELAPSED_MS};
use crate::note::{
    MidiNote, Notes, has_id, unique_ids, note_ok, notes_wf, remove_id, spec_first_start,
    spec_last_end, pitch_on_keyboard, lemma_first_start_le, lemma_window_bounds, FIRST_KEY,
    LAST_KEY, KEY_COUNT,
};
use crate::sink::{OutputSink, SinkCall};

verus! {

/// Pre-roll before the first note, in milliseconds: playback position starts
/// this far ahead of the earliest note.
pub const LEAD_IN_MS: i64 = 3000;

/// Post-roll past a note's nominal end, in milliseconds: a note stays
/// selected this long after it ends so its stop signal is emitted.
pub const TAIL_MS: i64 = 500;

/// Playback position for a given clock reading and first-note start.
pub open spec fn spec_time(elapsed: int, first: int) -> int {
    elapsed + first - LEAD_IN_MS
}

/// The note is inside its processing window at time `t`: started, and not
/// yet past its tail.
pub open spec fn note_selected(n: MidiNote, t: int) -> bool {
    n.start_ms <= t && n.start_ms + n.duration_ms + TAIL_MS > t
}

/// The note is still within its nominal duration at time `t`.
pub open spec fn note_in_core(n: MidiNote, t: int) -> bool {
    n.start_ms + n.duration_ms >= t
}

/// The all-silent snapshot: every key unsounding with a default track.
pub open spec fn silent_snapshot() -> Seq<(bool, usize)> {
    Seq::new(KEY_COUNT as nat, |i: int| (false, 0usize))
}

/// The start signal a note gives rise to.
pub open spec fn note_on_call(n: MidiNote) -> SinkCall {
    SinkCall::NoteOn { id: n.id, ch: n.ch, note: n.note, vel: n.vel }
}

/// The stop signal a note gives rise to.
pub open spec fn note_off_call(n: MidiNote) -> SinkCall {
    SinkCall::NoteOff { id: n.id, ch: n.ch, note: n.note }
}

/// One stop signal for each note, in order.
pub open spec fn note_offs(s: Seq<MidiNote>) -> Seq<SinkCall> {
    s.map_values(|n: MidiNote| note_off_call(n))
}

/// What one tick accumulates while walking the sequence: the active set, the
/// signals emitted so far, and the snapshot built so far.
pub ghost struct TickState {
    /// Notes currently considered sounding, in the order they were started.
    pub active: Seq<MidiNote>,
    /// Signals emitted by this tick so far, in order.
    pub calls: Seq<SinkCall>,
    /// Per-key snapshot built so far.
    pub snap: Seq<(bool, usize)>,
}

/// The effect of encountering one note at playback time `t`.
///
/// A selected note inside its nominal duration marks its key sounding and is
/// started unless already active; a selected note past its duration (tail
/// window only) is stopped if it is still active and left untouched
/// otherwise.
pub open spec fn tick_note(s: TickState, n: MidiNote, t: int) -> TickState {
    if !note_selected(n, t) {
        s
    } else if note_in_core(n, t) {
        let s1 = if pitch_on_keyboard(n.note) {
            TickState {
                active: s.active,
                calls: s.calls,
                snap: s.snap.update(n.note - FIRST_KEY, (true, n.track_id)),
            }
        } else {
            s
        };
        if has_id(s1.active, n.id) {
            s1
        } else {
            TickState {
                active: s1.active.push(n),
                calls: s1.calls.push(note_on_call(n)),
                snap: s1.snap,
            }
        }
    } else {
        if has_id(s.active, n.id) {
            TickState {
                active: remove_id(s.active, n.id),
                calls: s.calls.push(note_off_call(n)),
                snap: s.snap,
            }
        } else {
            s
        }
    }
}

/// The effect of one whole tick at playback time `t`, starting from the
/// active set `active0`: the sequence is walked in order from an all-silent
/// snapshot and an empty signal list.
pub open spec fn run_tick(notes: Seq<MidiNote>, t: int, active0: Seq<MidiNote>) -> TickState
    decreases notes.len(),
{
    if notes.len() == 0 {
        TickState { active: active0, calls: Seq::empty(), snap: silent_snapshot() }
    } else {
        tick_note(run_tick(notes.drop_last(), t, active0), notes.last(), t)
    }
}

/// How one signal moves the start/stop balance of note `id`.
pub open spec fn call_delta(c: SinkCall, id: usize) -> int {
    if c.call_id() == id {
        if c.is_on() {
            1
        } else {
            -1
        }
    } else {
        0
    }
}

/// Starts minus stops emitted for note `id` over a signal sequence.
pub open spec fn net_calls(calls: Seq<SinkCall>, id: usize) -> int
    decreases calls.len(),
{
    if calls.len() == 0 {
        0
    } else {
        net_calls(calls.drop_last(), id) + call_delta(calls.last(), id)
    }
}

/// The pairing invariant between an emission history and the active set: a
/// note's starts lead its stops by one exactly while it is active, and at no
/// point in the history has any note been started or stopped twice in a row.
pub open spec fn well_paired(calls: Seq<SinkCall>, active: Seq<MidiNote>) -> bool {
    &&& forall|id: usize|
        #[trigger] net_calls(calls, id) == if has_id(active, id) {
            1int
        } else {
            0int
        }
    &&& forall|id: usize, k: int|
        0 <= k <= calls.len() ==> 0 <= #[trigger] net_calls(calls.take(k), id) <= 1
}

/// Appending one signal adds its delta to the balance.
pub proof fn lemma_net_push(s: Seq<SinkCall>, c: SinkCall, id: usize)
    ensures
        net_calls(s.push(c), id) == net_calls(s, id) + call_delta(c, id),
{
    assert(s.push(c).drop_last() =~= s);
}

/// Short prefixes are unchanged by a push.
pub proof fn lemma_take_push(s: Seq<SinkCall>, c: SinkCall, k: int)
    requires
        0 <= k <= s.len(),
    ensures
        s.push(c).take(k) == s.take(k),
{
    assert(s.push(c).take(k) =~= s.take(k));
}

/// The balance over a prefix grows by the delta of the next signal.
pub proof fn lemma_net_take_step(s: Seq<SinkCall>, id: usize, k: int)
    requires
        0 <= k < s.len(),
    ensures
        net_calls(s.take(k + 1), id) == net_calls(s.take(k), id) + call_delta(s[k], id),
{
    assert(s.take(k + 1) =~= s.take(k).push(s[k]));
    lemma_net_push(s.take(k), s[k], id);
}

/// Membership under a push.
pub proof fn lemma_has_id_push(s: Seq<MidiNote>, n: MidiNote, id: usize)
    ensures
        has_id(s.push(n), id) == (has_id(s, id) || n.id == id),
{
    if has_id(s, id) {
        let i = choose|i: int| 0 <= i < s.len() && s[i].id == id;
        assert(s.push(n)[i].id == id);
    }
    if n.id == id {
        assert(s.push(n)[s.len() as int].id == id);
    }
    if has_id(s.push(n), id) {
        let i = choose|i: int| 0 <= i < s.push(n).len() && s.push(n)[i].id == id;
        if i < s.len() {
            assert(s[i].id == id);
        }
    }
}

/// What taking the note of identifier `id` out of a duplicate-free sequence
/// leaves: one note fewer, the same notes otherwise, still duplicate-free.
pub proof fn lemma_remove_id_props(s: Seq<MidiNote>, id: usize)
    requires
        unique_ids(s),
        has_id(s, id),
    ensures
        unique_ids(remove_id(s, id)),
        remove_id(s, id).len() == s.len() - 1,
        !has_id(remove_id(s, id), id),
        forall|id2: usize|
            id2 != id ==> #[trigger] has_id(remove_id(s, id), id2) == has_id(s, id2),
        forall|i: int|
            0 <= i < remove_id(s, id).len() ==> s.contains(#[trigger] remove_id(s, id)[i]),
    decreases s.len(),
{
    let r = remove_id(s, id);
    let last = s.last();
    let rest = s.drop_last();
    assert(unique_ids(rest)) by {
        assert(forall|i: int| 0 <= i < rest.len() ==> rest[i] == #[trigger] s[i]);
    }
    if last.id == id {
        assert(r == rest);
        assert(!has_id(rest, id)) by {
            if has_id(rest, id) {
                let i = choose|i: int| 0 <= i < rest.len() && rest[i].id == id;
                assert(s[i].id == s[s.len() - 1].id);
            }
        }
        assert forall|id2: usize| id2 != id implies #[trigger] has_id(r, id2) == has_id(
            s,
            id2,
        ) by {
            if has_id(r, id2) {
                let i = choose|i: int| 0 <= i < r.len() && r[i].id == id2;
                assert(s[i].id == id2);
            }
            if has_id(s, id2) {
                let i = choose|i: int| 0 <= i < s.len() && s[i].id == id2;
                assert(i < s.len() - 1);
                assert(rest[i].id == id2);
            }
        }
        assert(forall|i: int| 0 <= i < r.len() ==> s.contains(#[trigger] r[i])) by {
            assert(forall|i: int| 0 <= i < r.len() ==> #[trigger] r[i] == s[i]);
        }
    } else {
        assert(has_id(rest, id)) by {
            let i = choose|i: int| 0 <= i < s.len() && s[i].id == id;
            assert(i < s.len() - 1);
            assert(rest[i].id == id);
        }
        lemma_remove_id_props(rest, id);
        let rr = remove_id(rest, id);
        assert(r == rr.push(last));
        assert(unique_ids(r)) by {
            assert forall|i: int, j: int| 0 <= i < j < r.len() implies (#[trigger] r[i]).id != (
            #[trigger] r[j]).id by {
                if j < rr.len() {
                    assert(r[i] == rr[i] && r[j] == rr[j]);
                } else {
                    assert(r[j] == last);
                    assert(r[i] == rr[i]);
                    assert(rest.contains(rr[i]));
                    let k = choose|k: int| 0 <= k < rest.len() && rest[k] == rr[i];
                    assert(s[k] == rr[i]);
                    assert(s[k].id != s[s.len() - 1].id);
                }
            }
        }
        assert(!has_id(r, id)) by {
            if has_id(r, id) {
                let i = choose|i: int| 0 <= i < r.len() && r[i].id == id;
                if i < rr.len() {
                    assert(rr[i].id == id);
                } else {
                    assert(r[i] == last);
                }
            }
        }
        assert forall|id2: usize| id2 != id implies #[trigger] has_id(r, id2) == has_id(
            s,
            id2,
        ) by {
            lemma_has_id_push(rr, last, id2);
            if has_id(rest, id2) {
                let i = choose|i: int| 0 <= i < rest.len() && rest[i].id == id2;
                assert(s[i].id == id2);
            }
            if has_id(s, id2) && last.id != id2 {
                let i = choose|i: int| 0 <= i < s.len() && s[i].id == id2;
                assert(i < s.len() - 1);
                assert(rest[i].id == id2);
            }
        }
        assert forall|i: int| 0 <= i < r.len() implies s.contains(#[trigger] r[i]) by {
            if i < rr.len() {
                assert(rest.contains(rr[i]));
                let k = choose|k: int| 0 <= k < rest.len() && rest[k] == rr[i];
                assert(s[k] == r[i]);
            } else {
                assert(r[i] == last);
                assert(s[s.len() - 1] == last);
            }
        }
    }
}

/// Where the note of identifier `id` sits, taking it out in one step.
pub proof fn lemma_remove_id_at(s: Seq<MidiNote>, id: usize, i: int)
    requires
        unique_ids(s),
        0 <= i < s.len(),
        s[i].id == id,
    ensures
        remove_id(s, id) == s.remove(i),
    decreases s.len(),
{
    let last = s.last();
    let rest = s.drop_last();
    assert(unique_ids(rest)) by {
        assert(forall|k: int| 0 <= k < rest.len() ==> rest[k] == #[trigger] s[k]);
    }
    if i == s.len() - 1 {
        assert(remove_id(s, id) == rest);
        assert(rest =~= s.remove(i));
    } else {
        assert(last.id != id);
        lemma_remove_id_at(rest, id, i);
        assert(remove_id(s, id) == rest.remove(i).push(last));
        assert(rest.remove(i).push(last) =~= s.remove(i));
    }
}

/// Starting a note that is not active keeps the history well paired.
pub proof fn lemma_well_paired_on(calls: Seq<SinkCall>, active: Seq<MidiNote>, n: MidiNote)
    requires
        well_paired(calls, active),
        !has_id(active, n.id),
    ensures
        well_paired(calls.push(note_on_call(n)), active.push(n)),
{
    let c = note_on_call(n);
    let calls2 = calls.push(c);
    let active2 = active.push(n);
    assert forall|id: usize| #[trigger] net_calls(calls2, id) == (if has_id(active2, id) {
        1int
    } else {
        0int
    }) by {
        lemma_net_push(calls, c, id);
        lemma_has_id_push(active, n, id);
    }
    assert forall|id: usize, k: int| 0 <= k <= calls2.len() implies 0 <= #[trigger] net_calls(
        calls2.take(k),
        id,
    ) <= 1 by {
        if k <= calls.len() {
            lemma_take_push(calls, c, k);
        } else {
            assert(calls2.take(k) =~= calls2);
            lemma_net_push(calls, c, id);
            lemma_has_id_push(active, n, id);
        }
    }
}

/// Stopping an active note keeps the history well paired.
pub proof fn lemma_well_paired_off(calls: Seq<SinkCall>, active: Seq<MidiNote>, n: MidiNote)
    requires
        well_paired(calls, active),
        unique_ids(active),
        has_id(active, n.id),
    ensures
        well_paired(calls.push(note_off_call(n)), remove_id(active, n.id)),
{
    let c = note_off_call(n);
    let calls2 = calls.push(c);
    let active2 = remove_id(active, n.id);
    lemma_remove_id_props(active, n.id);
    assert forall|id: usize| #[trigger] net_calls(calls2, id) == (if has_id(active2, id) {
        1int
    } else {
        0int
    }) by {
        lemma_net_push(calls, c, id);
    }
    assert forall|id: usize, k: int| 0 <= k <= calls2.len() implies 0 <= #[trigger] net_calls(
        calls2.take(k),
        id,
    ) <= 1 by {
        if k <= calls.len() {
            lemma_take_push(calls, c, k);
        } else {
            assert(calls2.take(k) =~= calls2);
            lemma_net_push(calls, c, id);
        }
    }
}

/// One tick keeps the active set duplicate-free and drawn from the sequence,
/// keeps the whole emission history well paired, and yields a snapshot of
/// the fixed width.
pub proof fn lemma_run_tick_props(
    notes: Seq<MidiNote>,
    t: int,
    active0: Seq<MidiNote>,
    calls0: Seq<SinkCall>,
)
    requires
        unique_ids(active0),
        well_paired(calls0, active0),
    ensures
        ({
            let r = run_tick(notes, t, active0);
            &&& unique_ids(r.active)
            &&& well_paired(calls0 + r.calls, r.active)
            &&& r.snap.len() == KEY_COUNT
            &&& forall|i: int|
                0 <= i < r.active.len() ==> active0.contains(#[trigger] r.active[i])
                    || notes.contains(r.active[i])
        }),
    decreases notes.len(),
{
    if notes.len() == 0 {
        let r = run_tick(notes, t, active0);
        assert(calls0 + r.calls =~= calls0);
    } else {
        let rest = notes.drop_last();
        let n = notes.last();
        lemma_run_tick_props(rest, t, active0, calls0);
        let rp = run_tick(rest, t, active0);
        let r = run_tick(notes, t, active0);
        assert(forall|i: int|
            0 <= i < rp.active.len() ==> active0.contains(#[trigger] rp.active[i])
                || rest.contains(rp.active[i]));
        assert forall|e: MidiNote| rest.contains(e) implies notes.contains(e) by {
            let k = choose|k: int| 0 <= k < rest.len() && rest[k] == e;
            assert(notes[k] == e);
        }
        assert(notes.contains(n)) by {
            assert(notes[notes.len() - 1] == n);
        }
        if !note_selected(n, t) {
            assert(r == rp);
        } else if note_in_core(n, t) {
            if has_id(rp.active, n.id) {
                assert(r.active == rp.active && r.calls == rp.calls);
            } else {
                lemma_well_paired_on(calls0 + rp.calls, rp.active, n);
                assert(calls0 + rp.calls.push(note_on_call(n)) =~= (calls0 + rp.calls).push(
                    note_on_call(n),
                ));
                assert(unique_ids(r.active)) by {
                    assert forall|i: int, j: int| 0 <= i < j < r.active.len() implies (
                    #[trigger] r.active[i]).id != (#[trigger] r.active[j]).id by {
                        if j == r.active.len() - 1 {
                            assert(r.active[j] == n);
                            assert(rp.active[i].id != n.id);
                        }
                    }
                }
            }
        } else {
            if has_id(rp.active, n.id) {
                lemma_well_paired_off(calls0 + rp.calls, rp.active, n);
                lemma_remove_id_props(rp.active, n.id);
                assert(calls0 + rp.calls.push(note_off_call(n)) =~= (calls0 + rp.calls).push(
                    note_off_call(n),
                ));
                assert forall|i: int|
                    0 <= i < r.active.len() implies active0.contains(#[trigger] r.active[i])
                    || notes.contains(r.active[i]) by {
                    assert(rp.active.contains(r.active[i]));
                    let k = choose|k: int| 0 <= k < rp.active.len() && rp.active[k] == r.active[i];
                }
            } else {
                assert(r == rp);
            }
        }
    }
}

/// No tick at this time touches the active set or emits a signal.
pub proof fn lemma_run_tick_quiet(notes: Seq<MidiNote>, t: int, active0: Seq<MidiNote>)
    requires
        forall|i: int| 0 <= i < notes.len() ==> !note_selected(#[trigger] notes[i], t),
    ensures
        run_tick(notes, t, active0).active == active0,
        run_tick(notes, t, active0).calls == Seq::<SinkCall>::empty(),
    decreases notes.len(),
{
    if notes.len() > 0 {
        assert(forall|i: int|
            0 <= i < notes.len() - 1 ==> notes.drop_last()[i] == #[trigger] notes[i]);
        lemma_run_tick_quiet(notes.drop_last(), t, active0);
        assert(!note_selected(notes[notes.len() - 1], t));
    }
}

/// Stopping every active note in order balances the whole history.
pub proof fn lemma_clear_well_paired(calls: Seq<SinkCall>, active: Seq<MidiNote>)
    requires
        well_paired(calls, active),
        unique_ids(active),
    ensures
        well_paired(calls + note_offs(active), Seq::<MidiNote>::empty()),
    decreases active.len(),
{
    if active.len() == 0 {
        assert(calls + note_offs(active) =~= calls);
        assert(active =~= Seq::<MidiNote>::empty());
    } else {
        let a0 = active[0];
        assert(has_id(active, a0.id)) by {
            assert(active[0].id == a0.id);
        }
        lemma_well_paired_off(calls, active, a0);
        lemma_remove_id_at(active, a0.id, 0);
        let rest = active.remove(0);
        assert(unique_ids(rest)) by {
            assert(forall|k: int| 0 <= k < rest.len() ==> rest[k] == #[trigger] active[k + 1]);
        }
        lemma_clear_well_paired(calls.push(note_off_call(a0)), rest);
        assert(calls.push(note_off_call(a0)) + note_offs(rest) =~= calls + note_offs(active)) by {
            assert(forall|k: int| 0 <= k < rest.len() ==> rest[k] == #[trigger] active[k + 1]);
        }
    }
}

/// The engine's two-state machine: constructed but silent, or live.
#[derive(Clone, Copy, PartialEq, Eq, Structural, Debug)]
pub enum PlayerState {
    /// Constructed, not yet started: all-silent snapshots, no signals.
    Inactive,
    /// Started: the clock may run or be paused, snapshots are live.
    Active,
}

/// The abstract state of the engine, over which all contracts are stated.
pub ghost struct PlayerView {
    /// Which of the two machine states the engine is in.
    pub state: PlayerState,
    /// The sequence being played.
    pub notes: Seq<MidiNote>,
    /// Notes currently considered sounding, in start order.
    pub active: Seq<MidiNote>,
    /// Whether the clock is advancing.
    pub running: bool,
    /// Clock reading in milliseconds.
    pub elapsed_ms: int,
    /// Start of the earliest note, in milliseconds.
    pub first_ms: int,
    /// Latest note end, in milliseconds.
    pub last_end_ms: int,
    /// Playback position as of the last live tick, in milliseconds.
    pub time_ms: int,
    /// Playback progress as of the last live tick, in thousandths.
    pub percentage_permille: int,
    /// Every signal ever emitted, in order.
    pub history: Seq<SinkCall>,
    /// Signals emitted and not yet collected by the host.
    pub pending: Seq<SinkCall>,
}

/// The engine invariant.
pub open spec fn view_wf(v: PlayerView) -> bool {
    &&& notes_wf(v.notes)
    &&& unique_ids(v.active)
    &&& forall|i: int| 0 <= i < v.active.len() ==> v.notes.contains(#[trigger] v.active[i])
    &&& 0 <= v.elapsed_ms <= MAX_ELAPSED_MS
    &&& v.first_ms == spec_first_start(v.notes)
    &&& v.last_end_ms == spec_last_end(v.notes)
    &&& well_paired(v.history, v.active)
    &&& v.pending.len() <= v.history.len()
    &&& v.pending == v.history.subrange(v.history.len() - v.pending.len(), v.history.len() as int)
    &&& (v.state is Inactive ==> v.active.len() == 0)
}

/// The playback/transport engine: owns the clock, the sequence, the active
/// set and the signal sink.
pub struct Player {
    midi_first_note_start: i64,
    midi_last_note_end: i64,
    active_notes: Vec<MidiNote>,
    timer: TransportClock,
    percentage_permille: i64,
    time_ms: i64,
    state: PlayerState,
    notes: Notes,
    output: OutputSink,
}

impl View for Player {
    type V = PlayerView;

    closed spec fn view(&self) -> PlayerView {
        PlayerView {
            state: self.state,
            notes: self.notes@,
            active: self.active_notes@,
            running: self.timer.running(),
            elapsed_ms: self.timer.elapsed_ms() as int,
            first_ms: self.midi_first_note_start as int,
            last_end_ms: self.midi_last_note_end as int,
            time_ms: self.time_ms as int,
            percentage_permille: self.percentage_permille as int,
            history: self.output.history(),
            pending: self.output.pending(),
        }
    }
}

/// Whether some note in `v` carries `id`.
fn contains_id(v: &Vec<MidiNote>, id: usize) -> (r: bool)
    ensures
        r == has_id(v@, id),
{
    let n = v.len();
    let mut i: usize = 0;
    while i < n
        invariant
            i <= n,
            n == v@.len(),
            forall|k: int| 0 <= k < i ==> (#[trigger] v@[k]).id != id,
        decreases n - i,
    {
        if v[i].id == id {
            return true;
        }
        i = i + 1;
    }
    false
}

/// The position of the note carrying `id`.
fn find_note_index(v: &Vec<MidiNote>, id: usize) -> (r: usize)
    requires
        has_id(v@, id),
    ensures
        r < v@.len(),
        v@[r as int].id == id,
{
    let n = v.len();
    let mut i: usize = 0;
    while v[i].id != id
        invariant
            n == v@.len(),
            0 <= i < n,
            exists|k: int| i <= k < v@.len() && (#[trigger] v@[k]).id == id,
        decreases v@.len() - i,
    {
        proof {
            let k = choose|k: int| i <= k < v@.len() && (#[trigger] v@[k]).id == id;
            assert(k != i);
        }
        i = i + 1;
    }
    i
}

/// The all-silent snapshot as a value.
fn silent_snapshot_vec() -> (r: Vec<(bool, usize)>)
    ensures
        r@ == silent_snapshot(),
{
    let mut v: Vec<(bool, usize)> = Vec::new();
    let mut i: usize = 0;
    while i < KEY_COUNT
        invariant
            i <= KEY_COUNT,
            v@.len() == i,
            forall|k: int| 0 <= k < i ==> v@[k] == (false, 0usize),
        decreases KEY_COUNT - i,
    {
        v.push((false, 0usize));
        i = i + 1;
    }
    proof {
        assert(v@ =~= silent_snapshot());
    }
    v
}

impl Player {
    /// The engine invariant; established by `new` and preserved by every
    /// operation.
    pub open spec fn wf(&self) -> bool {
        view_wf(self@)
    }

    /// Builds an engine over a sequence and a sink.  The playback window is
    /// derived from the sequence, one silent warm-up tick establishes the
    /// initial derived position, and the engine is left Inactive; the sink
    /// receives nothing.
    pub fn new(notes: Notes, output: OutputSink) -> (r: Player)
        requires
            notes.wf(),
            output.wf(),
            well_paired(output.history(), Seq::<MidiNote>::empty()),
        ensures
            r.wf(),
            r@.state is Inactive,
            r@.notes == notes@,
            r@.active == Seq::<MidiNote>::empty(),
            r@.history == output.history(),
            r@.pending == output.pending(),
            r@.first_ms == spec_first_start(notes@),
            r@.last_end_ms == spec_last_end(notes@),
            r@.elapsed_ms == 0,
            !r@.running,
            r@.time_ms == spec_first_start(notes@) - LEAD_IN_MS,
            r@.percentage_permille == 0,
    {
        let midi_first_note_start = notes.first_start_ms();
        let midi_last_note_end = notes.last_end_ms();
        let mut p = Player {
            midi_first_note_start,
            midi_last_note_end,
            active_notes: Vec::new(),
            timer: TransportClock::new(),
            percentage_permille: 0,
            time_ms: 0,
            state: PlayerState::Active,
            notes,
            output,
        };
        proof {
            lemma_window_bounds(p@.notes);
        }
        let _warmup = p.update();
        proof {
            let t = spec_time(0, p@.first_ms);
            assert forall|i: int| 0 <= i < p@.notes.len() implies !note_selected(
                #[trigger] p@.notes[i],
                t,
            ) by {
                lemma_first_start_le(p@.notes, i);
            }
            lemma_run_tick_quiet(p@.notes, t, Seq::<MidiNote>::empty());
            assert(p@.history =~= output.history() + Seq::<SinkCall>::empty());
            assert(p@.pending =~= output.pending() + Seq::<SinkCall>::empty());
        }
        p.state = PlayerState::Inactive;
        p
    }

    /// Transition Inactive to Active and start the clock; there is no way
    /// back to Inactive.
    pub fn start(&mut self)
        requires
            old(self).wf(),
        ensures
            final(self).wf(),
            final(self)@.state is Active,
            final(self)@.running,
            final(self)@.elapsed_ms == old(self)@.elapsed_ms,
            final(self)@.notes == old(self)@.notes,
            final(self)@.active == old(self)@.active,
            final(self)@.history == old(self)@.history,
            final(self)@.pending == old(self)@.pending,
            final(self)@.first_ms == old(self)@.first_ms,
            final(self)@.last_end_ms == old(self)@.last_end_ms,
            final(self)@.time_ms == old(self)@.time_ms,
            final(self)@.percentage_permille == old(self)@.percentage_permille,
    {
        self.timer.start();
        self.state = PlayerState::Active;
    }

    /// One tick.  While Inactive this returns the all-silent snapshot and
    /// changes nothing.  While Active it advances the clock, recomputes the
    /// derived position, and applies [`run_tick`] at the new position: the
    /// snapshot, the signals emitted and the new active set are exactly the
    /// model's.
    pub fn update(&mut self) -> (snapshot: Vec<(bool, usize)>)
        requires
            old(self).wf(),
        ensures
            final(self).wf(),
            snapshot@.len() == KEY_COUNT,
            final(self)@.state == old(self)@.state,
            final(self)@.notes == old(self)@.notes,
            final(self)@.first_ms == old(self)@.first_ms,
            final(self)@.last_end_ms == old(self)@.last_end_ms,
            old(self)@.state is Inactive ==> snapshot@ == silent_snapshot() && final(self)@ == old(
                self,
            )@,
            old(self)@.state is Active ==> {
                &&& final(self)@.running == old(self)@.running
                &&& (old(self)@.running ==> old(self)@.elapsed_ms <= final(self)@.elapsed_ms
                    <= MAX_ELAPSED_MS)
                &&& (!old(self)@.running ==> final(self)@.elapsed_ms == old(self)@.elapsed_ms)
                &&& final(self)@.time_ms == spec_time(final(self)@.elapsed_ms, old(self)@.first_ms)
                &&& final(self)@.percentage_permille == final(self)@.elapsed_ms * 1000 / (old(
                    self,
                )@.last_end_ms + LEAD_IN_MS)
                &&& ({
                    let r = run_tick(old(self)@.notes, final(self)@.time_ms, old(self)@.active);
                    &&& final(self)@.active == r.active
                    &&& final(self)@.history == old(self)@.history + r.calls
                    &&& final(self)@.pending == old(self)@.pending + r.calls
                    &&& snapshot@ == r.snap
                })
            },
    {
        if self.state == PlayerState::Inactive {
            return silent_snapshot_vec();
        }
        proof {
            lemma_window_bounds(self@.notes);
        }
        self.timer.update();
        let raw: i64 = self.timer.get_elapsed();
        self.percentage_permille = (raw * 1000) / (self.midi_last_note_end + LEAD_IN_MS);
        self.time_ms = raw + self.midi_first_note_start - LEAD_IN_MS;
        let time = self.time_ms;
        let mut snapshot = silent_snapshot_vec();
        let ghost notes0 = self.notes@;
        let ghost active0 = self.active_notes@;
        let ghost hist0 = self.output.history();
        let ghost pend0 = self.output.pending();
        let ghost state0 = self.state;
        let ghost run0 = self.timer.running();
        let ghost el0 = self.timer.elapsed_ms();
        let ghost fst0 = self.midi_first_note_start;
        let ghost lst0 = self.midi_last_note_end;
        let ghost tm0 = self.time_ms;
        let ghost pm0 = self.percentage_permille;
        let ghost t = time as int;
        proof {
            assert(notes0.take(0) =~= Seq::<MidiNote>::empty());
            assert(hist0 + Seq::<SinkCall>::empty() =~= hist0);
            assert(pend0 + Seq::<SinkCall>::empty() =~= pend0);
        }
        let n = self.notes.len();
        let mut i: usize = 0;
        while i < n
            invariant
                i <= n,
                n == notes0.len(),
                self.notes@ == notes0,
                notes_wf(notes0),
                self.state == state0,
                self.timer.running() == run0,
                self.timer.elapsed_ms() == el0,
                self.midi_first_note_start == fst0,
                self.midi_last_note_end == lst0,
                self.time_ms == tm0,
                self.percentage_permille == pm0,
                time == tm0,
                t == time as int,
                snapshot@.len() == KEY_COUNT,
                self.output.wf(),
                unique_ids(self.active_notes@),
                forall|k: int|
                    0 <= k < self.active_notes@.len() ==> active0.contains(
                        #[trigger] self.active_notes@[k],
                    ) || notes0.contains(self.active_notes@[k]),
                ({
                    let r = run_tick(notes0.take(i as int), t, active0);
                    &&& self.active_notes@ == r.active
                    &&& self.output.history() == hist0 + r.calls
                    &&& self.output.pending() == pend0 + r.calls
                    &&& snapshot@ == r.snap
                }),
            decreases n - i,
        {
            let note = self.notes.get(i);
            proof {
                assert(note_ok(notes0[i as int]));
                assert(notes0.take(i + 1 as int).drop_last() =~= notes0.take(i as int));
                assert(notes0.take(i + 1 as int).last() == notes0[i as int]);
                assert(notes0.contains(note)) by {
                    assert(notes0[i as int] == note);
                }
            }
            if note.start_ms <= time && note.start_ms + note.duration_ms + TAIL_MS > time {
                if note.start_ms + note.duration_ms >= time {
                    if note.note >= FIRST_KEY && note.note <= LAST_KEY {
                        let idx: usize = (note.note - FIRST_KEY) as usize;
                        snapshot[idx] = (true, note.track_id);
                    }
                    if !contains_id(&self.active_notes, note.id) {
                        let ghost calls_pre = run_tick(notes0.take(i as int), t, active0).calls;
                        self.active_notes.push(note);
                        self.output.note_on(note.id, note.ch, note.note, note.vel);
                        proof {
                            assert(hist0 + calls_pre.push(note_on_call(note)) =~= (hist0
                                + calls_pre).push(note_on_call(note)));
                            assert(pend0 + calls_pre.push(note_on_call(note)) =~= (pend0
                                + calls_pre).push(note_on_call(note)));
                            assert forall|p2: int, q2: int|
                                0 <= p2 < q2 < self.active_notes@.len() implies (
                            #[trigger] self.active_notes@[p2]).id != (
                            #[trigger] self.active_notes@[q2]).id by {
                                if q2 == self.active_notes@.len() - 1 {
                                    assert(self.active_notes@[q2] == note);
                                }
                            }
                        }
                    }
                } else {
                    if contains_id(&self.active_notes, note.id) {
                        let ghost active_pre = self.active_notes@;
                        let ghost calls_pre = run_tick(notes0.take(i as int), t, active0).calls;
                        let idx = find_note_index(&self.active_notes, note.id);
                        proof {
                            lemma_remove_id_at(active_pre, note.id, idx as int);
                            lemma_remove_id_props(active_pre, note.id);
                        }
                        self.active_notes.remove(idx);
                        self.output.note_off(note.id, note.ch, note.note);
                        proof {
                            assert(hist0 + calls_pre.push(note_off_call(note)) =~= (hist0
                                + calls_pre).push(note_off_call(note)));
                            assert(pend0 + calls_pre.push(note_off_call(note)) =~= (pend0
                                + calls_pre).push(note_off_call(note)));
                            assert forall|k: int|
                                0 <= k < self.active_notes@.len() implies active0.contains(
                                #[trigger] self.active_notes@[k],
                            ) || notes0.contains(self.active_notes@[k]) by {
                                assert(active_pre.contains(self.active_notes@[k]));
                                let w = choose|w: int|
                                    0 <= w < active_pre.len() && active_pre[w]
                                        == self.active_notes@[k];
                            }
                        }
                    }
                }
            }
            i = i + 1;
        }
        proof {
            assert(notes0.take(n as int) =~= notes0);
            lemma_run_tick_props(notes0, t, active0, hist0);
            assert forall|k: int|
                0 <= k < self.active_notes@.len() implies self@.notes.contains(
                #[trigger] self.active_notes@[k],
            ) by {
                if active0.contains(self.active_notes@[k]) {
                    let w = choose|w: int|
                        0 <= w < active0.len() && active0[w] == self.active_notes@[k];
                    assert(old(self)@.notes.contains(active0[w]));
                }
            }
        }
        snapshot
    }

    /// Stop every active note (one stop signal each, in start order) and
    /// empty the active set.  This is the engine's sole failure-prevention
    /// mechanism: it runs before every pause and seek so the device is never
    /// left with stuck notes.
    pub fn clear(&mut self)
        requires
            old(self).wf(),
        ensures
            final(self).wf(),
            final(self)@.active == Seq::<MidiNote>::empty(),
            final(self)@.history == old(self)@.history + note_offs(old(self)@.active),
            final(self)@.pending == old(self)@.pending + note_offs(old(self)@.active),
            final(self)@.state == old(self)@.state,
            final(self)@.notes == old(self)@.notes,
            final(self)@.running == old(self)@.running,
            final(self)@.elapsed_ms == old(self)@.elapsed_ms,
            final(self)@.first_ms == old(self)@.first_ms,
            final(self)@.last_end_ms == old(self)@.last_end_ms,
            final(self)@.time_ms == old(self)@.time_ms,
            final(self)@.percentage_permille == old(self)@.percentage_permille,
    {
        let ghost active0 = self.active_notes@;
        let ghost hist0 = self.output.history();
        let ghost pend0 = self.output.pending();
        proof {
            assert(active0.take(0) =~= Seq::<MidiNote>::empty());
            assert(note_offs(Seq::<MidiNote>::empty()) =~= Seq::<SinkCall>::empty());
            assert(hist0 + Seq::<SinkCall>::empty() =~= hist0);
            assert(pend0 + Seq::<SinkCall>::empty() =~= pend0);
        }
        let ghost state0 = self.state;
        let ghost run0 = self.timer.running();
        let ghost el0 = self.timer.elapsed_ms();
        let ghost fst0 = self.midi_first_note_start;
        let ghost lst0 = self.midi_last_note_end;
        let ghost tm0 = self.time_ms;
        let ghost pm0 = self.percentage_permille;
        let ghost notes0 = self.notes@;
        let n = self.active_notes.len();
        let mut i: usize = 0;
        while i < n
            invariant
                i <= n,
                n == active0.len(),
                self.active_notes@ == active0,
                self.state == state0,
                self.timer.running() == run0,
                self.timer.elapsed_ms() == el0,
                self.midi_first_note_start == fst0,
                self.midi_last_note_end == lst0,
                self.time_ms == tm0,
                self.percentage_permille == pm0,
                self.notes@ == notes0,
                self.output.wf(),
                self.output.history() == hist0 + note_offs(active0.take(i as int)),
                self.output.pending() == pend0 + note_offs(active0.take(i as int)),
            decreases n - i,
        {
            let x = self.active_notes[i];
            self.output.note_off(x.id, x.ch, x.note);
            proof {
                let pre = note_offs(active0.take(i as int));
                assert(note_offs(active0.take(i + 1 as int)) =~= pre.push(
                    note_off_call(active0[i as int]),
                ));
                assert(hist0 + pre.push(note_off_call(active0[i as int])) =~= (hist0 + pre).push(
                    note_off_call(active0[i as int]),
                ));
                assert(pend0 + pre.push(note_off_call(active0[i as int])) =~= (pend0 + pre).push(
                    note_off_call(active0[i as int]),
                ));
            }
            i = i + 1;
        }
        self.active_notes.clear();
        proof {
            assert(active0.take(n as int) =~= active0);
            lemma_clear_well_paired(hist0, active0);
            assert(self.active_notes@ =~= Seq::<MidiNote>::empty());
        }
    }

    /// Stop all active notes, then toggle the clock between running and
    /// paused.  Elapsed time is untouched by the toggle itself.
    pub fn pause_resume(&mut self)
        requires
            old(self).wf(),
        ensures
            final(self).wf(),
            final(self)@.running == !old(self)@.running,
            final(self)@.elapsed_ms == old(self)@.elapsed_ms,
            final(self)@.active == Seq::<MidiNote>::empty(),
            final(self)@.history == old(self)@.history + note_offs(old(self)@.active),
            final(self)@.pending == old(self)@.pending + note_offs(old(self)@.active),
            final(self)@.state == old(self)@.state,
            final(self)@.notes == old(self)@.notes,
            final(self)@.first_ms == old(self)@.first_ms,
            final(self)@.last_end_ms == old(self)@.last_end_ms,
            final(self)@.time_ms == old(self)@.time_ms,
            final(self)@.percentage_permille == old(self)@.percentage_permille,
    {
        self.clear();
        self.timer.pause_resume();
    }

    /// Seek: set the clock to `time_ms` milliseconds, then stop all active
    /// notes, so the next tick recomputes from scratch what sounds at the
    /// new position — no double starts, no stuck notes, on any jump.
    pub fn set_time(&mut self, time_ms: i64)
        requires
            old(self).wf(),
            0 <= time_ms <= MAX_ELAPSED_MS,
        ensures
            final(self).wf(),
            final(self)@.elapsed_ms == time_ms,
            final(self)@.running == old(self)@.running,
            final(self)@.active == Seq::<MidiNote>::empty(),
            final(self)@.history == old(self)@.history + note_offs(old(self)@.active),
            final(self)@.pending == old(self)@.pending + note_offs(old(self)@.active),
            final(self)@.state == old(self)@.state,
            final(self)@.notes == old(self)@.notes,
            final(self)@.first_ms == old(self)@.first_ms,
            final(self)@.last_end_ms == old(self)@.last_end_ms,
            final(self)@.time_ms == old(self)@.time_ms,
            final(self)@.percentage_permille == old(self)@.percentage_permille,
    {
        self.timer.set_time(time_ms);
        self.clear();
    }

    /// Stop everything and hand back the sequence and the sink, as when the
    /// session ends: every active note receives its final stop signal first.
    pub fn done(self) -> (r: (Notes, OutputSink))
        requires
            self.wf(),
        ensures
            r.0@ == self@.notes,
            r.1.wf(),
            r.1.history() == self@.history + note_offs(self@.active),
            r.1.pending() == self@.pending + note_offs(self@.active),
    {
        let mut p = self;
        p.clear();
        (p.notes, p.output)
    }

    /// Playback position in milliseconds, as of the last live tick.
    pub fn time_ms(&self) -> (r: i64)
        ensures
            r == self@.time_ms,
    {
        self.time_ms
    }

    /// Playback progress in thousandths, as of the last live tick.
    pub fn percentage_permille(&self) -> (r: i64)
        ensures
            r == self@.percentage_permille,
    {
        self.percentage_permille
    }

    /// Clock reading in milliseconds.
    pub fn elapsed_ms(&self) -> (r: i64)
        ensures
            r == self@.elapsed_ms,
    {
        self.timer.get_elapsed()
    }

    /// Whether the engine has been started.
    pub fn is_active(&self) -> (r: bool)
        ensures
            r == (self@.state is Active),
    {
        self.state == PlayerState::Active
    }

    /// Whether the clock is advancing.
    pub fn is_running(&self) -> (r: bool)
        ensures
            r == self@.running,
    {
        self.timer.is_running()
    }

    /// Number of notes currently considered sounding.
    pub fn active_len(&self) -> (r: usize)
        ensures
            r == self@.active.len(),
    {
        self.active_notes.len()
    }

    /// Whether the note carrying `id` is currently considered sounding.
    pub fn is_note_active(&self, id: usize) -> (r: bool)
        ensures
            r == has_id(self@.active, id),
    {
        contains_id(&self.active_notes, id)
    }

    /// Start of the earliest note, in milliseconds.
    pub fn first_note_start_ms(&self) -> (r: i64)
        ensures
            r == self@.first_ms,
    {
        self.midi_first_note_start
    }

    /// Latest note end, in milliseconds.
    pub fn last_note_end_ms(&self) -> (r: i64)
        ensures
            r == self@.last_end_ms,
    {
        self.midi_last_note_end
    }

    /// The sequence being played.
    pub fn notes(&self) -> (r: &Notes)
        ensures
            r@ == self@.notes,
    {
        &self.notes
    }

    /// Read the uncollected signals without collecting them.
    pub fn calls(&self) -> (r: &Vec<SinkCall>)
        ensures
            r@ == self@.pending,
    {
        self.output.calls()
    }

    /// Hand the uncollected signals to the host and empty the queue.
    pub fn take_calls(&mut self) -> (r: Vec<SinkCall>)
        requires
            old(self).wf(),
        ensures
            final(self).wf(),
            r@ == old(self)@.pending,
            final(self)@.pending == Seq::<SinkCall>::empty(),
            final(self)@.history == old(self)@.history,
            final(self)@.state == old(self)@.state,
            final(self)@.notes == old(self)@.notes,
            final(self)@.active == old(self)@.active,
            final(self)@.running == old(self)@.running,
            final(self)@.elapsed_ms == old(self)@.elapsed_ms,
            final(self)@.first_ms == old(self)@.first_ms,
            final(self)@.last_end_ms == old(self)@.last_end_ms,
            final(self)@.time_ms == old(self)@.time_ms,
            final(self)@.percentage_permille == old(self)@.percentage_permille,
    {
        self.output.take_calls()
    }
}

} // verus!
