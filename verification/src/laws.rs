//! The engine's cross-operation guarantees, stated and proved once over the
//! model.
//!
//! The operation contracts in [`crate::player`] describe each call in
//! isolation; the proof functions here state what follows for whole
//! histories: a note is never started or stopped twice in a row, and a note
//! inside its nominal sounding interval at tick time ends the tick active
//! and visible on its key.

use vstd::prelude::*;
use crate::note::{MidiNote, has_id, unique_ids, remove_id, pitch_on_keyboard, FIRST_KEY, KEY_COUNT};
use crate::player::{
    run_tick, note_selected, note_in_core, net_calls, well_paired, lemma_net_take_step,
    lemma_has_id_push, lemma_remove_id_props, view_wf, PlayerView,
};
use crate::sink::SinkCall;

verus! {

/// A drop in the start/stop balance of `id` over `[a, b)` pins a stop signal
/// for `id` inside `[a, b)`.
proof fn lemma_net_decrease_has_off(calls: Seq<SinkCall>, id: usize, a: int, b: int)
    requires
        0 <= a <= b <= calls.len(),
        net_calls(calls.take(b), id) < net_calls(calls.take(a), id),
    ensures
        exists|k: int|
            a <= k < b && !(#[trigger] calls[k]).is_on() && calls[k].call_id() == id,
    decreases b - a,
{
    assert(a < b);
    lemma_net_take_step(calls, id, b - 1);
    if !calls[b - 1].is_on() && calls[b - 1].call_id() == id {
        assert(a <= b - 1 < b);
    } else {
        lemma_net_decrease_has_off(calls, id, a, b - 1);
    }
}

/// A rise in the start/stop balance of `id` over `[a, b)` pins a start
/// signal for `id` inside `[a, b)`.
proof fn lemma_net_increase_has_on(calls: Seq<SinkCall>, id: usize, a: int, b: int)
    requires
        0 <= a <= b <= calls.len(),
        net_calls(calls.take(b), id) > net_calls(calls.take(a), id),
    ensures
        exists|k: int| a <= k < b && (#[trigger] calls[k]).is_on() && calls[k].call_id() == id,
    decreases b - a,
{
    assert(a < b);
    lemma_net_take_step(calls, id, b - 1);
    if calls[b - 1].is_on() && calls[b - 1].call_id() == id {
        assert(a <= b - 1 < b);
    } else {
        lemma_net_increase_has_on(calls, id, a, b - 1);
    }
}

/// Law: in a well-paired history, two start signals for one note always
/// have a stop signal for that note strictly between them.
pub proof fn lemma_no_double_note_on(
    calls: Seq<SinkCall>,
    active: Seq<MidiNote>,
    id: usize,
    i: int,
    j: int,
)
    requires
        well_paired(calls, active),
        0 <= i < j < calls.len(),
        calls[i].is_on() && calls[i].call_id() == id,
        calls[j].is_on() && calls[j].call_id() == id,
    ensures
        exists|k: int|
            i < k < j && !(#[trigger] calls[k]).is_on() && calls[k].call_id() == id,
{
    lemma_net_take_step(calls, id, i);
    lemma_net_take_step(calls, id, j);
    assert(net_calls(calls.take(i + 1), id) == net_calls(calls.take(i), id) + 1);
    assert(net_calls(calls.take(j + 1), id) == net_calls(calls.take(j), id) + 1);
    lemma_net_decrease_has_off(calls, id, i + 1, j);
}

/// Law: in a well-paired history, two stop signals for one note always have
/// a start signal for that note strictly between them.
pub proof fn lemma_no_double_note_off(
    calls: Seq<SinkCall>,
    active: Seq<MidiNote>,
    id: usize,
    i: int,
    j: int,
)
    requires
        well_paired(calls, active),
        0 <= i < j < calls.len(),
        !calls[i].is_on() && calls[i].call_id() == id,
        !calls[j].is_on() && calls[j].call_id() == id,
    ensures
        exists|k: int| i < k < j && (#[trigger] calls[k]).is_on() && calls[k].call_id() == id,
{
    lemma_net_take_step(calls, id, i);
    lemma_net_take_step(calls, id, j);
    assert(net_calls(calls.take(i + 1), id) == net_calls(calls.take(i), id) - 1);
    assert(net_calls(calls.take(j + 1), id) == net_calls(calls.take(j), id) - 1);
    lemma_net_increase_has_on(calls, id, i + 1, j);
}

/// Law, at the engine: in a well-formed engine's whole emission history, a
/// note's starts and stops strictly alternate — no note is started twice
/// without an intervening stop, nor stopped twice without an intervening
/// start.
pub proof fn lemma_player_alternation(v: PlayerView, id: usize, i: int, j: int)
    requires
        view_wf(v),
        0 <= i < j < v.history.len(),
        v.history[i].call_id() == id,
        v.history[j].call_id() == id,
        v.history[i].is_on() == v.history[j].is_on(),
    ensures
        exists|k: int|
            i < k < j && (#[trigger] v.history[k]).call_id() == id && v.history[k].is_on()
                != v.history[i].is_on(),
{
    if v.history[i].is_on() {
        lemma_no_double_note_on(v.history, v.active, id, i, j);
        let k = choose|k: int|
            i < k < j && !(#[trigger] v.history[k]).is_on() && v.history[k].call_id() == id;
        assert(v.history[k].call_id() == id && v.history[k].is_on() != v.history[i].is_on());
    } else {
        lemma_no_double_note_off(v.history, v.active, id, i, j);
        let k = choose|k: int|
            i < k < j && (#[trigger] v.history[k]).is_on() && v.history[k].call_id() == id;
        assert(v.history[k].call_id() == id && v.history[k].is_on() != v.history[i].is_on());
    }
}

/// The parts of a tick's outcome that need no pairing assumption: the active
/// set stays duplicate-free and the snapshot keeps its width.
proof fn lemma_run_tick_basic(notes: Seq<MidiNote>, t: int, active0: Seq<MidiNote>)
    requires
        unique_ids(active0),
    ensures
        unique_ids(run_tick(notes, t, active0).active),
        run_tick(notes, t, active0).snap.len() == KEY_COUNT,
    decreases notes.len(),
{
    if notes.len() > 0 {
        let rest = notes.drop_last();
        let n = notes.last();
        lemma_run_tick_basic(rest, t, active0);
        let rp = run_tick(rest, t, active0);
        let r = run_tick(notes, t, active0);
        if note_selected(n, t) && note_in_core(n, t) && !has_id(rp.active, n.id) {
            assert forall|i: int, j: int| 0 <= i < j < r.active.len() implies (
            #[trigger] r.active[i]).id != (#[trigger] r.active[j]).id by {
                if j == r.active.len() - 1 {
                    assert(r.active[j] == n);
                    assert(rp.active[i].id != n.id);
                }
            }
        } else if note_selected(n, t) && !note_in_core(n, t) && has_id(rp.active, n.id) {
            lemma_remove_id_props(rp.active, n.id);
        }
    }
}

/// Law: a note whose nominal interval `[start, start + duration]` contains
/// the tick time is in the active set once the tick is over; when its pitch
/// lies on the keyboard its key is marked sounding, carrying the track of a
/// note that sounds there.
pub proof fn lemma_core_note_active(
    notes: Seq<MidiNote>,
    t: int,
    active0: Seq<MidiNote>,
    i: int,
)
    requires
        unique_ids(notes),
        unique_ids(active0),
        0 <= i < notes.len(),
        notes[i].start_ms <= t,
        t <= notes[i].start_ms + notes[i].duration_ms,
    ensures
        has_id(run_tick(notes, t, active0).active, notes[i].id),
        pitch_on_keyboard(notes[i].note) ==> ({
            let e = run_tick(notes, t, active0).snap[notes[i].note - FIRST_KEY];
            &&& e.0
            &&& exists|j: int|
                0 <= j < notes.len() && (#[trigger] notes[j]).note == notes[i].note
                    && note_selected(notes[j], t) && note_in_core(notes[j], t) && e.1 == notes[j].track_id
        }),
    decreases notes.len(),
{
    let rest = notes.drop_last();
    let n = notes.last();
    let rp = run_tick(rest, t, active0);
    let r = run_tick(notes, t, active0);
    assert(unique_ids(rest)) by {
        assert(forall|k: int| 0 <= k < rest.len() ==> rest[k] == #[trigger] notes[k]);
    }
    lemma_run_tick_basic(rest, t, active0);
    if i == notes.len() - 1 {
        assert(note_selected(n, t) && note_in_core(n, t));
        if pitch_on_keyboard(n.note) {
            assert(r.snap[n.note - FIRST_KEY] == (true, n.track_id));
            assert(notes[i].note == n.note && note_selected(notes[i], t) && note_in_core(
                notes[i],
                t,
            ) && r.snap[n.note - FIRST_KEY].1 == notes[i].track_id);
        }
        if has_id(rp.active, n.id) {
            assert(has_id(r.active, n.id));
        } else {
            lemma_has_id_push(rp.active, n, n.id);
        }
    } else {
        lemma_core_note_active(rest, t, active0, i);
        let id = notes[i].id;
        assert(n.id != id);
        if !note_selected(n, t) {
            assert(r == rp);
        } else if note_in_core(n, t) {
            if pitch_on_keyboard(n.note) {
                if n.note == notes[i].note {
                    assert(r.snap[notes[i].note - FIRST_KEY] == (true, n.track_id));
                    assert(notes[notes.len() - 1].note == notes[i].note && note_selected(
                        notes[notes.len() - 1],
                        t,
                    ) && note_in_core(notes[notes.len() - 1], t));
                } else if pitch_on_keyboard(notes[i].note) {
                    assert(r.snap[notes[i].note - FIRST_KEY] == rp.snap[notes[i].note
                        - FIRST_KEY]);
                }
            }
            if pitch_on_keyboard(notes[i].note) && n.note != notes[i].note {
                let e = rp.snap[notes[i].note - FIRST_KEY];
                let j = choose|j: int|
                    0 <= j < rest.len() && (#[trigger] rest[j]).note == notes[i].note
                        && note_selected(rest[j], t) && note_in_core(rest[j], t) && e.1 == rest[j].track_id;
                assert(notes[j] == rest[j]);
            }
            if !has_id(rp.active, n.id) {
                lemma_has_id_push(rp.active, n, id);
            }
        } else {
            if has_id(rp.active, n.id) {
                lemma_remove_id_props(rp.active, n.id);
                assert(has_id(remove_id(rp.active, n.id), id) == has_id(rp.active, id));
            }
            if pitch_on_keyboard(notes[i].note) {
                let e = rp.snap[notes[i].note - FIRST_KEY];
                let j = choose|j: int|
                    0 <= j < rest.len() && (#[trigger] rest[j]).note == notes[i].note
                        && note_selected(rest[j], t) && note_in_core(rest[j], t) && e.1 == rest[j].track_id;
                assert(notes[j] == rest[j]);
            }
        }
    }
}

/// Law, sharpened: when no other note of the same pitch also sounds at `t`,
/// the note's key carries exactly `(true, its own track)`.
pub proof fn lemma_core_note_exact_entry(
    notes: Seq<MidiNote>,
    t: int,
    active0: Seq<MidiNote>,
    i: int,
)
    requires
        unique_ids(notes),
        unique_ids(active0),
        0 <= i < notes.len(),
        notes[i].start_ms <= t,
        t <= notes[i].start_ms + notes[i].duration_ms,
        pitch_on_keyboard(notes[i].note),
        forall|j: int|
            0 <= j < notes.len() && (#[trigger] notes[j]).note == notes[i].note && note_selected(
                notes[j],
                t,
            ) && note_in_core(notes[j], t) ==> j == i,
    ensures
        run_tick(notes, t, active0).snap[notes[i].note - FIRST_KEY] == (true, notes[i].track_id),
{
    lemma_core_note_active(notes, t, active0, i);
    let e = run_tick(notes, t, active0).snap[notes[i].note - FIRST_KEY];
    let j = choose|j: int|
        0 <= j < notes.len() && (#[trigger] notes[j]).note == notes[i].note && note_selected(
            notes[j],
            t,
        ) && note_in_core(notes[j], t) && e.1 == notes[j].track_id;
    assert(j == i);
    assert(e == (true, notes[i].track_id));
}

} // verus!
