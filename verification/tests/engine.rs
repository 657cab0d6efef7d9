use midi_player::note::{MidiNote, Notes};
use midi_player::player::Player;
use midi_player::sink::{OutputSink, SinkCall};

fn note(id: usize, start_ms: i64, duration_ms: i64, pitch: u8, track_id: usize) -> MidiNote {
    MidiNote { id, ch: 0, note: pitch, vel: 100, start_ms, duration_ms, track_id }
}

fn engine(notes: Vec<MidiNote>) -> Player {
    Player::new(Notes::new(notes).unwrap(), OutputSink::new())
}

/// Freezes the clock so later seeks give exact tick times.
fn start_paused(p: &mut Player) {
    p.start();
    p.pause_resume();
    assert!(!p.is_running());
}

#[test]
fn inactive_ticks_are_silent() {
    let mut p = engine(vec![note(1, 0, 1000, 60, 0)]);
    assert!(!p.is_active());
    for _ in 0..3 {
        let snap = p.update();
        assert_eq!(snap.len(), 88);
        assert!(snap.iter().all(|e| !e.0));
        assert!(p.calls().is_empty());
        assert_eq!(p.active_len(), 0);
    }
    assert_eq!(p.time_ms(), -3000);
    assert_eq!(p.percentage_permille(), 0);
}

#[test]
fn core_note_enters_snapshot_and_active() {
    let mut p = engine(vec![note(1, 0, 1000, 60, 7)]);
    start_paused(&mut p);
    p.set_time(3000);
    let snap = p.update();
    assert_eq!(snap[60 - 21], (true, 7));
    assert!(p.is_note_active(1));
    assert_eq!(p.take_calls(), vec![SinkCall::NoteOn { id: 1, ch: 0, note: 60, vel: 100 }]);
}

#[test]
fn no_double_start_or_stop() {
    let mut p = engine(vec![note(1, 0, 1000, 60, 0)]);
    start_paused(&mut p);
    p.set_time(3000);
    p.update();
    p.update();
    p.update();
    let calls = p.take_calls();
    assert_eq!(calls, vec![SinkCall::NoteOn { id: 1, ch: 0, note: 60, vel: 100 }]);
    p.set_time(4400);
    p.update();
    p.update();
    assert_eq!(p.take_calls(), vec![SinkCall::NoteOff { id: 1, ch: 0, note: 60 }]);
}

#[test]
fn seek_clears_active_set() {
    let mut p = engine(vec![note(1, 0, 1000, 60, 0)]);
    start_paused(&mut p);
    p.set_time(3000);
    p.update();
    assert_eq!(p.active_len(), 1);
    p.take_calls();
    p.set_time(0);
    assert_eq!(p.take_calls(), vec![SinkCall::NoteOff { id: 1, ch: 0, note: 60 }]);
    assert_eq!(p.active_len(), 0);
    let snap = p.update();
    assert!(snap.iter().all(|e| !e.0));
    assert!(p.calls().is_empty());
    assert_eq!(p.active_len(), 0);
}

#[test]
fn pause_stops_active_notes_and_keeps_elapsed() {
    let mut p = engine(vec![note(1, 0, 60_000, 60, 0)]);
    p.start();
    assert!(p.is_running());
    p.set_time(3500);
    p.update();
    assert!(p.is_note_active(1));
    p.take_calls();
    let elapsed_before = p.elapsed_ms();
    p.pause_resume();
    assert!(!p.is_running());
    assert_eq!(p.elapsed_ms(), elapsed_before);
    assert_eq!(p.take_calls(), vec![SinkCall::NoteOff { id: 1, ch: 0, note: 60 }]);
    assert_eq!(p.active_len(), 0);
}

#[test]
fn lead_in_scenario() {
    let mut p = engine(vec![note(1, 0, 1000, 60, 0)]);
    assert_eq!(p.time_ms(), -3000);
    p.start();
    let snap = p.update();
    assert!(snap.iter().all(|e| !e.0));
    assert!(p.calls().is_empty());
    p.pause_resume();

    p.set_time(3000);
    let snap = p.update();
    assert!(snap[60 - 21].0);
    assert_eq!(p.time_ms(), 0);
    assert_eq!(p.take_calls(), vec![SinkCall::NoteOn { id: 1, ch: 0, note: 60, vel: 100 }]);

    p.set_time(4400);
    let snap = p.update();
    assert_eq!(p.time_ms(), 1400);
    assert!(!snap[60 - 21].0);
    assert_eq!(p.take_calls(), vec![SinkCall::NoteOff { id: 1, ch: 0, note: 60 }]);
    assert_eq!(p.active_len(), 0);

    p.set_time(4450);
    let snap = p.update();
    assert!(!snap[60 - 21].0);
    assert!(p.calls().is_empty());

    p.set_time(4600);
    let snap = p.update();
    assert!(!snap[60 - 21].0);
    assert!(p.calls().is_empty());
}

#[test]
fn empty_sequence_percentage_is_zero() {
    let mut p = engine(vec![]);
    assert_eq!(p.first_note_start_ms(), 0);
    assert_eq!(p.last_note_end_ms(), 0);
    start_paused(&mut p);
    p.set_time(0);
    let snap = p.update();
    assert!(snap.iter().all(|e| !e.0));
    assert_eq!(p.percentage_permille(), 0);
    assert!(p.calls().is_empty());
    p.set_time(1500);
    p.update();
    assert_eq!(p.percentage_permille(), 1500 * 1000 / 3000);
}

#[test]
fn backward_seek_stops_then_restarts() {
    let mut p = engine(vec![note(1, 0, 5000, 60, 0)]);
    start_paused(&mut p);
    p.set_time(7000);
    p.update();
    assert_eq!(p.take_calls(), vec![SinkCall::NoteOn { id: 1, ch: 0, note: 60, vel: 100 }]);
    p.set_time(5000);
    assert_eq!(p.take_calls(), vec![SinkCall::NoteOff { id: 1, ch: 0, note: 60 }]);
    p.update();
    assert_eq!(p.time_ms(), 2000);
    assert_eq!(p.take_calls(), vec![SinkCall::NoteOn { id: 1, ch: 0, note: 60, vel: 100 }]);
    assert!(p.is_note_active(1));
}

#[test]
fn out_of_range_pitch_sounds_but_stays_invisible() {
    let mut p = engine(vec![note(1, 0, 1000, 110, 0)]);
    assert!(p.notes().has_out_of_range_pitch());
    start_paused(&mut p);
    p.set_time(3000);
    let snap = p.update();
    assert!(snap.iter().all(|e| !e.0));
    assert_eq!(p.active_len(), 1);
    assert_eq!(p.take_calls(), vec![SinkCall::NoteOn { id: 1, ch: 0, note: 110, vel: 100 }]);
}

#[test]
fn percentage_and_time_formulas() {
    let mut p = engine(vec![note(1, 0, 2000, 60, 0)]);
    start_paused(&mut p);
    p.set_time(1000);
    p.update();
    assert_eq!(p.percentage_permille(), 1000 * 1000 / (2000 + 3000));
    assert_eq!(p.time_ms(), 1000 - 3000);
}

#[test]
fn zero_duration_note_still_gets_tail() {
    let mut p = engine(vec![note(1, 1000, 0, 60, 0)]);
    start_paused(&mut p);
    p.set_time(3000 + 1000 - 1000);
    p.update();
    assert_eq!(p.time_ms(), 1000);
    assert_eq!(p.take_calls(), vec![SinkCall::NoteOn { id: 1, ch: 0, note: 60, vel: 100 }]);
    p.set_time(3000 + 1200 - 1000);
    p.update();
    assert_eq!(p.time_ms(), 1200);
    assert_eq!(p.take_calls(), vec![SinkCall::NoteOff { id: 1, ch: 0, note: 60 }]);
}

#[test]
fn two_notes_same_pitch_last_track_wins() {
    let mut p = engine(vec![note(1, 0, 2000, 60, 1), note(2, 500, 2000, 60, 2)]);
    start_paused(&mut p);
    p.set_time(3600);
    let snap = p.update();
    assert_eq!(snap[60 - 21], (true, 2));
    assert_eq!(p.active_len(), 2);
    assert_eq!(
        p.take_calls(),
        vec![
            SinkCall::NoteOn { id: 1, ch: 0, note: 60, vel: 100 },
            SinkCall::NoteOn { id: 2, ch: 0, note: 60, vel: 100 },
        ]
    );
}

#[test]
fn take_calls_drains_queue() {
    let mut p = engine(vec![note(1, 0, 1000, 60, 0)]);
    start_paused(&mut p);
    p.set_time(3000);
    p.update();
    assert_eq!(p.calls().len(), 1);
    let drained = p.take_calls();
    assert_eq!(drained.len(), 1);
    assert!(p.calls().is_empty());
    assert!(p.take_calls().is_empty());
}

#[test]
fn done_stops_everything() {
    let mut p = engine(vec![note(1, 0, 60_000, 60, 0)]);
    start_paused(&mut p);
    p.set_time(3000);
    p.update();
    let (notes, sink) = p.done();
    assert_eq!(notes.len(), 1);
    assert_eq!(
        *sink.calls(),
        vec![
            SinkCall::NoteOn { id: 1, ch: 0, note: 60, vel: 100 },
            SinkCall::NoteOff { id: 1, ch: 0, note: 60 },
        ]
    );
}

#[test]
fn start_is_one_way_and_starts_clock() {
    let mut p = engine(vec![note(1, 0, 1000, 60, 0)]);
    assert!(!p.is_active());
    assert!(!p.is_running());
    p.start();
    assert!(p.is_active());
    assert!(p.is_running());
    p.pause_resume();
    assert!(p.is_active());
    assert!(!p.is_running());
}
