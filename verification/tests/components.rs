use midi_player::clock::TransportClock;
use midi_player::note::{MidiNote, Notes, MAX_NOTE_MS};
use midi_player::sink::OutputSink;

fn note(id: usize, start_ms: i64, duration_ms: i64, pitch: u8) -> MidiNote {
    MidiNote { id, ch: 0, note: pitch, vel: 64, start_ms, duration_ms, track_id: 0 }
}

#[test]
fn notes_accepts_well_formed_input() {
    let ns = Notes::new(vec![note(1, 0, 1000, 60), note(2, 500, 250, 61)]).unwrap();
    assert_eq!(ns.len(), 2);
    assert_eq!(ns.get(1).id, 2);
    assert!(!ns.has_out_of_range_pitch());
}

#[test]
fn notes_rejects_duplicate_ids() {
    assert!(Notes::new(vec![note(1, 0, 1000, 60), note(1, 500, 250, 61)]).is_none());
}

#[test]
fn notes_rejects_negative_start() {
    assert!(Notes::new(vec![note(1, -1, 1000, 60)]).is_none());
}

#[test]
fn notes_rejects_end_before_time_zero() {
    assert!(Notes::new(vec![note(1, 100, -200, 60)]).is_none());
}

#[test]
fn notes_rejects_oversized_times() {
    assert!(Notes::new(vec![note(1, MAX_NOTE_MS + 1, 0, 60)]).is_none());
    assert!(Notes::new(vec![note(1, 0, MAX_NOTE_MS + 1, 60)]).is_none());
}

#[test]
fn notes_accepts_negative_duration_within_bounds() {
    let ns = Notes::new(vec![note(1, 1000, -400, 60)]).unwrap();
    assert_eq!(ns.len(), 1);
}

#[test]
fn notes_window_is_min_start_and_max_end() {
    let ns = Notes::new(vec![
        note(1, 2000, 100, 60),
        note(2, 500, 9000, 61),
        note(3, 800, 100, 62),
    ])
    .unwrap();
    assert_eq!(ns.first_start_ms(), 500);
    assert_eq!(ns.last_end_ms(), 9500);
}

#[test]
fn notes_empty_window_is_zero() {
    let ns = Notes::new(vec![]).unwrap();
    assert_eq!(ns.first_start_ms(), 0);
    assert_eq!(ns.last_end_ms(), 0);
}

#[test]
fn notes_flags_out_of_range_pitch() {
    let ns = Notes::new(vec![note(1, 0, 100, 60), note(2, 0, 100, 20)]).unwrap();
    assert!(ns.has_out_of_range_pitch());
    let ns = Notes::new(vec![note(1, 0, 100, 21), note(2, 0, 100, 108)]).unwrap();
    assert!(!ns.has_out_of_range_pitch());
}

#[test]
fn clock_starts_frozen_at_zero() {
    let mut c = TransportClock::new();
    assert!(!c.is_running());
    assert_eq!(c.get_elapsed(), 0);
    c.update();
    assert_eq!(c.get_elapsed(), 0);
}

#[test]
fn clock_seek_keeps_run_state() {
    let mut c = TransportClock::new();
    c.set_time(1234);
    assert_eq!(c.get_elapsed(), 1234);
    assert!(!c.is_running());
    c.update();
    assert_eq!(c.get_elapsed(), 1234);
}

#[test]
fn clock_pause_resume_toggles_without_jump() {
    let mut c = TransportClock::new();
    c.start();
    assert!(c.is_running());
    c.pause_resume();
    assert!(!c.is_running());
    let frozen = c.get_elapsed();
    c.update();
    assert_eq!(c.get_elapsed(), frozen);
    c.pause_resume();
    assert!(c.is_running());
    assert_eq!(c.get_elapsed(), frozen);
}

#[test]
fn clock_update_advances_monotonically() {
    let mut c = TransportClock::new();
    c.start();
    let mut last = c.get_elapsed();
    for _ in 0..5 {
        c.update();
        let e = c.get_elapsed();
        assert!(e >= last);
        last = e;
    }
}

#[test]
fn sink_starts_empty() {
    let mut s = OutputSink::new();
    assert!(s.calls().is_empty());
    assert!(s.take_calls().is_empty());
}
