//! The transport clock: a wall-clock-driven elapsed-time source with pause,
//! resume and seek.
//!
//! Elapsed time is held in whole milliseconds and only ever grows while the
//! clock is running, except through an explicit seek.  The wall clock itself
//! is read through trusted wrappers around `std::time::Instant`; nothing is
//! assumed about the values it yields, so every contract here holds whatever
//! the machine clock does.

use vstd::prelude::*;

verus! {

/// Largest elapsed time the clock will report, in milliseconds (about
/// 35,000 years): keeps derived time arithmetic far from overflow.
pub const MAX_ELAPSED_MS: i64 = 0x4_0000_0000_0000;

#[verifier::external_type_specification]
#[verifier::external_body]
pub struct ExInstant(std::time::Instant);

/// Relies on `std::time::Instant::now`: an opaque timestamp of the monotonic
/// machine clock.  Nothing is promised of its value.
#[verifier::external_body]
fn instant_now() -> (r: std::time::Instant) {
    std::time::Instant::now()
}

/// Relies on `std::time::Instant::saturating_duration_since`: the time from
/// `earlier` to `later`, zero if `earlier` is the later of the two; it never
/// panics.  Nothing is promised of its value.
#[verifier::external_body]
fn duration_between(earlier: &std::time::Instant, later: &std::time::Instant) -> (r:
    core::time::Duration) {
    later.saturating_duration_since(*earlier)
}

/// Relies on `core::time::Duration::as_millis`: the duration in whole
/// milliseconds.  Nothing is promised of its value.
#[verifier::external_body]
fn duration_as_millis(d: &core::time::Duration) -> (r: u128) {
    d.as_millis()
}

/// The elapsed-time source driving playback position.
pub struct TransportClock {
    running: bool,
    elapsed_ms: i64,
    last_instant: std::time::Instant,
}

impl TransportClock {
    /// Whether elapsed time is advancing.
    pub closed spec fn running(&self) -> bool {
        self.running
    }

    /// Elapsed time in milliseconds, as of the last update or seek.
    pub closed spec fn elapsed_ms(&self) -> i64 {
        self.elapsed_ms
    }

    /// Elapsed time stays within the representable window.
    pub open spec fn wf(&self) -> bool {
        0 <= self.elapsed_ms() <= MAX_ELAPSED_MS
    }

    /// A fresh clock: frozen at zero.
    pub fn new() -> (r: TransportClock)
        ensures
            r.wf(),
            !r.running(),
            r.elapsed_ms() == 0,
    {
        TransportClock { running: false, elapsed_ms: 0, last_instant: instant_now() }
    }

    /// Begin advancing from the current elapsed value; idempotent when
    /// already running.
    pub fn start(&mut self)
        requires
            old(self).wf(),
        ensures
            final(self).wf(),
            final(self).running(),
            final(self).elapsed_ms() == old(self).elapsed_ms(),
    {
        self.running = true;
        self.last_instant = instant_now();
    }

    /// Toggle between advancing and frozen without touching elapsed time.
    pub fn pause_resume(&mut self)
        requires
            old(self).wf(),
        ensures
            final(self).wf(),
            final(self).running() == !old(self).running(),
            final(self).elapsed_ms() == old(self).elapsed_ms(),
    {
        if !self.running {
            self.last_instant = instant_now();
        }
        self.running = !self.running;
    }

    /// Seek: set elapsed time directly, leaving the run state unchanged.
    pub fn set_time(&mut self, t_ms: i64)
        requires
            old(self).wf(),
            0 <= t_ms <= MAX_ELAPSED_MS,
        ensures
            final(self).wf(),
            final(self).running() == old(self).running(),
            final(self).elapsed_ms() == t_ms,
    {
        self.elapsed_ms = t_ms;
        self.last_instant = instant_now();
    }

    /// Advance elapsed time by the wall-clock delta since the previous
    /// update; a no-op while frozen.  Elapsed time never decreases here and
    /// never leaves the representable window.
    pub fn update(&mut self)
        requires
            old(self).wf(),
        ensures
            final(self).wf(),
            final(self).running() == old(self).running(),
            !old(self).running() ==> final(self).elapsed_ms() == old(self).elapsed_ms(),
            old(self).running() ==> old(self).elapsed_ms() <= final(self).elapsed_ms()
                <= MAX_ELAPSED_MS,
    {
        if self.running {
            let now = instant_now();
            let d = duration_between(&self.last_instant, &now);
            let delta = duration_as_millis(&d);
            let room: i64 = MAX_ELAPSED_MS - self.elapsed_ms;
            let step: i64 = if delta > (room as u128) {
                room
            } else {
                delta as i64
            };
            self.elapsed_ms = self.elapsed_ms + step;
            self.last_instant = now;
        }
    }

    /// Whether elapsed time is advancing.
    pub fn is_running(&self) -> (r: bool)
        ensures
            r == self.running(),
    {
        self.running
    }

    /// Current elapsed time in milliseconds.
    pub fn get_elapsed(&self) -> (r: i64)
        ensures
            r == self.elapsed_ms(),
    {
        self.elapsed_ms
    }
}

} // verus!
