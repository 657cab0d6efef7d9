//! A playback/transport engine for a timed sequence of musical note events.
//!
//! The engine converts a running transport clock into the set of notes that
//! are currently sounding, decides when start and stop signals are owed to an
//! output device, and produces a per-key snapshot for visual consumers, all
//! under play, pause and arbitrary seek operations.  Times are carried as
//! whole milliseconds throughout.

pub mod clock;
pub mod laws;
pub mod note;
pub mod player;
pub mod sink;
