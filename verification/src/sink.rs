//! The outbound side of the engine: start/stop signals owed to the output
//! device.
//!
//! The engine is the only component allowed to emit signals.  They are queued
//! here in order; the host collects the queue after each tick and forwards
//! each signal to the real device.  A ghost log keeps the complete emission
//! history, so the engine's guarantees (for instance, that starts and stops
//! for one note always alternate) are stated over everything ever emitted,
//! not just over what the host has yet to collect.

use vstd::prelude::*;

verus! {

/// A single fire-and-forget signal for the output device.
///
/// The wire-level signal is `(ch, note, vel)` for a start and `(ch, note)`
/// for a stop; `id` records which note event the signal belongs to, so hosts
/// and proofs can attribute signals to notes.
#[derive(Clone, Copy, PartialEq, Eq, Structural, Debug)]
pub enum SinkCall {
    /// Begin sounding a note.
    NoteOn { id: usize, ch: u8, note: u8, vel: u8 },
    /// Stop sounding a note.
    NoteOff { id: usize, ch: u8, note: u8 },
}

impl SinkCall {
    /// The note event this signal belongs to.
    pub open spec fn call_id(self) -> usize {
        match self {
            SinkCall::NoteOn { id, .. } => id,
            SinkCall::NoteOff { id, .. } => id,
        }
    }

    /// Whether this is a start signal.
    pub open spec fn is_on(self) -> bool {
        self is NoteOn
    }
}

/// The queue of signals the engine has emitted and the host has not yet
/// collected, together with the ghost log of every signal ever emitted.
pub struct OutputSink {
    pending: Vec<SinkCall>,
    log: Ghost<Seq<SinkCall>>,
}

impl OutputSink {
    /// Every signal ever emitted through this sink, in emission order,
    /// collected ones included.
    pub closed spec fn history(&self) -> Seq<SinkCall> {
        self.log@
    }

    /// The signals emitted and not yet collected, in emission order.
    pub closed spec fn pending(&self) -> Seq<SinkCall> {
        self.pending@
    }

    /// The queue is always the tail end of the history.
    pub open spec fn wf(&self) -> bool {
        &&& self.pending().len() <= self.history().len()
        &&& self.pending() == self.history().subrange(
            self.history().len() - self.pending().len(),
            self.history().len() as int,
        )
    }

    /// A fresh sink with nothing emitted.
    pub fn new() -> (r: OutputSink)
        ensures
            r.wf(),
            r.history() == Seq::<SinkCall>::empty(),
            r.pending() == Seq::<SinkCall>::empty(),
    {
        let r = OutputSink { pending: Vec::new(), log: Ghost(Seq::empty()) };
        proof {
            assert(r.pending() =~= r.history().subrange(0, 0));
        }
        r
    }

    /// Queue a start signal.
    pub(crate) fn note_on(&mut self, id: usize, ch: u8, note: u8, vel: u8)
        requires
            old(self).wf(),
        ensures
            final(self).wf(),
            final(self).history() == old(self).history().push(
                SinkCall::NoteOn { id, ch, note, vel },
            ),
            final(self).pending() == old(self).pending().push(
                SinkCall::NoteOn { id, ch, note, vel },
            ),
    {
        let c = SinkCall::NoteOn { id, ch, note, vel };
        self.pending.push(c);
        proof {
            self.log@ = self.log@.push(c);
            assert(self.pending() =~= self.history().subrange(
                self.history().len() - self.pending().len(),
                self.history().len() as int,
            ));
        }
    }

    /// Queue a stop signal.
    pub(crate) fn note_off(&mut self, id: usize, ch: u8, note: u8)
        requires
            old(self).wf(),
        ensures
            final(self).wf(),
            final(self).history() == old(self).history().push(SinkCall::NoteOff { id, ch, note }),
            final(self).pending() == old(self).pending().push(SinkCall::NoteOff { id, ch, note }),
    {
        let c = SinkCall::NoteOff { id, ch, note };
        self.pending.push(c);
        proof {
            self.log@ = self.log@.push(c);
            assert(self.pending() =~= self.history().subrange(
                self.history().len() - self.pending().len(),
                self.history().len() as int,
            ));
        }
    }

    /// Read the uncollected signals without collecting them.
    pub fn calls(&self) -> (r: &Vec<SinkCall>)
        ensures
            r@ == self.pending(),
    {
        &self.pending
    }

    /// Hand the uncollected signals to the host and empty the queue; the
    /// history keeps them.
    pub fn take_calls(&mut self) -> (r: Vec<SinkCall>)
        requires
            old(self).wf(),
        ensures
            final(self).wf(),
            r@ == old(self).pending(),
            final(self).pending() == Seq::<SinkCall>::empty(),
            final(self).history() == old(self).history(),
    {
        let mut out: Vec<SinkCall> = Vec::new();
        core::mem::swap(&mut out, &mut self.pending);
        proof {
            assert(self.pending() =~= self.history().subrange(
                self.history().len() as int,
                self.history().len() as int,
            ));
        }
        out
    }
}

} // verus!
