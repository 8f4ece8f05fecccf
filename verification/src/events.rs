//! Interest sets: the event kinds a connection currently wants to be
//! notified about (readable, writable, hangup, error).
use vstd::prelude::*;

verus! {

/// The set of readiness events a connection is interested in.
///
/// Hangup and error monitoring is always active for a live connection, so a
/// well-formed interest set keeps `hup` and `error` on; the constructors and
/// update methods preserve this.
#[derive(Clone, Copy, PartialEq, Eq, Structural, Debug)]
pub struct EventSet {
    pub readable: bool,
    pub writable: bool,
    pub hup: bool,
    pub error: bool,
}

impl EventSet {
    /// The interest set of an idle connection: readable plus the always-on
    /// hangup/error monitoring.
    pub fn idle() -> (r: EventSet)
        ensures
            r == (EventSet { readable: true, writable: false, hup: true, error: true }),
    {
        EventSet { readable: true, writable: false, hup: true, error: true }
    }

    pub fn with_readable(self) -> (r: EventSet)
        ensures
            r == (EventSet { readable: true, ..self }),
    {
        EventSet { readable: true, ..self }
    }

    pub fn with_writable(self) -> (r: EventSet)
        ensures
            r == (EventSet { writable: true, ..self }),
    {
        EventSet { writable: true, ..self }
    }

    pub fn without_writable(self) -> (r: EventSet)
        ensures
            r == (EventSet { writable: false, ..self }),
    {
        EventSet { writable: false, ..self }
    }

    /// Hangup/error monitoring stays active for the connection's lifetime.
    pub open spec fn monitors_close(self) -> bool {
        self.hup && self.error
    }
}

} // verus!
