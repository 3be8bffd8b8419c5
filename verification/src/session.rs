//! A running transcription session's handle.

use vstd::prelude::*;
use crate::capture::CaptureControl;
use std::sync::Arc;
use std::sync::atomic::AtomicBool;

verus! {

/// A running session: its captures and the flag that keeps its resource
/// monitor going.
pub struct SessionHandle {
    captures: Vec<CaptureControl>,
    stop_flag: Arc<AtomicBool>,
}

impl SessionHandle {
    /// A handle over the given captures and monitor flag.
    pub fn new(captures: Vec<CaptureControl>, stop_flag: Arc<AtomicBool>) -> (h: Self)
        ensures
            h.capture_list() == captures@,
    {
        SessionHandle { captures, stop_flag }
    }

    /// The captures of the session.
    pub closed spec fn capture_list(&self) -> Seq<CaptureControl> {
        self.captures@
    }

    /// The number of captures the session runs.
    pub fn capture_count(&self) -> (n: usize)
        ensures
            n == self.capture_list().len(),
    {
        self.captures.len()
    }

    /// Stops the session: clears the monitor flag, then stops every
    /// capture in order.
    pub fn stop(self) {
        self.stop_flag.store(false, std::sync::atomic::Ordering::Relaxed);
        let mut captures = self.captures;
        while captures.len() > 0
            decreases captures.len(),
        {
            let c = captures.remove(0);
            c.stop();
        }
    }
}

/// Folds one transcript update into the session's running log: a
/// replacing update sets the log to its committed tokens, any other update
/// appends them.
pub fn apply_committed<T>(log: &mut Vec<T>, new_committed: Vec<T>, replace: bool)
    ensures
        replace ==> final(log)@ == new_committed@,
        !replace ==> final(log)@ == old(log)@ + new_committed@,
{
    if replace {
        *log = new_committed;
    } else {
        let mut more = new_committed;
        log.append(&mut more);
    }
}

} // verus!
