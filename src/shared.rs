//! One log shared by concurrent callers, each holding it alone from the
//! moment it takes it until it hands it back.

use crate::todoer::{LogError, Todoer};
use vstd::prelude::*;
use vstd::rwlock::{RwLock, RwLockPredicate, WriteHandle};

verus! {

/// What every log held in a `SharedLog` satisfies between two holders: its
/// items are keyed by exactly the ordinals below its size.
pub struct Indexed;

impl RwLockPredicate<Todoer> for Indexed {
    open spec fn inv(self, v: Todoer) -> bool {
        v.indexed()
    }
}

/// A log that concurrent callers take in turn.
pub struct SharedLog {
    lock: RwLock<Todoer, Indexed>,
}

/// Sole access to the log of a `SharedLog`, until `release`.
pub struct LogGuard<'a> {
    log: Todoer,
    handle: WriteHandle<'a, Todoer, Indexed>,
}

impl SharedLog {
    /// Shares `log`.
    pub fn new(log: Todoer) -> (r: SharedLog)
        requires
            log.indexed(),
    {
        SharedLog { lock: RwLock::new(log, Ghost(Indexed)) }
    }

    /// Waits until no one else holds the log, then holds it.
    pub fn lock(&self) -> (g: LogGuard<'_>)
        ensures
            g.current().indexed(),
    {
        let (log, handle) = self.lock.acquire_write();
        LogGuard { log, handle }
    }
}

impl<'a> LogGuard<'a> {
    #[verifier::type_invariant]
    spec fn inv(&self) -> bool {
        &&& self.log.indexed()
        &&& self.handle.rwlock().pred() == Indexed
    }

    /// The log as it stands.
    pub closed spec fn current(&self) -> Todoer {
        self.log
    }

    /// The log, to read or to store.
    pub fn log(&self) -> (r: &Todoer)
        ensures
            *r == self.current(),
            r.indexed(),
    {
        proof {
            use_type_invariant(self);
        }
        &self.log
    }

    /// `Todoer::set_value` on the held log.
    pub fn set_value(self, name: String) -> (g: LogGuard<'a>)
        requires
            self.current().size < u32::MAX,
        ensures
            g.current().indexed(),
            self.current().wf() ==> g.current().wf(),
            g.current().entries() == self.current().entries().push((name@, false)),
            g.current().size == self.current().size + 1,
            g.current().done_count == self.current().done_count,
            g.current().config == self.current().config,
    {
        proof {
            use_type_invariant(&self);
        }
        let LogGuard { mut log, handle } = self;
        log.set_value(name);
        LogGuard { log, handle }
    }

    /// `Todoer::mark_done` on the held log.
    pub fn mark_done(self, index: u32) -> (r: (LogGuard<'a>, Result<(), LogError>))
        requires
            index < self.current().size ==> self.current().done_count < u32::MAX,
        ensures
            r.0.current().indexed(),
            self.current().wf() ==> r.0.current().wf(),
            index < self.current().size ==> {
                &&& r.1 is Ok
                &&& r.0.current().entries() == self.current().entries().update(
                    index as int,
                    (self.current().entries()[index as int].0, true),
                )
                &&& r.0.current().size == self.current().size
                &&& r.0.current().done_count == self.current().done_count + 1
                &&& r.0.current().config == self.current().config
            },
            index >= self.current().size ==> r.1 == Err::<(), LogError>(LogError::OutOfRange),
            index >= self.current().size ==> r.0.current() == self.current(),
    {
        proof {
            use_type_invariant(&self);
        }
        let LogGuard { mut log, handle } = self;
        let r = log.mark_done(index);
        (LogGuard { log, handle }, r)
    }

    /// `Todoer::remove_value` on the held log.
    pub fn remove_value(self, index: u32) -> (r: (LogGuard<'a>, Result<(), LogError>))
        requires
            index < self.current().size && self.current().entries()[index as int].1
                ==> self.current().done_count >= 1,
        ensures
            r.0.current().indexed(),
            self.current().wf() ==> r.0.current().wf(),
            index < self.current().size ==> {
                &&& r.1 is Ok
                &&& r.0.current().entries() == self.current().entries().remove(index as int)
                &&& r.0.current().size == self.current().size - 1
                &&& r.0.current().done_count == self.current().done_count - if self.current().entries()[index as int].1 {
                    1int
                } else {
                    0int
                }
                &&& r.0.current().config == self.current().config
            },
            index >= self.current().size ==> r.1 == Err::<(), LogError>(LogError::OutOfRange),
            index >= self.current().size ==> r.0.current() == self.current(),
    {
        proof {
            use_type_invariant(&self);
        }
        let LogGuard { mut log, handle } = self;
        let r = log.remove_value(index);
        (LogGuard { log, handle }, r)
    }

    /// Hands the log back, for the next caller to take.
    pub fn release(self) {
        proof {
            use_type_invariant(&self);
        }
        let LogGuard { log, handle } = self;
        handle.release_write(log);
    }
}

} // verus!
