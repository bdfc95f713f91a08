//! The counting discipline of the wait-group primitive that lets one part
//! of the program wait for outstanding work to drain.
//!
//! Cloning a handle increments the count, dropping one decrements it, and a
//! waiter proceeds once the count reaches zero. This module verifies that
//! counting discipline; the blocking itself (parking a thread until another
//! thread's decrement wakes it) belongs to the runtime around the library,
//! which consults `notify_if_empty` to decide when waiters may go.

use vstd::prelude::*;

verus! {

/// A counted-down synchronization gate.
pub struct WaitGroup {
    counter: usize,
}

impl WaitGroup {
    /// Number of outstanding handles.
    pub closed spec fn count(&self) -> nat {
        self.counter as nat
    }

    /// A fresh group has no outstanding work: it is immediately done.
    pub fn new() -> (r: WaitGroup)
        ensures
            r.count() == 0,
    {
        WaitGroup { counter: 0 }
    }

    /// Wait until the count reaches zero.
    ///
    /// Within the library's single-threaded semantics nothing else can lower
    /// the count, so waiting is meaningful only on a drained group, where it
    /// returns at once; blocking for another thread's `done` is the
    /// runtime's part.
    pub fn wait(&self)
        requires
            self.count() == 0,
    {
    }

    /// One more outstanding unit of work (a handle was cloned).
    pub fn increment_counter(&mut self)
        requires
            old(self).count() < usize::MAX,
        ensures
            final (self).count() == old(self).count() + 1,
    {
        self.counter = self.counter + 1;
    }

    /// One unit of work finished (a handle was dropped). A group that is
    /// already drained stays drained.
    pub fn done(&mut self)
        ensures
            final (self).count() == if old(self).count() > 0 {
                (old(self).count() - 1) as nat
            } else {
                0nat
            },
    {
        if self.counter > 0 {
            self.counter = self.counter - 1;
        }
    }

    /// Whether waiters are to be woken for the given observed count: exactly
    /// when the count reached zero.
    pub fn notify_if_empty(&self, count: usize) -> (r: bool)
        ensures
            r == (count == 0),
    {
        count == 0
    }
}

} // verus!
