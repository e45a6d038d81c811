//! The result side of a detached process: the first exit status reported is
//! kept, so that every later wait gives the same answer.
use vstd::prelude::*;

verus! {

/// How a process ended.
#[derive(Clone, Copy, Debug, PartialEq, Eq, Structural)]
pub enum ExitStatus {
    /// It exited with this code.
    Exited(i32),
    /// A signal with this number ended it.
    Signaled(i32),
}

/// A handle on a detached process that any later caller may wait on.
pub struct Waiter {
    pid: u32,
    status: Option<ExitStatus>,
}

impl Waiter {
    /// The process, once its status is known.
    pub closed spec fn spec_status(&self) -> Option<ExitStatus> {
        self.status
    }

    /// The PID waited on.
    pub closed spec fn spec_pid(&self) -> u32 {
        self.pid
    }

    /// A handle on the process `pid`, whose status is not known yet.
    pub fn new(pid: u32) -> (r: Waiter)
        ensures
            r.spec_pid() == pid,
            r.spec_status() is None,
    {
        Waiter { pid, status: None }
    }

    /// The PID waited on.
    pub fn pid(&self) -> (r: u32)
        ensures
            r == self.spec_pid(),
    {
        self.pid
    }

    /// The status, if a wait already gave it; then no wait is needed.
    pub fn cached_status(&self) -> (r: Option<ExitStatus>)
        ensures
            r == self.spec_status(),
    {
        self.status
    }

    /// Takes the status that a blocking wait reported. The first one is kept:
    /// every call gives back the status that is kept.
    pub fn complete(&mut self, reported: ExitStatus) -> (r: ExitStatus)
        ensures
            r == match old(self).spec_status() {
                Some(s) => s,
                None => reported,
            },
            final(self).spec_status() == Some(r),
            final(self).spec_pid() == old(self).spec_pid(),
    {
        match self.status {
            Some(s) => s,
            None => {
                self.status = Some(reported);
                reported
            },
        }
    }
}

} // verus!
