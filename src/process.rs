//! Identity of a process instance that survives PID reuse.
use vstd::prelude::*;

verus! {

/// A process instance: its PID together with the start time the kernel gave
/// it, so that a later process that reuses the PID is told apart.
#[derive(Clone, Copy, Debug, PartialEq, Eq, Structural)]
pub struct ProcessHandle {
    pub pid: u32,
    pub start_time: u64,
}

impl ProcessHandle {
    /// A handle for `pid`, given the start time of the process that now holds
    /// it; `None` when no process holds it.
    pub fn from_pid(pid: u32, start_time: Option<u64>) -> (r: Option<ProcessHandle>)
        ensures
            match start_time {
                None => r is None,
                Some(t) => r == Some(ProcessHandle { pid, start_time: t }),
            },
    {
        match start_time {
            None => None,
            Some(t) => Some(ProcessHandle { pid, start_time: t }),
        }
    }

    /// Whether the process this handle was taken for still runs, given the
    /// start time of whatever process now holds the same PID.
    pub fn is_alive(&self, current_start_time: Option<u64>) -> (r: bool)
        ensures
            r == (current_start_time == Some(self.start_time)),
    {
        match current_start_time {
            None => false,
            Some(t) => t == self.start_time,
        }
    }
}

} // verus!
