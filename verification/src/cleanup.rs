//! The signal between the scheduler and its cleanup worker.

use vstd::prelude::*;

verus! {

/// Why the cleanup worker is to wake up before its timer runs out.
#[derive(Clone, Copy, Debug, PartialEq, Eq, Structural)]
pub enum CleanupContextStopReason {
    /// Nothing has been signalled: the worker may sleep on.
    Idle,
    /// The worker is to end.
    Stop,
    /// The worker is to drop its timer and plan its sleep anew.
    Restart,
}

/// The state that the scheduler and its cleanup worker share to steer the
/// worker: the reason of the last signal that the worker has not yet taken.
pub struct CleanupContext {
    wake_reason: CleanupContextStopReason,
}

impl View for CleanupContext {
    type V = CleanupContextStopReason;

    closed spec fn view(&self) -> CleanupContextStopReason {
        self.wake_reason
    }
}

impl CleanupContext {
    /// A context in which nothing has been signalled.
    pub fn new() -> (context: Self)
        ensures
            context@ == CleanupContextStopReason::Idle,
    {
        Self { wake_reason: CleanupContextStopReason::Idle }
    }

    /// The signal that is waiting for the worker.
    pub fn wake_reason(&self) -> (reason: CleanupContextStopReason)
        ensures
            reason == self@,
    {
        self.wake_reason
    }

    /// Whether the worker has nothing to wake up for.
    pub fn is_quiet(&self) -> (quiet: bool)
        ensures
            quiet == (self@ == CleanupContextStopReason::Idle),
    {
        self.wake_reason == CleanupContextStopReason::Idle
    }

    /// Leaves `reason` for the worker, in place of whatever was waiting.
    pub fn signal(&mut self, reason: CleanupContextStopReason)
        ensures
            final(self)@ == reason,
    {
        self.wake_reason = reason;
    }
}

} // verus!
