use vstd::prelude::*;

verus! {

/// How many times a writer tries to take the store's lock before it gives up.
pub const DEFAULT_LOCK_ATTEMPTS: u32 = 50;

/// What came of one try to take the lock.
#[derive(Debug, Clone, Copy, PartialEq, Eq, Structural)]
pub enum LockEvent {
    /// The lock was taken.
    Acquired,
    /// Another invocation holds it.
    Busy,
}

/// What to do after a try.
#[derive(Debug, Clone, Copy, PartialEq, Eq, Structural)]
pub enum LockAction {
    /// Go on with the load, the changes and the save.
    Proceed,
    /// Wait a moment, then try again.
    Retry,
    /// Stop: the lock could not be had within the bounded wait.
    TimedOut,
}

/// The action after the try numbered `attempt` (from 1) out of at most
/// `max_attempts`.
pub open spec fn lock_action(attempt: u32, max_attempts: u32, event: LockEvent) -> LockAction {
    match event {
        LockEvent::Acquired => LockAction::Proceed,
        LockEvent::Busy => if attempt >= max_attempts {
            LockAction::TimedOut
        } else {
            LockAction::Retry
        },
    }
}

/// Decides what follows one try to take the lock: go on once it is taken,
/// try again while tries are left, and time out after the last one.
pub fn next_lock_action(attempt: u32, max_attempts: u32, event: LockEvent) -> (r: LockAction)
    ensures
        r == lock_action(attempt, max_attempts, event),
{
    match event {
        LockEvent::Acquired => LockAction::Proceed,
        LockEvent::Busy => {
            if attempt >= max_attempts {
                LockAction::TimedOut
            } else {
                LockAction::Retry
            }
        },
    }
}

} // verus!
