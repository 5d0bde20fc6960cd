use vstd::prelude::*;

verus! {

/// What to do after one look at the time synchronisation status.
#[derive(Debug, Clone, Copy, PartialEq, Eq, Structural)]
pub enum SyncStep {
    /// The clock is set: stop waiting.
    Synced,
    /// The time allowed has passed without a sync: give up.
    TimedOut,
    /// Look again after a pause.
    Wait,
}

/// Decides the next step of the wait for time sync, given whether the sync
/// has completed and how long (in nanoseconds) the wait has lasted so far
/// against the time allowed. A completed sync wins over a timeout.
pub fn sync_step(completed: bool, elapsed_nanos: u128, timeout_nanos: u128) -> (r: SyncStep)
    ensures
        r == (if completed {
            SyncStep::Synced
        } else if elapsed_nanos > timeout_nanos {
            SyncStep::TimedOut
        } else {
            SyncStep::Wait
        }),
{
    if completed {
        SyncStep::Synced
    } else if elapsed_nanos > timeout_nanos {
        SyncStep::TimedOut
    } else {
        SyncStep::Wait
    }
}

} // verus!
