//! The decisions of the long poll: answer now, or wait one more interval.
//!
//! The poll reads the session's settled state and, while nothing has been
//! submitted, the review has not ended and it is not closed, waits — one
//! heartbeat per interval — up to a bound. Reading, waiting and the heartbeat
//! are the caller's; what to do after each read is decided here.
use vstd::prelude::*;

verus! {

/// What the poll does after a read of the log.
#[derive(Debug, Clone, Copy, PartialEq, Eq, Structural)]
pub enum PollAction {
    /// Hand back what has settled.
    Answer,
    /// Beat the heartbeat, wait one interval, and read again; `next` is the
    /// number of intervals waited after this one.
    Wait { next: u32 },
}

/// What the poll does after a read taken when `waited` intervals have
/// already passed out of `max_ticks`: it answers as soon as anything has
/// settled, the review has ended or closed, or the bound is reached. Each
/// wait counts one more interval and never passes the bound, so the wait is
/// bounded, and a closed review never keeps the caller waiting.
pub fn poll_step(waited: u32, max_ticks: u32, has_items: bool, ended: bool, closed: bool) -> (a:
    PollAction)
    ensures
        a == PollAction::Answer <==> (has_items || ended || closed || waited >= max_ticks),
        a matches PollAction::Wait { next } ==> next == waited + 1 && next <= max_ticks,
{
    if has_items || ended || closed || waited >= max_ticks {
        PollAction::Answer
    } else {
        PollAction::Wait { next: waited + 1 }
    }
}

} // verus!
