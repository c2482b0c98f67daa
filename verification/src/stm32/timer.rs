//! Waiting for deadlines.

use vstd::prelude::*;

use crate::time::Instant;

verus! {

/// What to do about the deadlines of frames.
#[derive(Debug, Clone, Copy, PartialEq, Eq, Structural)]
pub enum Timer {
    /// A deadline has passed.
    Expired,
    /// Wait for the instant.
    At(Instant),
    /// There is no deadline.
    Never,
}

impl Timer {
    /// What to do at an instant about the earliest deadline.
    pub open spec fn about(deadline: Option<Instant>, now: Instant) -> Timer {
        match deadline {
            Some(t) => if t.ticks > now.ticks {
                Timer::At(t)
            } else {
                Timer::Expired
            },
            None => Timer::Never,
        }
    }

    /// Tells what to do about the earliest deadline. A timer yields at least once, so it is not
    /// used for a deadline that has passed.
    pub fn new(deadline: Option<Instant>, now: Instant) -> (r: Timer)
        ensures
            r == Timer::about(deadline, now),
    {
        match deadline {
            Some(t) => {
                if t.ticks > now.ticks {
                    Timer::At(t)
                } else {
                    Timer::Expired
                }
            },
            None => Timer::Never,
        }
    }
}

/// The timer runs until a deadline that lies ahead, has run out at the deadline and after it, and does
/// not run without a deadline.
pub proof fn law_timer(deadline: Option<Instant>, now: Instant)
    ensures
        Timer::about(deadline, now) is Never <==> deadline is None,
        Timer::about(deadline, now) is Expired <==> (deadline matches Some(t) && t.ticks <= now.ticks),
        Timer::about(deadline, now) matches Timer::At(t) ==> deadline == Some(t) && now.ticks < t.ticks,
{
}

} // verus!
