//! Points in time and their distances, counted in ticks of the system clock.

use vstd::prelude::*;

verus! {

/// Clock ticks per second.
///
/// This is the rate that the `std` feature of `embassy-time` selects.
pub const TICK_HZ: u64 = 1_000_000;

/// A point in time: a number of ticks since the start of the clock.
#[derive(Debug, Clone, Copy, PartialEq, Eq, PartialOrd, Ord, Structural)]
pub struct Instant {
    /// Ticks since the start of the clock.
    pub ticks: u64,
}

/// A distance between two points in time.
#[derive(Debug, Clone, Copy, PartialEq, Eq, PartialOrd, Ord, Structural)]
pub struct Duration {
    /// Ticks between the two points.
    pub ticks: u64,
}

/// Calls `embassy_time::Instant::now`, which reads the clock. Nothing is known of the result.
#[verifier::external_body]
fn clock_now() -> (r: u64) {
    embassy_time::Instant::now().as_ticks()
}

/// Calls `embassy_time::Instant::saturating_add`: the sum of the ticks, or the largest instant
/// if the sum is not representable.
#[verifier::external_body]
fn instant_saturating_add(ticks: u64, duration: u64) -> (r: u64)
    ensures
        r == (if ticks + duration <= u64::MAX { ticks + duration } else { u64::MAX as int }),
{
    embassy_time::Instant::from_ticks(ticks)
        .saturating_add(embassy_time::Duration::from_ticks(duration))
        .as_ticks()
}

/// Calls `embassy_time::Instant::as_secs`: whole seconds, rounded down, at [`TICK_HZ`] ticks
/// per second.
#[verifier::external_body]
fn instant_as_secs(ticks: u64) -> (r: u64)
    ensures
        r == ticks / TICK_HZ,
{
    embassy_time::Instant::from_ticks(ticks).as_secs()
}

/// Calls `embassy_time::Duration::from_secs`: [`TICK_HZ`] ticks per second. The outside function
/// multiplies without a check, so the product has to be representable.
#[verifier::external_body]
fn duration_from_secs(secs: u64) -> (r: u64)
    requires
        secs * TICK_HZ <= u64::MAX,
    ensures
        r == secs * TICK_HZ,
{
    embassy_time::Duration::from_secs(secs).as_ticks()
}

impl Instant {
    /// Returns the earliest instant.
    pub fn min() -> (r: Instant)
        ensures
            r.ticks == 0,
    {
        Instant { ticks: 0 }
    }

    /// Returns the latest instant.
    pub fn max() -> (r: Instant)
        ensures
            r.ticks == u64::MAX,
    {
        Instant { ticks: u64::MAX }
    }

    /// Returns the current time. The clock decides; nothing is known of the result.
    pub fn now() -> Instant {
        Instant { ticks: clock_now() }
    }

    /// Returns the instant of a number of ticks.
    pub fn from_ticks(ticks: u64) -> (r: Instant)
        ensures
            r.ticks == ticks,
    {
        Instant { ticks }
    }

    /// Returns the number of ticks.
    pub fn as_ticks(&self) -> (r: u64)
        ensures
            r == self.ticks,
    {
        self.ticks
    }

    /// Returns the number of whole seconds since the start of the clock.
    pub fn as_secs(&self) -> (r: u64)
        ensures
            r == self.ticks / TICK_HZ,
    {
        instant_as_secs(self.ticks)
    }

    /// The instant that lies `duration` later, or the latest one.
    pub open spec fn plus(self, duration: Duration) -> Instant {
        if self.ticks + duration.ticks <= u64::MAX {
            Instant { ticks: (self.ticks + duration.ticks) as u64 }
        } else {
            Instant { ticks: u64::MAX }
        }
    }

    /// Returns the instant that lies `duration` later, or the latest one.
    pub fn saturating_add(self, duration: Duration) -> (r: Instant)
        ensures
            r == self.plus(duration),
    {
        Instant { ticks: instant_saturating_add(self.ticks, duration.ticks) }
    }
}

impl Duration {
    /// Returns the duration of a number of ticks.
    pub fn from_ticks(ticks: u64) -> (r: Duration)
        ensures
            r.ticks == ticks,
    {
        Duration { ticks }
    }

    /// Returns the duration of a number of seconds.
    pub fn from_secs(secs: u64) -> (r: Duration)
        requires
            secs * TICK_HZ <= u64::MAX,
        ensures
            r.ticks == secs * TICK_HZ,
    {
        Duration { ticks: duration_from_secs(secs) }
    }

    /// Returns the number of ticks.
    pub fn as_ticks(&self) -> (r: u64)
        ensures
            r == self.ticks,
    {
        self.ticks
    }
}

/// Adding a duration never leads back in time, and keeps the order of instants.
pub proof fn law_adding_keeps_order(a: Instant, b: Instant, d: Duration)
    requires
        a.ticks <= b.ticks,
    ensures
        a.ticks <= a.plus(d).ticks,
        a.plus(d).ticks <= b.plus(d).ticks,
{
}

/// The sum of an instant and a duration is exact, or the last instant if there is no such one.
pub proof fn law_sum_is_exact(a: Instant, d: Duration)
    ensures
        a.ticks + d.ticks <= u64::MAX ==> a.plus(d).ticks == a.ticks + d.ticks,
        a.ticks + d.ticks > u64::MAX ==> a.plus(d).ticks == u64::MAX,
{
}

} // verus!
