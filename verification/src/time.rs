//! Instants and durations, counted in clock ticks.
//!
//! The arithmetic and the unit conversions are those of `embassy_time`; the functions at the end
//! of this file hand the tick counts over to it.
use vstd::prelude::*;

verus! {

/// Clock ticks per second.
pub const TICK_HZ: u64 = 1_000_000;

/// A point in time, in ticks since startup.
#[derive(Clone, Copy, Debug, PartialEq, Eq, Structural)]
pub struct Instant {
    pub ticks: u64,
}

/// A span of time, in ticks.
#[derive(Clone, Copy, Debug, PartialEq, Eq, Structural)]
pub struct Duration {
    pub ticks: u64,
}

/// Whole milliseconds in `ticks`, rounded down.
pub open spec fn millis_in(ticks: int) -> int {
    ticks * 1000 / (TICK_HZ as int)
}

/// Ticks in `millis` milliseconds, rounded down.
pub open spec fn ticks_in(millis: int) -> int {
    millis * (TICK_HZ as int) / 1000
}

impl Instant {
    /// The current time. Nothing is promised of the reading.
    pub fn now() -> Instant {
        Instant { ticks: clock_now() }
    }

    /// The instant `duration` later, if it can be represented.
    pub fn checked_add(self, duration: Duration) -> (later: Option<Instant>)
        ensures
            later == if self.ticks + duration.ticks <= u64::MAX {
                Some(Instant { ticks: (self.ticks + duration.ticks) as u64 })
            } else {
                None
            },
    {
        match instant_checked_add(self.ticks, duration.ticks) {
            Some(ticks) => Some(Instant { ticks }),
            None => None,
        }
    }

    /// The instant `duration` earlier, if it does not lie before startup.
    pub fn checked_sub(self, duration: Duration) -> (earlier: Option<Instant>)
        ensures
            earlier == if self.ticks >= duration.ticks {
                Some(Instant { ticks: (self.ticks - duration.ticks) as u64 })
            } else {
                None
            },
    {
        match instant_checked_sub(self.ticks, duration.ticks) {
            Some(ticks) => Some(Instant { ticks }),
            None => None,
        }
    }

    /// The time since `earlier`, unless `earlier` lies in the future of `self`.
    pub fn checked_duration_since(self, earlier: Instant) -> (elapsed: Option<Duration>)
        ensures
            elapsed == if self.ticks >= earlier.ticks {
                Some(Duration { ticks: (self.ticks - earlier.ticks) as u64 })
            } else {
                None
            },
    {
        match instant_checked_duration_since(self.ticks, earlier.ticks) {
            Some(ticks) => Some(Duration { ticks }),
            None => None,
        }
    }

    /// Whole milliseconds since startup.
    pub fn as_millis(self) -> (millis: u64)
        ensures
            millis == millis_in(self.ticks as int),
    {
        instant_as_millis(self.ticks)
    }

    /// The instant `millis` milliseconds after startup.
    pub fn from_millis(millis: u64) -> (instant: Instant)
        requires
            ticks_in(millis as int) <= u64::MAX,
        ensures
            instant.ticks == ticks_in(millis as int),
    {
        Instant { ticks: instant_from_millis(millis) }
    }
}

impl Duration {
    /// A span of `secs` seconds.
    pub fn from_secs(secs: u64) -> (duration: Duration)
        requires
            secs * TICK_HZ <= u64::MAX,
        ensures
            duration.ticks == secs * TICK_HZ,
    {
        Duration { ticks: duration_from_secs(secs) }
    }

    /// A span of `millis` milliseconds.
    pub fn from_millis(millis: u64) -> (duration: Duration)
        requires
            ticks_in(millis as int) <= u64::MAX,
        ensures
            duration.ticks == ticks_in(millis as int),
    {
        Duration { ticks: duration_from_millis(millis) }
    }

    /// The two spans one after the other, if their sum can be represented.
    pub fn checked_add(self, other: Duration) -> (sum: Option<Duration>)
        ensures
            sum == if self.ticks + other.ticks <= u64::MAX {
                Some(Duration { ticks: (self.ticks + other.ticks) as u64 })
            } else {
                None
            },
    {
        match duration_checked_add(self.ticks, other.ticks) {
            Some(ticks) => Some(Duration { ticks }),
            None => None,
        }
    }
}

/// `embassy_time::Instant::now`: a reading of the tick counter of the time driver in use, of which
/// nothing is claimed.
#[verifier::external_body]
fn clock_now() -> u64 {
    embassy_time::Instant::now().as_ticks()
}

/// `embassy_time::Instant::checked_add`: adds the tick counts, or gives `None` where the sum does
/// not fit in 64 bits.
#[verifier::external_body]
fn instant_checked_add(instant: u64, duration: u64) -> (later: Option<u64>)
    ensures
        later == if instant + duration <= u64::MAX {
            Some((instant + duration) as u64)
        } else {
            None
        },
{
    embassy_time::Instant::from_ticks(instant).checked_add(
        embassy_time::Duration::from_ticks(duration),
    ).map(|later| later.as_ticks())
}

/// `embassy_time::Instant::checked_sub`: subtracts the tick counts, or gives `None` where the
/// difference is negative.
#[verifier::external_body]
fn instant_checked_sub(instant: u64, duration: u64) -> (earlier: Option<u64>)
    ensures
        earlier == if instant >= duration {
            Some((instant - duration) as u64)
        } else {
            None
        },
{
    embassy_time::Instant::from_ticks(instant).checked_sub(
        embassy_time::Duration::from_ticks(duration),
    ).map(|earlier| earlier.as_ticks())
}

/// `embassy_time::Instant::checked_duration_since`: the ticks from `earlier` to `instant`, or
/// `None` where `earlier` is the later of the two.
#[verifier::external_body]
fn instant_checked_duration_since(instant: u64, earlier: u64) -> (elapsed: Option<u64>)
    ensures
        elapsed == if instant >= earlier {
            Some((instant - earlier) as u64)
        } else {
            None
        },
{
    embassy_time::Instant::from_ticks(instant).checked_duration_since(
        embassy_time::Instant::from_ticks(earlier),
    ).map(|elapsed| elapsed.as_ticks())
}

/// `embassy_time::Instant::as_millis`: milliseconds since startup, rounded down. At [`TICK_HZ`]
/// ticks per second the conversion divides by a whole number, so it cannot overflow.
#[verifier::external_body]
fn instant_as_millis(ticks: u64) -> (millis: u64)
    ensures
        millis == millis_in(ticks as int),
{
    embassy_time::Instant::from_ticks(ticks).as_millis()
}

/// `embassy_time::Instant::from_millis`: the tick count after that many milliseconds.
#[verifier::external_body]
fn instant_from_millis(millis: u64) -> (ticks: u64)
    requires
        ticks_in(millis as int) <= u64::MAX,
    ensures
        ticks == ticks_in(millis as int),
{
    embassy_time::Instant::from_millis(millis).as_ticks()
}

/// `embassy_time::Duration::from_secs`: the seconds times [`TICK_HZ`].
#[verifier::external_body]
fn duration_from_secs(secs: u64) -> (ticks: u64)
    requires
        secs * TICK_HZ <= u64::MAX,
    ensures
        ticks == secs * TICK_HZ,
{
    embassy_time::Duration::from_secs(secs).as_ticks()
}

/// `embassy_time::Duration::from_millis`: the ticks of that many milliseconds. A millisecond is a
/// whole number of ticks at [`TICK_HZ`], so nothing is rounded.
#[verifier::external_body]
fn duration_from_millis(millis: u64) -> (ticks: u64)
    requires
        ticks_in(millis as int) <= u64::MAX,
    ensures
        ticks == ticks_in(millis as int),
{
    embassy_time::Duration::from_millis(millis).as_ticks()
}

/// `embassy_time::Duration::checked_add`: adds the tick counts, or gives `None` where the sum does
/// not fit in 64 bits.
#[verifier::external_body]
fn duration_checked_add(first: u64, second: u64) -> (sum: Option<u64>)
    ensures
        sum == if first + second <= u64::MAX {
            Some((first + second) as u64)
        } else {
            None
        },
{
    embassy_time::Duration::from_ticks(first).checked_add(
        embassy_time::Duration::from_ticks(second),
    ).map(|sum| sum.as_ticks())
}

/// Milliseconds are whole ones, rounded down: the instant lies in the millisecond that is given for
/// it. There are a thousand to the second.
pub proof fn law_milliseconds_round_down(ticks: int)
    requires
        0 <= ticks,
    ensures
        ticks_in(millis_in(ticks)) <= ticks < ticks_in(millis_in(ticks) + 1),
        ticks_in(1000) == TICK_HZ,
{
}

/// Milliseconds come back from ticks as they were, and more milliseconds are as many more ticks.
pub proof fn law_milliseconds_come_back(millis: int, more: int)
    ensures
        millis_in(ticks_in(millis)) == millis,
        ticks_in(millis + more) == ticks_in(millis) + ticks_in(more),
{
}

} // verus!
