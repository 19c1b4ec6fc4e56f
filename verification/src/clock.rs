//! Points in time as plain numbers, and the two clocks the store reads.

use std::time::Duration;
use std::time::Instant;
use std::time::SystemTime;
use std::time::SystemTimeError;
use vstd::prelude::*;

verus! {

/// Nanoseconds in a second.
pub const NANOS_PER_SEC: u32 = 1_000_000_000;

/// A span of time in whole seconds and nanoseconds: the time since the Unix
/// epoch for wall-clock readings, the time since a cache was made for its
/// own clock, or a time to live.
#[derive(Clone, Copy, Debug, PartialEq, Eq, Structural)]
pub struct Timestamp {
    pub secs: u64,
    pub nanos: u32,
}

impl Timestamp {
    /// The span in nanoseconds.
    pub open spec fn total_nanos(self) -> int {
        self.secs * 1_000_000_000 + self.nanos
    }

    /// Whether `self` is no later than `other`.
    pub open spec fn le(self, other: Timestamp) -> bool {
        self.total_nanos() <= other.total_nanos()
    }

    /// Whether the nanoseconds are less than one second.
    pub open spec fn normal(self) -> bool {
        self.nanos < NANOS_PER_SEC
    }

    /// A span of whole seconds.
    pub fn from_secs(secs: u64) -> (t: Timestamp)
        ensures
            t == (Timestamp { secs, nanos: 0 }),
    {
        Timestamp { secs, nanos: 0 }
    }

    /// Whether `self` is no later than `other`.
    pub fn is_at_most(&self, other: &Timestamp) -> (r: bool)
        ensures
            r == self.le(*other),
    {
        self.as_nanos() <= other.as_nanos()
    }

    /// The later of two points in time.
    pub fn later_of(self, other: Timestamp) -> (t: Timestamp)
        ensures
            t == if self.le(other) { other } else { self },
    {
        if self.is_at_most(&other) {
            other
        } else {
            self
        }
    }

    /// The time from `self` to `now`, in nanoseconds; none where `now` is the
    /// earlier.
    pub open spec fn elapsed_until(self, now: Timestamp) -> int {
        if now.total_nanos() >= self.total_nanos() {
            now.total_nanos() - self.total_nanos()
        } else {
            0
        }
    }

    /// Whether at least `ttl` has passed at `now` since `self`.
    pub open spec fn expired(self, now: Timestamp, ttl: Timestamp) -> bool {
        self.elapsed_until(now) >= ttl.total_nanos()
    }

    /// The span in nanoseconds.
    pub fn as_nanos(&self) -> (n: u128)
        ensures
            n == self.total_nanos(),
    {
        self.secs as u128 * 1_000_000_000 + self.nanos as u128
    }

    /// Whether `self` is strictly earlier than `other`.
    pub fn is_before(&self, other: &Timestamp) -> (r: bool)
        ensures
            r == (self.total_nanos() < other.total_nanos()),
    {
        self.as_nanos() < other.as_nanos()
    }

    /// Whether at least `ttl` has passed at `now` since `self`; a `now`
    /// before `self` counts as no time passed.
    pub fn expired_at(&self, now: &Timestamp, ttl: &Timestamp) -> (r: bool)
        ensures
            r == self.expired(*now, *ttl),
    {
        let then: u128 = self.as_nanos();
        let current: u128 = now.as_nanos();
        let elapsed: u128 = if current >= then {
            current - then
        } else {
            0
        };
        elapsed >= ttl.as_nanos()
    }
}

/// `std::time::SystemTime`, a reading of the wall clock; opaque here.
#[verifier::external_type_specification]
#[verifier::external_body]
pub struct ExSystemTime(SystemTime);

/// `std::time::SystemTimeError`, the failure of `duration_since`; opaque
/// here.
#[verifier::external_type_specification]
#[verifier::external_body]
pub struct ExSystemTimeError(SystemTimeError);

/// `std::time::Instant`, a reading of the monotonic clock; opaque here.
#[verifier::external_type_specification]
#[verifier::external_body]
pub struct ExInstant(Instant);

/// `SystemTime::now` reads the wall clock; nothing is claimed of the reading.
pub assume_specification[ SystemTime::now ]() -> SystemTime;

/// `SystemTime::duration_since` measures from an earlier point; nothing is
/// claimed of the outcome.
pub assume_specification[ SystemTime::duration_since ](
    time: &SystemTime,
    earlier: SystemTime,
) -> Result<Duration, SystemTimeError>;

/// `Instant::now` reads the monotonic clock; nothing is claimed of the
/// reading.
pub assume_specification[ Instant::now ]() -> Instant;

/// `Instant::saturating_duration_since` measures the time from an earlier
/// instant, or gives no time where that instant is the later; nothing is
/// claimed of the outcome.
pub assume_specification[ Instant::saturating_duration_since ](
    instant: &Instant,
    earlier: Instant,
) -> Duration;

/// `Duration::as_secs` gives the whole seconds of a duration; nothing is
/// claimed of the number.
pub assume_specification[ Duration::as_secs ](duration: &Duration) -> u64;

/// `Duration::subsec_nanos` gives the fractional part of a duration in
/// nanoseconds, which std documents to be less than one billion.
pub assume_specification[ Duration::subsec_nanos ](duration: &Duration) -> (nanos: u32)
    ensures
        nanos < NANOS_PER_SEC,
;

/// The Unix epoch, `std::time::UNIX_EPOCH`.
#[verifier::external_body]
fn unix_epoch() -> SystemTime {
    std::time::UNIX_EPOCH
}

/// The plain form of a duration.
fn timestamp_of(duration: &Duration) -> (t: Timestamp)
    ensures
        t.normal(),
{
    Timestamp { secs: duration.as_secs(), nanos: duration.subsec_nanos() }
}

/// The wall-clock time since the Unix epoch. A clock set before the epoch
/// reads as the epoch itself.
pub fn wall_clock_now() -> (t: Timestamp)
    ensures
        t.normal(),
{
    let now = SystemTime::now();
    match now.duration_since(unix_epoch()) {
        Ok(duration) => timestamp_of(&duration),
        Err(_) => Timestamp { secs: 0, nanos: 0 },
    }
}

/// A clock that counts from the moment it was started, on std's monotonic
/// clock.
pub struct MonotonicClock {
    origin: Instant,
}

impl MonotonicClock {
    /// Starts a clock.
    pub fn start() -> MonotonicClock {
        MonotonicClock { origin: Instant::now() }
    }

    /// The time since the clock was started.
    pub fn now(&self) -> (t: Timestamp)
        ensures
            t.normal(),
    {
        let now = Instant::now();
        let elapsed = now.saturating_duration_since(self.origin);
        timestamp_of(&elapsed)
    }
}

} // verus!
