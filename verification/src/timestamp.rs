//! Nanosecond-precision wall-clock timestamps.

use vstd::prelude::*;

verus! {

/// `std::time::SystemTime`, the system clock's reading; opaque here.
#[verifier::external_type_specification]
#[verifier::external_body]
pub struct ExSystemTime(std::time::SystemTime);

/// Reads the system clock (`std::time::SystemTime::now`). The reading
/// depends on the clock, so nothing is promised of it.
#[verifier::external_body]
fn clock_now() -> (t: std::time::SystemTime) {
    std::time::SystemTime::now()
}

/// The time elapsed from the Unix epoch to `t`
/// (`SystemTime::duration_since(UNIX_EPOCH)`), or `None` when `t` lies
/// before the epoch; the error value is dropped. The clock reading is opaque
/// here, so nothing is promised of the result.
#[verifier::external_body]
fn elapsed_since_epoch(t: &std::time::SystemTime) -> (d: Option<std::time::Duration>) {
    t.duration_since(std::time::UNIX_EPOCH).ok()
}

/// The whole nanoseconds of a duration (`Duration::as_nanos`). A duration is
/// opaque here, so nothing is promised of the result.
#[verifier::external_body]
fn duration_nanos(d: &std::time::Duration) -> (n: u128) {
    d.as_nanos()
}

/// A wall-clock timestamp in nanoseconds since the Unix epoch.
#[derive(Debug, Clone, Copy, PartialEq, Eq, PartialOrd, Ord, Hash)]
pub struct Timestamp(pub u64);

impl Timestamp {
    /// The Unix epoch, `1970-01-01T00:00:00Z`.
    pub fn epoch() -> (t: Timestamp)
        ensures
            t.0 == 0,
    {
        Timestamp(0)
    }

    /// The current wall-clock time, clamped to the epoch when the system
    /// clock reads earlier than it.
    pub fn now() -> (t: Timestamp) {
        let elapsed = match elapsed_since_epoch(&clock_now()) {
            Some(d) => Some(duration_nanos(&d)),
            None => None,
        };
        Timestamp::from_elapsed_nanos(elapsed)
    }

    /// The timestamp for a clock reading of `elapsed` nanoseconds since the
    /// epoch (`None` for a clock set before it, which clamps to the epoch). A
    /// reading beyond the `u64` range keeps its low 64 bits.
    pub fn from_elapsed_nanos(elapsed: Option<u128>) -> (t: Timestamp)
        ensures
            t.0 == match elapsed {
                Some(n) => n % 0x1_0000_0000_0000_0000,
                None => 0,
            },
    {
        match elapsed {
            Some(n) => {
                let low = n as u64;
                assert(low == n % 0x1_0000_0000_0000_0000u128) by (bit_vector)
                    requires
                        low == n as u64,
                ;
                Timestamp(low)
            },
            None => Timestamp(0),
        }
    }

    /// Nanoseconds since the epoch, as a mathematical value.
    pub open spec fn nanos(self) -> nat {
        self.0 as nat
    }

    /// Construct from nanoseconds since the Unix epoch.
    pub fn from_unix_nanos(nanos: u64) -> (t: Timestamp)
        ensures
            t.0 == nanos,
    {
        Timestamp(nanos)
    }

    /// Construct from milliseconds since the Unix epoch, saturating at the
    /// largest representable instant.
    pub fn from_unix_millis(millis: u64) -> (t: Timestamp)
        ensures
            t.0 == (if millis * 1_000_000 > u64::MAX { u64::MAX as int } else { millis * 1_000_000 }),
    {
        if millis > u64::MAX / 1_000_000 {
            Timestamp(u64::MAX)
        } else {
            Timestamp(millis * 1_000_000)
        }
    }

    /// Nanoseconds since the Unix epoch.
    pub fn as_unix_nanos(self) -> (n: u64)
        ensures
            n == self.0,
    {
        self.0
    }

    /// Whole milliseconds since the Unix epoch (truncated).
    pub fn as_unix_millis(self) -> (m: u64)
        ensures
            m == self.0 / 1_000_000,
    {
        self.0 / 1_000_000
    }

    /// Nanoseconds elapsed from `earlier` to `self`, saturating at zero.
    pub fn saturating_nanos_since(self, earlier: Timestamp) -> (d: u64)
        ensures
            d == (if self.0 >= earlier.0 { self.0 - earlier.0 } else { 0 }),
    {
        self.0.saturating_sub(earlier.0)
    }
}

/// Milliseconds read back from a timestamp built from milliseconds are the
/// same milliseconds, for every count below the saturation point.
pub proof fn lemma_millis_round_trip(millis: u64)
    requires
        millis * 1_000_000 <= u64::MAX,
    ensures
        ((millis * 1_000_000) as u64) / 1_000_000 == millis,
{
}

} // verus!
