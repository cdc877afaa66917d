//! Points in time, as seconds and nanoseconds since the Unix epoch.

use vstd::prelude::*;

verus! {

/// A point in time: `secs` whole seconds since 1970-01-01 00:00:00 UTC
/// (negative before it) and `nanos` nanoseconds on top of them.
#[derive(Clone, Copy, Debug, PartialEq, Eq, Structural)]
pub struct Timestamp {
    pub secs: i64,
    pub nanos: u32,
}

/// A signed number of nanoseconds, cut down to whole seconds towards zero
/// and then to the range of `i64`.
pub open spec fn whole_seconds(nanos: int) -> int {
    let seconds = if nanos >= 0 {
        nanos / 1_000_000_000
    } else {
        -((-nanos) / 1_000_000_000)
    };
    if seconds > i64::MAX {
        i64::MAX as int
    } else if seconds < i64::MIN {
        i64::MIN as int
    } else {
        seconds
    }
}

const NANOS_PER_SECOND: i128 = 1_000_000_000;

/// Reads the clock with `chrono::Utc::now` and takes the time apart with
/// `DateTime::timestamp` and `DateTime::timestamp_subsec_nanos`.
///
/// Trusted, and nothing is claimed of the result: two calls may differ.
/// (`Utc::now` gives up on a machine whose clock stands before 1970.)
#[verifier::external_body]
pub(crate) fn now() -> (t: Timestamp) {
    let t = chrono::Utc::now();
    Timestamp { secs: t.timestamp(), nanos: t.timestamp_subsec_nanos() }
}

impl Timestamp {
    /// The point in time as nanoseconds since the epoch.
    pub open spec fn as_nanos(self) -> int {
        self.secs * 1_000_000_000 + self.nanos
    }

    /// A point in time from its two parts.
    pub fn new(secs: i64, nanos: u32) -> (t: Timestamp)
        ensures
            t == (Timestamp { secs, nanos }),
    {
        Timestamp { secs, nanos }
    }

    fn nanos_since_epoch(&self) -> (n: i128)
        ensures
            n == self.as_nanos(),
            -0x8000_0000_0000_0000 * 1_000_000_000 <= n < 0x8000_0000_0000_0000 * 1_000_000_000
                + 0x1_0000_0000,
    {
        (self.secs as i128) * NANOS_PER_SECOND + (self.nanos as i128)
    }

    /// Whether `self` lies strictly before `other`.
    pub fn is_before(&self, other: &Timestamp) -> (r: bool)
        ensures
            r == (self.as_nanos() < other.as_nanos()),
    {
        self.nanos_since_epoch() < other.nanos_since_epoch()
    }

    /// The whole seconds from `earlier` to `self`, negative if `self` is the
    /// earlier one; fractions of a second are dropped.
    pub fn seconds_since(&self, earlier: &Timestamp) -> (d: i64)
        ensures
            d == whole_seconds(self.as_nanos() - earlier.as_nanos()),
    {
        let diff: i128 = self.nanos_since_epoch() - earlier.nanos_since_epoch();
        if diff >= 0 {
            let seconds: u128 = (diff as u128) / 1_000_000_000;
            if seconds > 0x7FFF_FFFF_FFFF_FFFF {
                i64::MAX
            } else {
                seconds as i64
            }
        } else {
            let seconds: u128 = ((-diff) as u128) / 1_000_000_000;
            if seconds > 0x8000_0000_0000_0000 {
                i64::MIN
            } else if seconds == 0x8000_0000_0000_0000 {
                i64::MIN
            } else {
                -(seconds as i64)
            }
        }
    }

    /// Whether more than `seconds` seconds lie between `self` and the later
    /// point `now`.
    pub fn is_older_than(&self, now: &Timestamp, seconds: u64) -> (r: bool)
        ensures
            r == (now.as_nanos() - self.as_nanos() > seconds * 1_000_000_000),
    {
        let age: i128 = now.nanos_since_epoch() - self.nanos_since_epoch();
        age > (seconds as i128) * NANOS_PER_SECOND
    }
}

} // verus!
