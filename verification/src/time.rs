//! Durations and points in time as plain integers.
//!
//! A point in time is written as the [`Duration`] elapsed since the Unix epoch.

use vstd::prelude::*;

verus! {

/// Nanoseconds in one second.
pub const NANOS_PER_SEC: u32 = 1_000_000_000;

/// A span of time: whole seconds and the nanoseconds below one second.
#[derive(Clone, Copy, Debug, PartialEq, Eq, Structural)]
pub struct Duration {
    pub secs: u64,
    pub nanos: u32,
}

impl Duration {
    /// The sub-second part is below one second.
    pub open spec fn wf(self) -> bool {
        self.nanos < NANOS_PER_SEC
    }

    /// The span in nanoseconds.
    pub open spec fn total_nanos(self) -> int {
        self.secs * 1_000_000_000 + self.nanos
    }

    /// Whether the nanoseconds stay below one second.
    pub fn is_wf(&self) -> (b: bool)
        ensures
            b == self.wf(),
    {
        self.nanos < 1_000_000_000
    }

    pub fn from_secs(secs: u64) -> (d: Duration)
        ensures
            d.wf(),
            d.secs == secs,
            d.nanos == 0,
    {
        Duration { secs, nanos: 0 }
    }

    pub fn zero() -> (d: Duration)
        ensures
            d.wf(),
            d.total_nanos() == 0,
            d == Duration::from_secs_spec(0),
    {
        Duration { secs: 0, nanos: 0 }
    }

    pub open spec fn from_secs_spec(secs: u64) -> Duration {
        Duration { secs, nanos: 0 }
    }

    pub fn as_secs(&self) -> (s: u64)
        ensures
            s == self.secs,
    {
        self.secs
    }

    pub fn subsec_nanos(&self) -> (n: u32)
        ensures
            n == self.nanos,
    {
        self.nanos
    }

    pub fn is_zero(&self) -> (b: bool)
        ensures
            b == (self.secs == 0 && self.nanos == 0),
    {
        self.secs == 0 && self.nanos == 0
    }

    /// Whole milliseconds in the span.
    pub open spec fn millis_spec(self) -> int {
        self.secs * 1000 + self.nanos / 1_000_000
    }

    pub fn as_millis(&self) -> (m: u128)
        ensures
            m == self.millis_spec(),
    {
        self.secs as u128 * 1000 + (self.nanos / 1_000_000) as u128
    }

    /// `self - earlier`, or zero when `earlier` lies after `self`.
    pub open spec fn saturating_sub_spec(self, earlier: Duration) -> Duration {
        if self.total_nanos() <= earlier.total_nanos() {
            Duration { secs: 0, nanos: 0 }
        } else if self.nanos >= earlier.nanos {
            Duration { secs: (self.secs - earlier.secs) as u64, nanos: (self.nanos - earlier.nanos) as u32 }
        } else {
            Duration {
                secs: (self.secs - earlier.secs - 1) as u64,
                nanos: (self.nanos + 1_000_000_000 - earlier.nanos) as u32,
            }
        }
    }

    pub fn saturating_sub(&self, earlier: &Duration) -> (d: Duration)
        requires
            self.wf(),
            earlier.wf(),
        ensures
            d == self.saturating_sub_spec(*earlier),
            d.wf(),
            d.total_nanos() == if self.total_nanos() <= earlier.total_nanos() {
                0
            } else {
                self.total_nanos() - earlier.total_nanos()
            },
    {
        if self.secs < earlier.secs || (self.secs == earlier.secs && self.nanos <= earlier.nanos) {
            Duration { secs: 0, nanos: 0 }
        } else if self.nanos >= earlier.nanos {
            Duration { secs: self.secs - earlier.secs, nanos: self.nanos - earlier.nanos }
        } else {
            Duration { secs: self.secs - earlier.secs - 1, nanos: self.nanos + 1_000_000_000 - earlier.nanos }
        }
    }
}

} // verus!

verus! {

/// The current time as the span since the Unix epoch (`SystemTime::now`,
/// read as a duration since `UNIX_EPOCH`; zero for a clock set before it).
/// The value comes from the system clock: only its form is stated.
#[verifier::external_body]
pub(crate) fn current_time() -> (t: Duration)
    ensures
        t.wf(),
{
    let since = std::time::SystemTime::now().duration_since(std::time::UNIX_EPOCH).unwrap_or_default();
    Duration { secs: since.as_secs(), nanos: since.subsec_nanos() }
}

} // verus!
