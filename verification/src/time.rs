//! Clock readings and spans of time, as plain values.

use vstd::prelude::*;

verus! {

/// Nanoseconds in a second.
pub const NANOS_PER_SEC: i64 = 1_000_000_000;

/// Milliseconds in a second.
pub const MILLIS_PER_SEC: u64 = 1_000;

/// Nanoseconds in a millisecond.
pub const NANOS_PER_MILLI: u32 = 1_000_000;

/// A clock reading: seconds and nanoseconds since the epoch of the clock.
#[derive(Clone, Copy, Debug, PartialEq, Eq, Structural)]
pub struct Timespec {
    pub tv_sec: i64,
    pub tv_nsec: i64,
}

/// An amount of processor time: seconds and microseconds.
#[derive(Clone, Copy, Debug, PartialEq, Eq, Structural)]
pub struct Timeval {
    pub tv_sec: i64,
    pub tv_usec: i64,
}

/// A span of time: whole seconds and the nanoseconds of the last, incomplete
/// second.
#[derive(Clone, Copy, Debug, PartialEq, Eq, Structural)]
pub struct Duration {
    pub secs: u64,
    pub nanos: u32,
}

/// The value of `value` if an `i64` can hold it, else the nearest `i64`.
pub open spec fn saturate(value: int) -> i64 {
    if value > i64::MAX {
        i64::MAX
    } else if value < i64::MIN {
        i64::MIN
    } else {
        value as i64
    }
}

/// `left + right`, or the nearest `i64` if the sum is out of range.
fn saturating_sum(left: i64, right: i64) -> (sum: i64)
    ensures
        sum == saturate(left + right),
{
    match left.checked_add(right) {
        Some(sum) => sum,
        None => if right > 0 {
            i64::MAX
        } else {
            i64::MIN
        },
    }
}

impl Timespec {
    /// The reading in nanoseconds.
    pub open spec fn total_nanos(self) -> int {
        self.tv_sec * NANOS_PER_SEC + self.tv_nsec
    }

    /// The span from `earlier` to `self`, if `self` is not before `earlier`
    /// and the seconds of the span fit in 64 bits.
    pub open spec fn spec_duration_since(self, earlier: Timespec) -> Option<Duration> {
        let nanos = self.total_nanos() - earlier.total_nanos();
        if 0 <= nanos && nanos / (NANOS_PER_SEC as int) <= u64::MAX {
            Some(
                Duration {
                    secs: (nanos / (NANOS_PER_SEC as int)) as u64,
                    nanos: (nanos % (NANOS_PER_SEC as int)) as u32,
                },
            )
        } else {
            None
        }
    }

    /// Time elapsed from `earlier` to `self`.
    ///
    /// There is no result when `self` is before `earlier`: the span is
    /// never negative, nor wrapped.
    pub fn checked_duration_since(&self, earlier: &Timespec) -> (elapsed: Option<Duration>)
        ensures
            elapsed == self.spec_duration_since(*earlier),
            elapsed matches Some(d) ==> d.wf(),
    {
        let per_sec: i128 = NANOS_PER_SEC as i128;
        let finish: i128 = (self.tv_sec as i128) * per_sec + (self.tv_nsec as i128);
        let start: i128 = (earlier.tv_sec as i128) * per_sec + (earlier.tv_nsec as i128);
        let nanos: i128 = finish - start;
        if nanos < 0 {
            return None;
        }
        let secs: i128 = nanos / per_sec;
        if secs > u64::MAX as i128 {
            return None;
        }
        Some(Duration { secs: secs as u64, nanos: (nanos % per_sec) as u32 })
    }

    /// The reading that lies `timeout` after `now`. Seconds that an `i64`
    /// cannot hold are replaced by the largest that it can.
    ///
    /// The nanoseconds are carried into the seconds when they exceed one
    /// second.
    pub open spec fn spec_after(now: Timespec, timeout: Duration) -> Timespec {
        let sec = saturate(now.tv_sec + saturate(timeout.secs as int));
        let nsec = saturate(now.tv_nsec + timeout.nanos);
        if nsec > NANOS_PER_SEC {
            Timespec { tv_sec: saturate(sec + 1), tv_nsec: (nsec - NANOS_PER_SEC) as i64 }
        } else {
            Timespec { tv_sec: sec, tv_nsec: nsec }
        }
    }
}

impl Duration {
    /// The invariant of a span: its nanoseconds do not fill a second.
    pub open spec fn wf(self) -> bool {
        self.nanos < NANOS_PER_SEC
    }

    /// The span in nanoseconds.
    pub open spec fn total_nanos(self) -> nat {
        (self.secs * NANOS_PER_SEC + self.nanos) as nat
    }

    /// A span of `secs` seconds.
    pub fn from_secs(secs: u64) -> (d: Duration)
        ensures
            d == (Duration { secs, nanos: 0 }),
    {
        Duration { secs, nanos: 0 }
    }

    /// A span of `millis` milliseconds.
    pub fn from_millis(millis: u64) -> (d: Duration)
        ensures
            d.wf(),
            d.secs == millis / MILLIS_PER_SEC,
            d.nanos == (millis % MILLIS_PER_SEC) * NANOS_PER_MILLI,
    {
        Duration {
            secs: millis / MILLIS_PER_SEC,
            nanos: (millis % MILLIS_PER_SEC) as u32 * NANOS_PER_MILLI,
        }
    }

    /// Whole seconds of the span.
    pub fn as_secs(&self) -> (secs: u64)
        ensures
            secs == self.secs,
    {
        self.secs
    }

    /// Nanoseconds of the incomplete second.
    pub fn subsec_nanos(&self) -> (nanos: u32)
        ensures
            nanos == self.nanos,
    {
        self.nanos
    }
}

/// Computes the deadline of a wait that starts at `now` and lasts at most
/// `timeout`.
///
/// `now` is a reading of the realtime clock, which every process reads the
/// same way; without a reading the deadline is the epoch, so that the wait
/// ends at once.
pub fn compute_abstime(now: Option<Timespec>, timeout: Duration) -> (deadline: Timespec)
    ensures
        deadline == match now {
            Some(now) => Timespec::spec_after(now, timeout),
            None => (Timespec { tv_sec: 0, tv_nsec: 0 }),
        },
{
    let mut ts = Timespec { tv_sec: 0, tv_nsec: 0 };

    if let Some(now) = now {
        let secs: i64 = if timeout.secs > i64::MAX as u64 {
            i64::MAX
        } else {
            timeout.secs as i64
        };
        ts.tv_sec = saturating_sum(now.tv_sec, secs);
        ts.tv_nsec = saturating_sum(now.tv_nsec, timeout.nanos as i64);

        if ts.tv_nsec > NANOS_PER_SEC {
            ts.tv_sec = saturating_sum(ts.tv_sec, 1);
            ts.tv_nsec = ts.tv_nsec - NANOS_PER_SEC;
        }
    }

    ts
}

} // verus!
