//! Resources used by a process, as the system accounts them.

use crate::time::Timeval;
use vstd::prelude::*;

verus! {

/// Snapshot of the resources that a finished process has used.
#[derive(Clone, Copy, Debug, PartialEq, Eq, Structural)]
pub struct Rusage {
    /// Time spent in user mode.
    pub ru_utime: Timeval,
    /// Time spent in kernel mode.
    pub ru_stime: Timeval,
    /// Maximum resident set size.
    pub ru_maxrss: i64,
    /// Integral shared memory size.
    pub ru_ixrss: i64,
    /// Integral unshared data size.
    pub ru_idrss: i64,
    /// Integral unshared stack size.
    pub ru_isrss: i64,
    /// Page reclaims (soft page faults).
    pub ru_minflt: i64,
    /// Page faults (hard page faults).
    pub ru_majflt: i64,
    /// Swaps.
    pub ru_nswap: i64,
    /// Block input operations.
    pub ru_inblock: i64,
    /// Block output operations.
    pub ru_oublock: i64,
    /// Messages sent.
    pub ru_msgsnd: i64,
    /// Messages received.
    pub ru_msgrcv: i64,
    /// Signals received.
    pub ru_nsignals: i64,
    /// Voluntary context switches.
    pub ru_nvcsw: i64,
    /// Involuntary context switches.
    pub ru_nivcsw: i64,
}

impl Rusage {
    /// The snapshot with every count at zero.
    pub open spec fn spec_zeroed() -> Rusage {
        Rusage {
            ru_utime: Timeval { tv_sec: 0, tv_usec: 0 },
            ru_stime: Timeval { tv_sec: 0, tv_usec: 0 },
            ru_maxrss: 0,
            ru_ixrss: 0,
            ru_idrss: 0,
            ru_isrss: 0,
            ru_minflt: 0,
            ru_majflt: 0,
            ru_nswap: 0,
            ru_inblock: 0,
            ru_oublock: 0,
            ru_msgsnd: 0,
            ru_msgrcv: 0,
            ru_nsignals: 0,
            ru_nvcsw: 0,
            ru_nivcsw: 0,
        }
    }

    /// A snapshot with every count at zero.
    pub fn zeroed() -> (rusage: Rusage)
        ensures
            rusage == Rusage::spec_zeroed(),
    {
        Rusage {
            ru_utime: Timeval { tv_sec: 0, tv_usec: 0 },
            ru_stime: Timeval { tv_sec: 0, tv_usec: 0 },
            ru_maxrss: 0,
            ru_ixrss: 0,
            ru_idrss: 0,
            ru_isrss: 0,
            ru_minflt: 0,
            ru_majflt: 0,
            ru_nswap: 0,
            ru_inblock: 0,
            ru_oublock: 0,
            ru_msgsnd: 0,
            ru_msgrcv: 0,
            ru_nsignals: 0,
            ru_nvcsw: 0,
            ru_nivcsw: 0,
        }
    }
}

} // verus!
