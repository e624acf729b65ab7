//! Communication between the shell and the processes that it forks.

pub mod events;
pub mod sharedbuffer;

use crate::decimal::{decimal, parse_decimal, parsed, to_decimal};
use events::{events, events_view, Event, EventsParser};
use vstd::prelude::*;

pub use sharedbuffer::{SharedBuffer, SharedBufferGuard};

verus! {

/// Size for the shared buffer.
pub const SHARED_BUFFER_SIZE: usize = 16 * 1024;

/// Timeout, in milliseconds, to access the inner value of `max_cmdline` from
/// the `TIMEHISTORY_CMDLINE_LIMIT` variable.
pub const TIMEOUT_CMDLINE_VAR: u64 = 1000;

/// Takes the events out of the shared buffer.
///
/// Returns the events that are written in the buffer, in the order in which
/// they were written, and leaves the buffer with nothing written in it.
pub fn drain(buffer: &mut SharedBufferGuard) -> (found: Vec<Event>)
    requires
        old(buffer).wf(),
    ensures
        events_view(found@) == events(old(buffer).written()),
        final(buffer).wf(),
        final(buffer).cursor() == 0,
        final(buffer).data() == old(buffer).data(),
        final(buffer).spec_max_cmdline() == old(buffer).spec_max_cmdline(),
{
    let found = EventsParser::new(buffer.input()).collect();
    buffer.clear();
    found
}

/// Takes the events out of the shared buffer, if its lock was acquired.
///
/// Without the lock no events are observed, and the buffer is left alone.
pub fn collect_events(lock: Result<&mut SharedBufferGuard, sharedbuffer::LockError>) -> (found:
    Option<Vec<Event>>)
    requires
        lock matches Ok(buffer) ==> buffer.wf(),
    ensures
        match lock {
            Ok(buffer) => found matches Some(found) && events_view(found@) == events(
                buffer.written(),
            ) && final(buffer).wf() && final(buffer).cursor() == 0 && final(buffer).data()
                == buffer.data() && final(buffer).spec_max_cmdline() == buffer.spec_max_cmdline(),
            Err(_) => found is None,
        },
{
    match lock {
        Ok(buffer) => Some(drain(buffer)),
        Err(_) => None,
    }
}

/// Dynamic variable to control the cmdline limit.
pub struct CmdLineLimitVariable;

impl CmdLineLimitVariable {
    /// The value of the variable: the limit of the shared buffer, in decimal
    /// notation.
    pub fn get(&mut self, buffer: &SharedBufferGuard) -> (value: Vec<u8>)
        ensures
            value@ == decimal(buffer.spec_max_cmdline() as nat),
    {
        to_decimal(buffer.max_cmdline())
    }

    /// Gives the variable the value `value`: the limit of the shared buffer
    /// becomes the number that `value` writes.
    ///
    /// Returns `false`, and changes nothing, when `value` writes no number.
    pub fn set(&mut self, buffer: &mut SharedBufferGuard, value: &[u8]) -> (valid: bool)
        ensures
            valid == parsed(value@) is Some,
            final(buffer).spec_max_cmdline() == match parsed(value@) {
                Some(limit) => limit,
                None => old(buffer).spec_max_cmdline(),
            },
            final(buffer).cursor() == old(buffer).cursor(),
            final(buffer).data() == old(buffer).data(),
            final(buffer).wf() == old(buffer).wf(),
    {
        match parse_decimal(value) {
            Some(max_cmdline) => {
                buffer.set_max_cmdline(max_cmdline);
                true
            },
            None => false,
        }
    }
}

} // verus!
