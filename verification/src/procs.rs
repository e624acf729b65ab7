//! What is recorded when a process runs a program, and when the shell waits
//! for a process.

use crate::history::History;
use crate::ipc::events::exec::{exec_event, EXECVE_TAG};
use crate::ipc::events::ioext::overwrite;
use crate::ipc::events::wait::{WAIT_SIZE, WAIT_TAG};
use crate::ipc::events::{
    complete, events, record, EventView, ExecEvent, SerializeError, WaitEvent, HEADER_SIZE,
    MAX_EVENT_SIZE,
};
use crate::ipc::{drain, SharedBufferGuard};
use crate::rusage::Rusage;
use crate::time::Timespec;
use vstd::prelude::*;

verus! {

/// Timeout, in milliseconds, to send `execve` to the shared buffer.
pub const EVENT_TIMEOUT: u64 = 250;

/// Timeout, in milliseconds, to collect the events of the shared buffer.
pub const COLLECT_TIMEOUT: u64 = 50;

/// Exit status that is recorded when the caller of `waitpid` did not ask
/// for the status.
pub const UNKNOWN_STATUS: i32 = -1;

/// To write `bytes` at the cursor of a buffer, and to move the cursor after
/// them, is to add `bytes` to what is written in the buffer.
pub proof fn lemma_append(data: Seq<u8>, cursor: int, bytes: Seq<u8>)
    requires
        0 <= cursor,
        cursor + bytes.len() <= data.len(),
    ensures
        (data.take(cursor) + overwrite(data.skip(cursor), 0, bytes)).take(cursor + bytes.len())
            == data.take(cursor) + bytes,
        (data.take(cursor) + overwrite(data.skip(cursor), 0, bytes)).len() == data.len(),
        data.take(cursor) + overwrite(data.skip(cursor), 0, bytes) == overwrite(
            data,
            cursor,
            bytes,
        ),
{
    let after = data.take(cursor) + overwrite(data.skip(cursor), 0, bytes);
    assert(after.take(cursor + bytes.len()) =~= data.take(cursor) + bytes);
    assert(after =~= overwrite(data, cursor, bytes));
}

/// Send `execve` data to the shared buffer.
///
/// The event is added to what is written in the buffer. The path of the
/// program and each of its arguments are cut down to the limit of the
/// buffer. The event is dropped, and the buffer stays as it is, when it has
/// no room for the event, or when the size of the event does not fit in two
/// bytes.
pub fn write_event(
    buffer: &mut SharedBufferGuard,
    pid: i32,
    monotonic_time: Timespec,
    start_time: Timespec,
    filename: &[u8],
    args: &[Vec<u8>],
) -> (sent: Result<(), SerializeError>)
    requires
        old(buffer).wf(),
    ensures
        ({
            let event = exec_event(pid, monotonic_time, start_time, filename@, args@).truncated(
                old(buffer).spec_max_cmdline() as nat,
            );
            let bytes = record(EXECVE_TAG, event.payload());
            let size = HEADER_SIZE + event.payload().len();
            &&& final(buffer).wf()
            &&& final(buffer).spec_max_cmdline() == old(buffer).spec_max_cmdline()
            &&& sent is Ok <==> size <= MAX_EVENT_SIZE && old(buffer).cursor() + size
                <= old(buffer).data().len()
            &&& sent is Ok ==> final(buffer).written() == old(buffer).written() + bytes
                && final(buffer).cursor() == old(buffer).cursor() + size && final(buffer).data()
                == overwrite(old(buffer).data(), old(buffer).cursor() as int, bytes)
            &&& sent is Err ==> final(buffer).data() == old(buffer).data()
                && final(buffer).cursor() == old(buffer).cursor()
            &&& sent == Err::<(), SerializeError>(SerializeError::WriteZero)
                <==> old(buffer).cursor() + size > old(buffer).data().len()
            &&& sent is Ok && complete(old(buffer).written()) ==> complete(final(buffer).written())
                && events(final(buffer).written()) == events(old(buffer).written()).push(
                EventView::Exec(event),
            )
        }),
{
    let max_cmdline = buffer.max_cmdline();
    let ghost event = exec_event(pid, monotonic_time, start_time, filename@, args@).truncated(
        max_cmdline as nat,
    );
    let ghost bytes = record(EXECVE_TAG, event.payload());
    let ghost data = buffer.data();
    let ghost cursor = buffer.cursor() as int;
    assert(data =~= data.take(cursor) + data.skip(cursor));

    let written = ExecEvent::serialize(
        buffer.output(),
        pid,
        monotonic_time,
        start_time,
        filename,
        args,
        max_cmdline,
    );
    match written {
        Ok(written) => {
            proof {
                crate::ipc::events::lemma_finished_record(
                    Seq::empty(),
                    EXECVE_TAG,
                    event.payload(),
                );
                lemma_append(data, cursor, bytes);
                if complete(data.take(cursor)) {
                    crate::ipc::events::lemma_exec_event_appended(data.take(cursor), event);
                }
            }
            buffer.advance(written);
            Ok(())
        },
        Err(error) => Err(error),
    }
}

/// Send `waitpid` data to the shared buffer, from a process that does not
/// keep the history.
///
/// The event is added to what is written in the buffer. The event is
/// dropped, and the buffer stays as it is, when it has no room for the
/// event.
pub fn write_wait_event(
    buffer: &mut SharedBufferGuard,
    pid: i32,
    status: i32,
    finish_time: Timespec,
    rusage: Rusage,
) -> (sent: Result<(), SerializeError>)
    requires
        old(buffer).wf(),
    ensures
        ({
            let event = WaitEvent { pid, status, finish_time, rusage };
            let bytes = record(WAIT_TAG, event.payload());
            let size = HEADER_SIZE + WAIT_SIZE;
            &&& final(buffer).wf()
            &&& final(buffer).spec_max_cmdline() == old(buffer).spec_max_cmdline()
            &&& sent is Ok <==> old(buffer).cursor() + size <= old(buffer).data().len()
            &&& sent is Ok ==> final(buffer).written() == old(buffer).written() + bytes
                && final(buffer).cursor() == old(buffer).cursor() + size && final(buffer).data()
                == overwrite(old(buffer).data(), old(buffer).cursor() as int, bytes)
            &&& sent matches Err(error) ==> error == SerializeError::WriteZero
                && final(buffer).data() == old(buffer).data() && final(buffer).cursor()
                == old(buffer).cursor()
            &&& sent is Ok && complete(old(buffer).written()) ==> complete(final(buffer).written())
                && events(final(buffer).written()) == events(old(buffer).written()).push(
                EventView::Wait(event),
            )
        }),
{
    let ghost event = WaitEvent { pid, status, finish_time, rusage };
    let ghost bytes = record(WAIT_TAG, event.payload());
    let ghost data = buffer.data();
    let ghost cursor = buffer.cursor() as int;
    assert(data =~= data.take(cursor) + data.skip(cursor));

    let written = WaitEvent::serialize(buffer.output(), pid, status, finish_time, rusage);
    match written {
        Ok(written) => {
            proof {
                crate::ipc::events::wait::lemma_payload_round_trip(event, Seq::empty());
                crate::ipc::events::lemma_finished_record(Seq::empty(), WAIT_TAG, event.payload());
                lemma_append(data, cursor, bytes);
                if complete(data.take(cursor)) {
                    crate::ipc::events::lemma_wait_event_appended(data.take(cursor), event);
                }
            }
            buffer.advance(written);
            Ok(())
        },
        Err(error) => Err(error),
    }
}

/// Extract events from the shared buffer and record them in the history:
/// new entries for the commands that have started, and the resources of
/// the processes that have finished elsewhere.
///
/// The buffer is left with nothing written in it.
pub fn collect_execve_events(history: &mut History, buffer: &mut SharedBufferGuard)
    requires
        old(buffer).wf(),
    ensures
        final(history)@ == old(history)@.apply_all(events(old(buffer).written())),
        old(history)@.wf() ==> final(history)@.wf(),
        old(history)@.ordered() ==> final(history)@.ordered(),
        final(buffer).wf(),
        final(buffer).cursor() == 0,
        final(buffer).data() == old(buffer).data(),
        final(buffer).spec_max_cmdline() == old(buffer).spec_max_cmdline(),
{
    let found = drain(buffer);
    history.apply_all(found);
}

/// Update a history entry to store data from the `wait4` result.
///
/// `wstatus` is the exit status, if the caller of `waitpid` asked for it.
pub fn store_process_result(
    history: &mut History,
    pid: i32,
    wstatus: Option<i32>,
    finish_time: Timespec,
    rusage: Rusage,
)
    ensures
        final(history)@ == old(history)@.update_entry(
            pid,
            match wstatus {
                Some(status) => status,
                None => UNKNOWN_STATUS,
            },
            finish_time,
            rusage,
        ),
        old(history)@.wf() ==> final(history)@.wf(),
        old(history)@.ordered() ==> final(history)@.ordered(),
{
    let status = match wstatus {
        Some(status) => status,
        None => UNKNOWN_STATUS,
    };
    history.update_entry(pid, status, finish_time, rusage);
}

/// Records that the shell, or a process forked by it, has waited for the
/// process `pid`.
///
/// The process that keeps the history first records the events of the
/// shared buffer, and then completes the entry of the process `pid`. Any
/// other process does not touch the history: it sends the result to the
/// shared buffer, for the process that keeps the history to find it.
pub fn on_process_wait(
    history: &mut History,
    buffer: &mut SharedBufferGuard,
    pid: i32,
    status: i32,
    finish_time: Timespec,
    rusage: Rusage,
    is_coordinating_process: bool,
) -> (sent: Result<(), SerializeError>)
    requires
        old(buffer).wf(),
    ensures
        final(buffer).wf(),
        final(buffer).spec_max_cmdline() == old(buffer).spec_max_cmdline(),
        old(history)@.wf() ==> final(history)@.wf(),
        old(history)@.ordered() ==> final(history)@.ordered(),
        is_coordinating_process ==> sent is Ok && final(history)@ == old(history)@.apply_all(
            events(old(buffer).written()),
        ).update_entry(pid, status, finish_time, rusage) && final(buffer).cursor() == 0
            && final(buffer).data() == old(buffer).data(),
        !is_coordinating_process ==> final(history)@ == old(history)@ && ({
            let event = WaitEvent { pid, status, finish_time, rusage };
            let bytes = record(WAIT_TAG, event.payload());
            let size = HEADER_SIZE + WAIT_SIZE;
            &&& sent is Ok <==> old(buffer).cursor() + size <= old(buffer).data().len()
            &&& sent is Ok ==> final(buffer).written() == old(buffer).written() + bytes
            &&& sent is Err ==> final(buffer).data() == old(buffer).data()
                && final(buffer).cursor() == old(buffer).cursor()
        }),
{
    if is_coordinating_process {
        collect_execve_events(history, buffer);
        history.update_entry(pid, status, finish_time, rusage);
        Ok(())
    } else {
        write_wait_event(buffer, pid, status, finish_time, rusage)
    }
}

} // verus!
