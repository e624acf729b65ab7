//! Event when a program is finished.
//!
//! # Serialization Data
//!
//! * Process identifier (`i32`).
//! * Exit code (`i32`).
//! * Finish time (two `i64`).
//! * Resources usage (eighteen `i64`).

use super::ioext::{
    i32_bytes, i32_value, i64s_bytes, i64s_value, lemma_i32_round_trip, lemma_i64s_round_trip,
    lemma_overwrite_twice, overwrite, read_i32, read_i64s,
};
use super::{
    lemma_finished_record, record, unfinished_record, DeserializeError, EventPayload,
    SerializeError, HEADER_SIZE,
};
use crate::rusage::Rusage;
use crate::time::{Timespec, Timeval};
use vstd::prelude::*;

verus! {

/// Tag for `WaitEvent`.
pub const WAIT_TAG: u8 = 2;

/// Bytes of the data of a `WaitEvent`.
pub const WAIT_SIZE: usize = 168;

/// Numbers of 64 bits in the data of a `WaitEvent`.
pub const WAIT_NUMBERS: usize = 20;

/// Events from `waitpid`.
#[derive(Clone, Copy, Debug, PartialEq, Eq, Structural)]
pub struct WaitEvent {
    pub pid: i32,
    pub status: i32,
    pub finish_time: Timespec,
    pub rusage: Rusage,
}

impl WaitEvent {
    /// The finish time and the resources of the event, in the order in
    /// which they are written.
    pub open spec fn numbers(self) -> Seq<i64> {
        seq![
            self.finish_time.tv_sec,
            self.finish_time.tv_nsec,
            self.rusage.ru_utime.tv_sec,
            self.rusage.ru_utime.tv_usec,
            self.rusage.ru_stime.tv_sec,
            self.rusage.ru_stime.tv_usec,
            self.rusage.ru_maxrss,
            self.rusage.ru_ixrss,
            self.rusage.ru_idrss,
            self.rusage.ru_isrss,
            self.rusage.ru_minflt,
            self.rusage.ru_majflt,
            self.rusage.ru_nswap,
            self.rusage.ru_inblock,
            self.rusage.ru_oublock,
            self.rusage.ru_msgsnd,
            self.rusage.ru_msgrcv,
            self.rusage.ru_nsignals,
            self.rusage.ru_nvcsw,
            self.rusage.ru_nivcsw,
        ]
    }

    /// The event whose finish time and resources are `numbers`.
    pub open spec fn from_numbers(pid: i32, status: i32, numbers: Seq<i64>) -> WaitEvent {
        WaitEvent {
            pid,
            status,
            finish_time: Timespec { tv_sec: numbers[0], tv_nsec: numbers[1] },
            rusage: Rusage {
                ru_utime: Timeval { tv_sec: numbers[2], tv_usec: numbers[3] },
                ru_stime: Timeval { tv_sec: numbers[4], tv_usec: numbers[5] },
                ru_maxrss: numbers[6],
                ru_ixrss: numbers[7],
                ru_idrss: numbers[8],
                ru_isrss: numbers[9],
                ru_minflt: numbers[10],
                ru_majflt: numbers[11],
                ru_nswap: numbers[12],
                ru_inblock: numbers[13],
                ru_oublock: numbers[14],
                ru_msgsnd: numbers[15],
                ru_msgrcv: numbers[16],
                ru_nsignals: numbers[17],
                ru_nvcsw: numbers[18],
                ru_nivcsw: numbers[19],
            },
        }
    }

    /// The data of the event, as it is written after the tag.
    pub open spec fn payload(self) -> Seq<u8> {
        i32_bytes(self.pid) + i32_bytes(self.status) + i64s_bytes(self.numbers())
    }

    /// The event that the first bytes of `bytes` are the data of; nothing
    /// when `bytes` are fewer than the data of an event.
    pub open spec fn from_payload(bytes: Seq<u8>) -> Option<WaitEvent> {
        if bytes.len() < WAIT_SIZE {
            None
        } else {
            Some(
                WaitEvent::from_numbers(
                    i32_value(bytes),
                    i32_value(bytes.skip(4)),
                    i64s_value(bytes.skip(8), WAIT_NUMBERS as nat),
                ),
            )
        }
    }

    /// Serialize data for `WaitEvent` events.
    ///
    /// The event is written from the first byte of `output` on. Returns the
    /// size of the event. Nothing is written when `output` has no room for
    /// the whole event.
    pub fn serialize(
        output: &mut [u8],
        pid: i32,
        status: i32,
        finish_time: Timespec,
        rusage: Rusage,
    ) -> (written: Result<usize, SerializeError>)
        ensures
            ({
                let event = WaitEvent { pid, status, finish_time, rusage };
                &&& written is Ok <==> HEADER_SIZE + WAIT_SIZE <= old(output)@.len()
                &&& written matches Ok(n) ==> n == HEADER_SIZE + WAIT_SIZE && final(output)@
                    == overwrite(old(output)@, 0, record(WAIT_TAG, event.payload()))
                &&& written matches Err(e) ==> e == SerializeError::WriteZero && final(output)@
                    == old(output)@
            }),
    {
        let ghost event = WaitEvent { pid, status, finish_time, rusage };
        let ghost before = old(output)@;
        proof {
            lemma_i32_round_trip(pid, Seq::empty());
            lemma_i32_round_trip(status, Seq::empty());
            lemma_i64s_round_trip(event.numbers(), Seq::empty());
        }
        if output.len() < HEADER_SIZE + WAIT_SIZE {
            return Err(SerializeError::WriteZero);
        }
        let mut payload = EventPayload::new(output, WAIT_TAG)?;

        payload.write_i32(output, pid)?;
        payload.write_i32(output, status)?;
        let numbers = [
            finish_time.tv_sec,
            finish_time.tv_nsec,
            rusage.ru_utime.tv_sec,
            rusage.ru_utime.tv_usec,
            rusage.ru_stime.tv_sec,
            rusage.ru_stime.tv_usec,
            rusage.ru_maxrss,
            rusage.ru_ixrss,
            rusage.ru_idrss,
            rusage.ru_isrss,
            rusage.ru_minflt,
            rusage.ru_majflt,
            rusage.ru_nswap,
            rusage.ru_inblock,
            rusage.ru_oublock,
            rusage.ru_msgsnd,
            rusage.ru_msgrcv,
            rusage.ru_nsignals,
            rusage.ru_nvcsw,
            rusage.ru_nivcsw,
        ];
        assert(numbers@ =~= event.numbers());
        payload.write_i64s(output, numbers.as_slice())?;

        // Compute written bytes.
        proof {
            let empty = Seq::<u8>::empty();
            let start = unfinished_record(WAIT_TAG, empty);
            lemma_overwrite_twice(before, 0, start, i32_bytes(pid));
            lemma_overwrite_twice(before, 0, start + i32_bytes(pid), i32_bytes(status));
            lemma_overwrite_twice(
                before,
                0,
                start + i32_bytes(pid) + i32_bytes(status),
                i64s_bytes(numbers@),
            );
            assert(start + i32_bytes(pid) + i32_bytes(status) + i64s_bytes(numbers@)
                =~= unfinished_record(WAIT_TAG, event.payload()));
            lemma_finished_record(before, WAIT_TAG, event.payload());
        }
        let size = payload.finish(output)?;
        Ok(size as usize)
    }

    /// Deserialize data.
    pub fn deserialize(buf: &[u8]) -> (event: Result<WaitEvent, DeserializeError>)
        ensures
            match event {
                Ok(event) => WaitEvent::from_payload(buf@) == Some(event),
                Err(error) => WaitEvent::from_payload(buf@) is None,
            },
    {
        let (pid, after_pid) = match read_i32(buf) {
            Some(read) => read,
            None => return Err(DeserializeError::UnexpectedEof),
        };
        let (status, after_status) = match read_i32(after_pid) {
            Some(read) => read,
            None => return Err(DeserializeError::UnexpectedEof),
        };
        assert(after_status@ =~= buf@.skip(8));
        let (numbers, _) = match read_i64s(after_status, WAIT_NUMBERS) {
            Some(read) => read,
            None => return Err(DeserializeError::UnexpectedEof),
        };
        Ok(
            WaitEvent {
                pid,
                status,
                finish_time: Timespec { tv_sec: numbers[0], tv_nsec: numbers[1] },
                rusage: Rusage {
                    ru_utime: Timeval { tv_sec: numbers[2], tv_usec: numbers[3] },
                    ru_stime: Timeval { tv_sec: numbers[4], tv_usec: numbers[5] },
                    ru_maxrss: numbers[6],
                    ru_ixrss: numbers[7],
                    ru_idrss: numbers[8],
                    ru_isrss: numbers[9],
                    ru_minflt: numbers[10],
                    ru_majflt: numbers[11],
                    ru_nswap: numbers[12],
                    ru_inblock: numbers[13],
                    ru_oublock: numbers[14],
                    ru_msgsnd: numbers[15],
                    ru_msgrcv: numbers[16],
                    ru_nsignals: numbers[17],
                    ru_nvcsw: numbers[18],
                    ru_nivcsw: numbers[19],
                },
            },
        )
    }
}

/// An event is read back from its data, whatever follows it.
pub proof fn lemma_payload_round_trip(event: WaitEvent, rest: Seq<u8>)
    ensures
        event.payload().len() == WAIT_SIZE,
        WaitEvent::from_payload(event.payload() + rest) == Some(event),
{
    let numbers = event.numbers();
    let bytes = event.payload() + rest;
    let tail = i64s_bytes(numbers) + rest;
    lemma_i32_round_trip(event.pid, i32_bytes(event.status) + tail);
    lemma_i32_round_trip(event.status, tail);
    lemma_i64s_round_trip(numbers, rest);
    assert(bytes =~= i32_bytes(event.pid) + (i32_bytes(event.status) + tail));
    assert(bytes.skip(4) =~= i32_bytes(event.status) + tail);
    assert(bytes.skip(8) =~= tail);
    assert(WaitEvent::from_numbers(event.pid, event.status, numbers) == event);
}

} // verus!
