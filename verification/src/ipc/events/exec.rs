//! Event when a new program is executed.
//!
//! # Serialization Data
//!
//! * Process identifier (`i32`).
//! * Monotonic time of the event (two `i64`).
//! * Real time (wall-clock) of the event (two `i64`).
//! * Path of the executed program (a string).
//! * Arguments of the executed program (strings, up to the end of the
//!   event).
//!
//! A string is its length, as a `usize`, followed by its bytes.

use super::ioext::{
    i32_bytes, i32_value, i64s_bytes, i64s_value, lemma_i32_round_trip, lemma_i64s_round_trip,
    lemma_overwrite_twice, lemma_string_round_trip, lemma_usize_round_trip, overwrite, read_cstr,
    read_i32, read_i64s, string_bytes, string_value, truncated, word_size,
};
use super::{
    lemma_finished_record, record, unfinished_record, DeserializeError, EventPayload,
    SerializeError, HEADER_SIZE, MAX_EVENT_SIZE,
};
use crate::time::Timespec;
use vstd::prelude::*;

verus! {

/// Tag for `ExecEvent`.
pub const EXECVE_TAG: u8 = 1;

/// Bytes of an event before its strings: the process identifier and the
/// two times.
pub const EXEC_FIXED_SIZE: usize = 36;

/// Events from an `execve` function.
#[derive(Debug)]
pub struct ExecEvent {
    pub pid: i32,
    pub monotonic_time: Timespec,
    pub start_time: Timespec,
    pub filename: Vec<u8>,
    pub args: Vec<Vec<u8>>,
}

/// What an `ExecEvent` holds.
pub ghost struct ExecEventView {
    pub pid: i32,
    pub monotonic_time: Timespec,
    pub start_time: Timespec,
    pub filename: Seq<u8>,
    pub args: Seq<Seq<u8>>,
}

/// The strings that `strings` hold.
pub open spec fn strings_view(strings: Seq<Vec<u8>>) -> Seq<Seq<u8>> {
    Seq::new(strings.len(), |i: int| strings[i]@)
}

impl View for ExecEvent {
    type V = ExecEventView;

    open spec fn view(&self) -> ExecEventView {
        ExecEventView {
            pid: self.pid,
            monotonic_time: self.monotonic_time,
            start_time: self.start_time,
            filename: self.filename@,
            args: strings_view(self.args@),
        }
    }
}

/// The bytes of a run of strings in an event: those of each, in order.
pub open spec fn strings_bytes(strings: Seq<Seq<u8>>) -> Seq<u8>
    decreases strings.len(),
{
    if strings.len() == 0 {
        Seq::empty()
    } else {
        string_bytes(strings[0]) + strings_bytes(strings.skip(1))
    }
}

/// The strings that fill `bytes` from the first byte to the last; nothing
/// when `bytes` ends inside a string.
pub open spec fn strings_value(bytes: Seq<u8>) -> Option<Seq<Seq<u8>>>
    decreases bytes.len(),
{
    if bytes.len() == 0 {
        Some(Seq::empty())
    } else {
        match string_value(bytes) {
            Some((string, size)) if 0 < size <= bytes.len() => match strings_value(
                bytes.skip(size as int),
            ) {
                Some(rest) => Some(seq![string] + rest),
                None => None,
            },
            _ => None,
        }
    }
}

/// Each string of `strings`, cut down to its first `limit` bytes.
pub open spec fn truncated_strings(strings: Seq<Seq<u8>>, limit: nat) -> Seq<Seq<u8>> {
    Seq::new(strings.len(), |i: int| truncated(strings[i], limit))
}

/// The two readings as four numbers.
pub open spec fn times(monotonic_time: Timespec, start_time: Timespec) -> Seq<i64> {
    seq![
        monotonic_time.tv_sec,
        monotonic_time.tv_nsec,
        start_time.tv_sec,
        start_time.tv_nsec,
    ]
}

impl ExecEventView {
    /// The event with its path and each of its arguments cut down to their
    /// first `limit` bytes.
    pub open spec fn truncated(self, limit: nat) -> ExecEventView {
        ExecEventView {
            filename: truncated(self.filename, limit),
            args: truncated_strings(self.args, limit),
            ..self
        }
    }

    /// The data of the event, as it is written after the tag.
    pub open spec fn payload(self) -> Seq<u8> {
        i32_bytes(self.pid) + i64s_bytes(times(self.monotonic_time, self.start_time))
            + string_bytes(self.filename) + strings_bytes(self.args)
    }

    /// `true` if the length of every string of the event is a `usize`.
    pub open spec fn wf(self) -> bool {
        &&& self.filename.len() <= usize::MAX
        &&& forall|i: int| 0 <= i < self.args.len() ==> #[trigger] self.args[i].len() <= usize::MAX
    }

    /// The event that `bytes` are the data of; nothing when `bytes` end
    /// before the path of the program does, or inside an argument.
    pub open spec fn from_payload(bytes: Seq<u8>) -> Option<ExecEventView> {
        if bytes.len() < EXEC_FIXED_SIZE {
            None
        } else {
            let numbers = i64s_value(bytes.skip(4), 4);
            match strings_value(bytes.skip(EXEC_FIXED_SIZE as int)) {
                Some(strings) if strings.len() > 0 => Some(
                    ExecEventView {
                        pid: i32_value(bytes),
                        monotonic_time: Timespec { tv_sec: numbers[0], tv_nsec: numbers[1] },
                        start_time: Timespec { tv_sec: numbers[2], tv_nsec: numbers[3] },
                        filename: strings[0],
                        args: strings.skip(1),
                    },
                ),
                _ => None,
            }
        }
    }
}

/// The bytes of a run that grows by one string grow by the bytes of that
/// string.
pub proof fn lemma_strings_bytes_push(strings: Seq<Seq<u8>>, string: Seq<u8>)
    ensures
        strings_bytes(strings.push(string)) == strings_bytes(strings) + string_bytes(string),
    decreases strings.len(),
{
    if strings.len() == 0 {
        assert(strings.push(string).skip(1) =~= Seq::<Seq<u8>>::empty());
        assert(strings_bytes(strings.push(string).skip(1)) =~= Seq::<u8>::empty());
        assert(strings_bytes(strings.push(string)) =~= string_bytes(string));
    } else {
        assert(strings.push(string).skip(1) =~= strings.skip(1).push(string));
        lemma_strings_bytes_push(strings.skip(1), string);
        assert(strings_bytes(strings.push(string)) =~= strings_bytes(strings) + string_bytes(
            string,
        ));
    }
}

/// A run of strings is read back from its bytes.
pub proof fn lemma_strings_round_trip(strings: Seq<Seq<u8>>)
    requires
        forall|i: int| 0 <= i < strings.len() ==> #[trigger] strings[i].len() <= usize::MAX,
    ensures
        strings_value(strings_bytes(strings)) == Some(strings),
    decreases strings.len(),
{
    if strings.len() > 0 {
        let first = strings[0];
        let rest = strings.skip(1);
        let bytes = strings_bytes(strings);
        lemma_string_round_trip(first, strings_bytes(rest));
        lemma_strings_round_trip(rest);
        assert(bytes.skip(string_bytes(first).len() as int) =~= strings_bytes(rest));
        assert(seq![first] + rest =~= strings);
    }
}

/// An event is read back from its data.
pub proof fn lemma_payload_round_trip(event: ExecEventView)
    requires
        event.wf(),
    ensures
        ExecEventView::from_payload(event.payload()) == Some(event),
{
    let numbers = times(event.monotonic_time, event.start_time);
    let strings = seq![event.filename] + event.args;
    let tail = strings_bytes(strings);
    let bytes = event.payload();
    assert(strings.skip(1) =~= event.args);
    assert(tail =~= string_bytes(event.filename) + strings_bytes(event.args));
    assert(bytes =~= i32_bytes(event.pid) + (i64s_bytes(numbers) + tail));
    lemma_i32_round_trip(event.pid, i64s_bytes(numbers) + tail);
    assert(bytes.skip(4) =~= i64s_bytes(numbers) + tail);
    lemma_i64s_round_trip(numbers, tail);
    assert(bytes.skip(EXEC_FIXED_SIZE as int) =~= tail);
    lemma_strings_round_trip(strings);
}

/// The bytes of two runs of strings, one after the other, are the bytes of
/// the first followed by the bytes of the second.
pub proof fn lemma_strings_bytes_concat(first: Seq<Seq<u8>>, second: Seq<Seq<u8>>)
    ensures
        strings_bytes(first + second) == strings_bytes(first) + strings_bytes(second),
    decreases first.len(),
{
    if first.len() == 0 {
        assert(first + second =~= second);
        assert(strings_bytes(first) =~= Seq::<u8>::empty());
        assert(strings_bytes(first) + strings_bytes(second) =~= strings_bytes(second));
    } else {
        assert((first + second).skip(1) =~= first.skip(1) + second);
        lemma_strings_bytes_concat(first.skip(1), second);
        assert(strings_bytes(first + second) =~= strings_bytes(first) + strings_bytes(second));
    }
}

/// The event that the arguments of `ExecEvent::serialize` describe.
pub open spec fn exec_event(
    pid: i32,
    monotonic_time: Timespec,
    start_time: Timespec,
    filename: Seq<u8>,
    args: Seq<Vec<u8>>,
) -> ExecEventView {
    ExecEventView { pid, monotonic_time, start_time, filename, args: strings_view(args) }
}

/// Number of bytes that the strings of `strings` take in an event, each cut
/// down to its first `limit` bytes; nothing when a `usize` cannot hold the
/// number, or when the number is above `bound`.
fn strings_size(strings: &[Vec<u8>], limit: usize, bound: usize) -> (size: Option<usize>)
    ensures
        size is Some <==> strings_bytes(
            truncated_strings(strings_view(strings@), limit as nat),
        ).len() <= bound,
        size matches Some(n) ==> n == strings_bytes(
            truncated_strings(strings_view(strings@), limit as nat),
        ).len(),
{
    let ghost all = truncated_strings(strings_view(strings@), limit as nat);
    let width = word_size();
    let mut size: usize = 0;
    let mut index: usize = 0;
    assert(all.take(0) =~= Seq::<Seq<u8>>::empty());
    while index < strings.len()
        invariant
            index <= strings@.len(),
            all == truncated_strings(strings_view(strings@), limit as nat),
            width == super::ioext::word_width(),
            size == strings_bytes(all.take(index as int)).len(),
            size <= bound,
        decreases strings@.len() - index,
    {
        let string = &strings[index];
        let kept = if string.len() <= limit {
            string.len()
        } else {
            limit
        };
        proof {
            let done = all.take(index as int);
            let next = all[index as int];
            assert(next =~= truncated(string@, limit as nat));
            assert(all.take(index + 1) =~= done.push(next));
            lemma_strings_bytes_push(done, next);
            lemma_usize_round_trip(next.len() as usize, Seq::empty());
            assert(all =~= all.take(index + 1) + all.skip(index + 1));
            lemma_strings_bytes_concat(all.take(index + 1), all.skip(index + 1));
        }
        if kept > bound - size || width > bound - size - kept {
            return None;
        }
        size = size + kept + width;
        index += 1;
    }
    assert(all.take(strings@.len() as int) =~= all);
    Some(size)
}

impl ExecEvent {
    /// Serialize data for an `ExecEvent` value.
    ///
    /// The event is written from the first byte of `output` on. The path of
    /// the program and each of its arguments are cut down to their first
    /// `limit` bytes. Returns the size of the event.
    ///
    /// Nothing is written when `output` has no room for the whole event, or
    /// when the size of the event does not fit in its first two bytes.
    pub fn serialize(
        output: &mut [u8],
        pid: i32,
        monotonic_time: Timespec,
        start_time: Timespec,
        filename: &[u8],
        args: &[Vec<u8>],
        limit: usize,
    ) -> (written: Result<usize, SerializeError>)
        ensures
            ({
                let event = exec_event(
                    pid,
                    monotonic_time,
                    start_time,
                    filename@,
                    args@,
                ).truncated(limit as nat);
                let size = HEADER_SIZE + event.payload().len();
                &&& written is Ok <==> size <= old(output)@.len() && size <= MAX_EVENT_SIZE
                &&& written matches Ok(n) ==> n == size && final(output)@ == overwrite(
                    old(output)@,
                    0,
                    record(EXECVE_TAG, event.payload()),
                )
                &&& written is Err ==> final(output)@ == old(output)@
                &&& written == Err::<usize, SerializeError>(SerializeError::WriteZero) <==> size
                    > old(output)@.len()
            }),
    {
        let ghost event = exec_event(
            pid,
            monotonic_time,
            start_time,
            filename@,
            args@,
        ).truncated(limit as nat);
        let ghost numbers = times(monotonic_time, start_time);
        let ghost fixed = i32_bytes(pid) + i64s_bytes(numbers);
        let ghost name = string_bytes(event.filename);
        let ghost before = old(output)@;
        proof {
            lemma_i32_round_trip(pid, Seq::empty());
            lemma_i64s_round_trip(numbers, Seq::empty());
            lemma_usize_round_trip(event.filename.len() as usize, Seq::empty());
            assert(event.payload().len() == EXEC_FIXED_SIZE + name.len() + strings_bytes(
                event.args,
            ).len());
        }

        // Size of the event.
        let total = output.len();
        if total < HEADER_SIZE + EXEC_FIXED_SIZE {
            return Err(SerializeError::WriteZero);
        }
        let room = total - HEADER_SIZE - EXEC_FIXED_SIZE;
        let width = word_size();
        let kept = if filename.len() <= limit {
            filename.len()
        } else {
            limit
        };
        if kept > room || width > room - kept {
            return Err(SerializeError::WriteZero);
        }
        let size = match strings_size(args, limit, room - kept - width) {
            Some(size) => HEADER_SIZE + EXEC_FIXED_SIZE + kept + width + size,
            None => return Err(SerializeError::WriteZero),
        };
        if size > MAX_EVENT_SIZE {
            return Err(SerializeError::TooLong);
        }

        let mut payload = EventPayload::new(output, EXECVE_TAG)?;

        // pid and timespec fields.
        payload.write_i32(output, pid)?;
        let numbers = [
            monotonic_time.tv_sec,
            monotonic_time.tv_nsec,
            start_time.tv_sec,
            start_time.tv_nsec,
        ];
        payload.write_i64s(output, numbers.as_slice())?;

        // filename and argv fields.
        payload.write_cstr(output, filename, limit)?;
        proof {
            let empty = Seq::<u8>::empty();
            lemma_overwrite_twice(before, 0, unfinished_record(EXECVE_TAG, empty), i32_bytes(pid));
            lemma_overwrite_twice(
                before,
                0,
                unfinished_record(EXECVE_TAG, empty) + i32_bytes(pid),
                i64s_bytes(numbers@),
            );
            lemma_overwrite_twice(
                before,
                0,
                unfinished_record(EXECVE_TAG, empty) + i32_bytes(pid) + i64s_bytes(numbers@),
                name,
            );
            assert(unfinished_record(EXECVE_TAG, empty) + i32_bytes(pid) + i64s_bytes(numbers@)
                + name =~= unfinished_record(EXECVE_TAG, fixed + name));
            assert(event.args.take(0) =~= Seq::<Seq<u8>>::empty());
            assert(fixed + name + strings_bytes(event.args.take(0)) =~= fixed + name);
        }

        let mut index: usize = 0;
        while index < args.len()
            invariant
                index <= args@.len(),
                event == exec_event(
                    pid,
                    monotonic_time,
                    start_time,
                    filename@,
                    args@,
                ).truncated(limit as nat),
                size == HEADER_SIZE + EXEC_FIXED_SIZE + name.len() + strings_bytes(
                    event.args,
                ).len(),
                size <= output@.len(),
                output@.len() == before.len(),
                fixed.len() == EXEC_FIXED_SIZE,
                payload.position() == HEADER_SIZE + EXEC_FIXED_SIZE + name.len() + strings_bytes(
                    event.args.take(index as int),
                ).len(),
                output@ == overwrite(
                    before,
                    0,
                    unfinished_record(
                        EXECVE_TAG,
                        fixed + name + strings_bytes(event.args.take(index as int)),
                    ),
                ),
            decreases args@.len() - index,
        {
            proof {
                let done = event.args.take(index as int);
                let next = event.args[index as int];
                assert(next =~= truncated(args@[index as int]@, limit as nat));
                assert(event.args.take(index + 1) =~= done.push(next));
                lemma_strings_bytes_push(done, next);
                assert(event.args =~= event.args.take(index + 1) + event.args.skip(index + 1));
                lemma_strings_bytes_concat(
                    event.args.take(index + 1),
                    event.args.skip(index + 1),
                );
                lemma_overwrite_twice(
                    before,
                    0,
                    unfinished_record(EXECVE_TAG, fixed + name + strings_bytes(done)),
                    string_bytes(next),
                );
                assert(unfinished_record(EXECVE_TAG, fixed + name + strings_bytes(done))
                    + string_bytes(next) =~= unfinished_record(
                    EXECVE_TAG,
                    fixed + name + strings_bytes(event.args.take(index + 1)),
                ));
            }
            payload.write_cstr(output, args[index].as_slice(), limit)?;
            index += 1;
        }

        // Compute written bytes.
        proof {
            assert(event.args.take(args@.len() as int) =~= event.args);
            assert(fixed + name + strings_bytes(event.args) =~= event.payload());
            lemma_finished_record(before, EXECVE_TAG, event.payload());
        }
        let size = payload.finish(output)?;
        Ok(size as usize)
    }

    /// Deserialize data.
    pub fn deserialize(buf: &[u8]) -> (event: Result<ExecEvent, DeserializeError>)
        ensures
            match event {
                Ok(event) => ExecEventView::from_payload(buf@) == Some(event@),
                Err(error) => ExecEventView::from_payload(buf@) is None,
            },
    {
        // Read pid and timespec fields.
        let (pid, after_pid) = match read_i32(buf) {
            Some(read) => read,
            None => return Err(DeserializeError::UnexpectedEof),
        };
        let (numbers, after_times) = match read_i64s(after_pid, 4) {
            Some(read) => read,
            None => return Err(DeserializeError::UnexpectedEof),
        };
        assert(after_times@ =~= buf@.skip(EXEC_FIXED_SIZE as int));

        // Read arguments as strings.
        let ghost strings = after_times@;
        let (filename, after_filename) = match read_cstr(after_times) {
            Some(read) => read,
            None => return Err(DeserializeError::UnexpectedEof),
        };

        let mut args: Vec<Vec<u8>> = Vec::new();
        let mut rest: &[u8] = after_filename;
        assert(seq![filename@] + strings_view(args@) =~= seq![filename@]);
        while rest.len() > 0
            invariant
                buf@.len() >= EXEC_FIXED_SIZE,
                strings == buf@.skip(EXEC_FIXED_SIZE as int),
                strings_value(strings) == match strings_value(rest@) {
                    Some(tail) => Some(seq![filename@] + strings_view(args@) + tail),
                    None => None,
                },
            decreases rest@.len(),
        {
            let ghost before = rest@;
            let ghost found = strings_view(args@);
            match read_cstr(rest) {
                Some((arg, after)) => {
                    args.push(arg);
                    rest = after;
                    proof {
                        assert(strings_view(args@) =~= found.push(arg@));
                        match strings_value(after@) {
                            Some(tail) => {
                                assert(seq![filename@] + strings_view(args@) + tail =~= seq![
                                    filename@,
                                ] + found + (seq![arg@] + tail));
                            },
                            None => {},
                        }
                    }
                },
                None => return Err(DeserializeError::UnexpectedEof),
            }
        }
        proof {
            assert(seq![filename@] + strings_view(args@) + Seq::<Seq<u8>>::empty() =~= seq![
                filename@,
            ] + strings_view(args@));
            assert((seq![filename@] + strings_view(args@)).skip(1) =~= strings_view(args@));
        }

        Ok(
            ExecEvent {
                pid,
                monotonic_time: Timespec { tv_sec: numbers[0], tv_nsec: numbers[1] },
                start_time: Timespec { tv_sec: numbers[2], tv_nsec: numbers[3] },
                filename,
                args,
            },
        )
    }
}

} // verus!
