//! Events sent from forked processes.
//!
//! # Serialization Format
//!
//! Events are serialized to any byte buffer. Each event is written in the
//! following format:
//!
//! * Size in bytes of the event (`u16`), these two bytes included.
//! * Tag to identify the event type (`u8`).
//! * Event data.
//!
//! This format is generated by the `EventPayload` wrapper.

pub mod exec;
pub mod ioext;
pub mod wait;

use ioext::{
    lemma_u16_round_trip, overwrite, string_bytes, truncated, u16_bytes, write_bytes, write_cstr,
    write_i32, write_i64s, write_u16,
};
use exec::{ExecEventView, EXECVE_TAG};
use ioext::{i32_bytes, i64s_bytes, read_u16, u16_value};
use wait::WAIT_TAG;
use vstd::prelude::*;

pub use exec::ExecEvent;
pub use wait::WaitEvent;

verus! {

/// Why an event was not written.
#[derive(Clone, Copy, Debug, PartialEq, Eq, Structural)]
pub enum SerializeError {
    /// The output has no room for the whole event.
    WriteZero,
    /// The size of the event does not fit in its first two bytes.
    TooLong,
}

/// Why no event was read.
#[derive(Clone, Copy, Debug, PartialEq, Eq, Structural)]
pub enum DeserializeError {
    /// The data ends before the event does.
    UnexpectedEof,
}

/// Bytes of an event before its data: its size and its tag.
pub const HEADER_SIZE: usize = 3;

/// Largest size that the first two bytes of an event can hold.
pub const MAX_EVENT_SIZE: usize = 0xffff;

/// The bytes of an event with the tag `tag` and the data `payload`.
pub open spec fn record(tag: u8, payload: Seq<u8>) -> Seq<u8> {
    u16_bytes((HEADER_SIZE + payload.len()) as u16) + seq![tag] + payload
}

/// The bytes of an event whose size is not written yet.
pub open spec fn unfinished_record(tag: u8, payload: Seq<u8>) -> Seq<u8> {
    seq![0u8, 0u8, tag] + payload
}

/// To write the size over an unfinished event gives the event.
pub proof fn lemma_finished_record(base: Seq<u8>, tag: u8, payload: Seq<u8>)
    requires
        HEADER_SIZE + payload.len() <= MAX_EVENT_SIZE,
    ensures
        record(tag, payload).len() == HEADER_SIZE + payload.len(),
        overwrite(
            overwrite(base, 0, unfinished_record(tag, payload)),
            0,
            u16_bytes((HEADER_SIZE + payload.len()) as u16),
        ) == overwrite(base, 0, record(tag, payload)),
{
    let size = (HEADER_SIZE + payload.len()) as u16;
    lemma_u16_round_trip(size, Seq::empty());
    assert(overwrite(overwrite(base, 0, unfinished_record(tag, payload)), 0, u16_bytes(size))
        =~= overwrite(base, 0, record(tag, payload)));
}

/// Wrapper to serialize events.
///
/// An event is written from the first byte of a stream on. The wrapper
/// keeps the number of bytes of the event that the stream holds.
pub struct EventPayload {
    position: usize,
}

impl EventPayload {
    /// Number of bytes of the event written so far, its size and its tag
    /// included.
    pub closed spec fn position(&self) -> usize {
        self.position
    }

    /// Starts an event at the first byte of `stream`: leaves room for the
    /// size and writes the tag.
    pub fn new(stream: &mut [u8], tag: u8) -> (payload: Result<EventPayload, SerializeError>)
        ensures
            payload is Ok <==> old(stream)@.len() >= HEADER_SIZE,
            payload matches Ok(p) ==> p.position() == HEADER_SIZE && final(stream)@ == overwrite(
                old(stream)@,
                0,
                unfinished_record(tag, Seq::empty()),
            ),
            payload matches Err(e) ==> e == SerializeError::WriteZero && final(stream)@
                == old(stream)@,
    {
        let header: [u8; 3] = [0, 0, tag];
        assert(header@ =~= unfinished_record(tag, Seq::empty()));
        match write_bytes(stream, 0, header.as_slice()) {
            Some(position) => Ok(EventPayload { position }),
            None => Err(SerializeError::WriteZero),
        }
    }

    /// Writes an `i32` after what the event holds.
    pub fn write_i32(&mut self, stream: &mut [u8], value: i32) -> (written: Result<
        (),
        SerializeError,
    >)
        ensures
            written is Ok <==> old(self).position() + 4 <= old(stream)@.len(),
            written is Ok ==> final(self).position() == old(self).position() + 4
                && final(stream)@ == overwrite(
                old(stream)@,
                old(self).position() as int,
                i32_bytes(value),
            ),
            written matches Err(e) ==> e == SerializeError::WriteZero && *final(self)
                == *old(self) && final(stream)@ == old(stream)@,
    {
        match write_i32(stream, self.position, value) {
            Some(position) => {
                self.position = position;
                Ok(())
            },
            None => Err(SerializeError::WriteZero),
        }
    }

    /// Writes a run of `i64` after what the event holds.
    pub fn write_i64s(&mut self, stream: &mut [u8], values: &[i64]) -> (written: Result<
        (),
        SerializeError,
    >)
        ensures
            written is Ok <==> old(self).position() + 8 * values@.len() <= old(stream)@.len(),
            written is Ok ==> final(self).position() == old(self).position() + 8 * values@.len()
                && final(stream)@ == overwrite(
                old(stream)@,
                old(self).position() as int,
                i64s_bytes(values@),
            ),
            written matches Err(e) ==> e == SerializeError::WriteZero && *final(self)
                == *old(self) && final(stream)@ == old(stream)@,
    {
        match write_i64s(stream, self.position, values) {
            Some(position) => {
                self.position = position;
                Ok(())
            },
            None => Err(SerializeError::WriteZero),
        }
    }

    /// Writes a string after what the event holds: its length, as a
    /// `usize`, then its bytes. A string of more than `limit` bytes is cut
    /// down to its first `limit` bytes.
    pub fn write_cstr(&mut self, stream: &mut [u8], string: &[u8], limit: usize) -> (written:
        Result<(), SerializeError>)
        ensures
            written is Ok <==> old(self).position() + string_bytes(
                truncated(string@, limit as nat),
            ).len() <= old(stream)@.len(),
            written is Ok ==> final(self).position() == old(self).position() + string_bytes(
                truncated(string@, limit as nat),
            ).len() && final(stream)@ == overwrite(
                old(stream)@,
                old(self).position() as int,
                string_bytes(truncated(string@, limit as nat)),
            ),
            written matches Err(e) ==> e == SerializeError::WriteZero && *final(self)
                == *old(self) && final(stream)@ == old(stream)@,
    {
        match write_cstr(stream, self.position, string, limit) {
            Some(position) => {
                self.position = position;
                Ok(())
            },
            None => Err(SerializeError::WriteZero),
        }
    }

    /// Writes the leading two bytes to store the size of the payload, and
    /// returns the size.
    ///
    /// Nothing is written when the size does not fit in two bytes, or when
    /// `stream` has no two bytes.
    pub fn finish(self, stream: &mut [u8]) -> (size: Result<u64, SerializeError>)
        ensures
            size is Ok <==> self.position() <= MAX_EVENT_SIZE && old(stream)@.len() >= 2,
            size matches Ok(n) ==> n == self.position() && final(stream)@ == overwrite(
                old(stream)@,
                0,
                u16_bytes(self.position() as u16),
            ),
            size is Err ==> final(stream)@ == old(stream)@,
            size == Err::<u64, SerializeError>(SerializeError::TooLong) <==> self.position()
                > MAX_EVENT_SIZE,
    {
        if self.position > MAX_EVENT_SIZE {
            return Err(SerializeError::TooLong);
        }
        match write_u16(stream, 0, self.position as u16) {
            Some(_) => Ok(self.position as u64),
            None => Err(SerializeError::WriteZero),
        }
    }
}

/// Events in the shared buffer.
#[derive(Debug)]
pub enum Event {
    Exec(ExecEvent),
    Wait(WaitEvent),
}

/// What an `Event` holds.
pub ghost enum EventView {
    Exec(ExecEventView),
    Wait(WaitEvent),
}

impl View for Event {
    type V = EventView;

    open spec fn view(&self) -> EventView {
        match self {
            Event::Exec(event) => EventView::Exec(event@),
            Event::Wait(event) => EventView::Wait(*event),
        }
    }
}

/// What each of `events` holds.
pub open spec fn events_view(events: Seq<Event>) -> Seq<EventView> {
    Seq::new(events.len(), |i: int| events[i]@)
}

/// The event that the data `data` describe under the tag `tag`; nothing
/// for an unknown tag, or for data that end too early.
pub open spec fn event_from_payload(tag: u8, data: Seq<u8>) -> Option<EventView> {
    if tag == EXECVE_TAG {
        match ExecEventView::from_payload(data) {
            Some(event) => Some(EventView::Exec(event)),
            None => None,
        }
    } else if tag == WAIT_TAG {
        match WaitEvent::from_payload(data) {
            Some(event) => Some(EventView::Wait(event)),
            None => None,
        }
    } else {
        None
    }
}

/// The event at the start of `bytes`, and its size.
///
/// There is none when `bytes` are fewer than the size and the tag of an
/// event, fewer than the size that the event declares, or when the event
/// cannot be read.
#[verifier::opaque]
pub open spec fn first_event(bytes: Seq<u8>) -> Option<(EventView, nat)> {
    if bytes.len() < HEADER_SIZE {
        None
    } else {
        let size = u16_value(bytes) as nat;
        if size < HEADER_SIZE || size > bytes.len() {
            None
        } else {
            match event_from_payload(bytes[2], bytes.subrange(HEADER_SIZE as int, size as int)) {
                Some(event) => Some((event, size)),
                None => None,
            }
        }
    }
}

/// An event takes three bytes at least, and no more than there are.
pub proof fn lemma_first_event_size(bytes: Seq<u8>)
    ensures
        first_event(bytes) matches Some((_, size)) ==> HEADER_SIZE <= size <= bytes.len(),
{
    reveal(first_event);
}

/// The events of `bytes`, in the order in which they were written, up to
/// the first place where no event can be read.
pub open spec fn events(bytes: Seq<u8>) -> Seq<EventView>
    decreases bytes.len(),
{
    match first_event(bytes) {
        Some((event, size)) if 0 < size <= bytes.len() => seq![event] + events(
            bytes.skip(size as int),
        ),
        _ => Seq::empty(),
    }
}

/// Parser to extract events from a byte slice.
pub struct EventsParser<'a> {
    buffer: &'a [u8],
}

impl<'a> View for EventsParser<'a> {
    type V = Seq<u8>;

    /// The bytes that are left to read.
    closed spec fn view(&self) -> Seq<u8> {
        self.buffer@
    }
}

impl<'a> EventsParser<'a> {
    /// Returns a parser to read events from a byte slice.
    pub fn new(buffer: &'a [u8]) -> (parser: EventsParser<'a>)
        ensures
            parser@ == buffer@,
    {
        EventsParser { buffer }
    }

    /// Reads the next event, and steps over it.
    ///
    /// Returns nothing, and stays in place, where no event can be read.
    pub fn next(&mut self) -> (event: Option<Event>)
        ensures
            match event {
                Some(event) => first_event(old(self)@) matches Some((found, size)) && found
                    == event@ && final(self)@ == old(self)@.skip(size as int),
                None => first_event(old(self)@) is None && final(self)@ == old(self)@,
            },
    {
        reveal(first_event);
        let buf = self.buffer;

        // Size of the current event.
        let event_size = match read_u16(buf) {
            Some((size, _)) => size as usize,
            None => return None,
        };
        if buf.len() < HEADER_SIZE || event_size < HEADER_SIZE || event_size > buf.len() {
            return None;
        }
        let event_tag = buf[2];
        let event_data = vstd::slice::slice_subrange(buf, HEADER_SIZE, event_size);

        let event = if event_tag == EXECVE_TAG {
            match ExecEvent::deserialize(event_data) {
                Ok(event) => Event::Exec(event),
                Err(_) => return None,
            }
        } else if event_tag == WAIT_TAG {
            match WaitEvent::deserialize(event_data) {
                Ok(event) => Event::Wait(event),
                Err(_) => return None,
            }
        } else {
            return None;
        };

        self.buffer = vstd::slice::slice_subrange(buf, event_size, buf.len());
        assert(self.buffer@ =~= buf@.skip(event_size as int));
        Some(event)
    }

    /// Reads the events that are left, in order.
    pub fn collect(self) -> (found: Vec<Event>)
        ensures
            events_view(found@) == events(self@),
    {
        let mut parser = self;
        let mut found: Vec<Event> = Vec::new();
        assert(events_view(found@) =~= Seq::<EventView>::empty());
        loop
            invariant
                events(self@) == events_view(found@) + events(parser@),
            decreases parser@.len(),
        {
            let ghost before = parser@;
            let ghost so_far = events_view(found@);
            proof {
                lemma_first_event_size(before);
            }
            match parser.next() {
                Some(event) => {
                    found.push(event);
                    proof {
                        assert(events_view(found@) =~= so_far.push(event@));
                        assert(so_far + (seq![event@] + events(parser@)) =~= events_view(found@)
                            + events(parser@));
                    }
                },
                None => {
                    assert(events(before) =~= Seq::<EventView>::empty());
                    assert(events_view(found@) + Seq::<EventView>::empty() =~= events_view(
                        found@,
                    ));
                    return found;
                },
            }
        }
    }
}

/// An `ExecEvent` that was written is read back: the parser finds it at the
/// start of the bytes, whatever follows it.
pub proof fn lemma_exec_round_trip(event: ExecEventView, rest: Seq<u8>)
    requires
        event.wf(),
        HEADER_SIZE + event.payload().len() <= MAX_EVENT_SIZE,
    ensures
        first_event(record(EXECVE_TAG, event.payload()) + rest) == Some(
            (EventView::Exec(event), (HEADER_SIZE + event.payload().len()) as nat),
        ),
        events(record(EXECVE_TAG, event.payload()) + rest) == seq![EventView::Exec(event)]
            + events(rest),
{
    reveal(first_event);
    lemma_record_round_trip(EXECVE_TAG, event.payload(), rest);
    exec::lemma_payload_round_trip(event);
}

/// A `WaitEvent` that was written is read back: the parser finds it at the
/// start of the bytes, whatever follows it.
pub proof fn lemma_wait_round_trip(event: WaitEvent, rest: Seq<u8>)
    ensures
        first_event(record(WAIT_TAG, event.payload()) + rest) == Some(
            (EventView::Wait(event), (HEADER_SIZE + event.payload().len()) as nat),
        ),
        events(record(WAIT_TAG, event.payload()) + rest) == seq![EventView::Wait(event)]
            + events(rest),
{
    reveal(first_event);
    wait::lemma_payload_round_trip(event, Seq::empty());
    assert(event.payload() + Seq::<u8>::empty() =~= event.payload());
    lemma_record_round_trip(WAIT_TAG, event.payload(), rest);
}

/// The size, the tag and the data of an event are read back from its bytes,
/// whatever follows them.
pub proof fn lemma_record_round_trip(tag: u8, payload: Seq<u8>, rest: Seq<u8>)
    requires
        HEADER_SIZE + payload.len() <= MAX_EVENT_SIZE,
    ensures
        ({
            let bytes = record(tag, payload) + rest;
            let size = HEADER_SIZE + payload.len();
            &&& bytes.len() == size + rest.len()
            &&& u16_value(bytes) == size
            &&& bytes[2] == tag
            &&& bytes.subrange(HEADER_SIZE as int, size) == payload
            &&& bytes.skip(size) == rest
        }),
{
    let size = (HEADER_SIZE + payload.len()) as u16;
    let bytes = record(tag, payload) + rest;
    lemma_u16_round_trip(size, seq![tag] + payload + rest);
    assert(bytes =~= u16_bytes(size) + (seq![tag] + payload + rest));
    assert(bytes.subrange(HEADER_SIZE as int, size as int) =~= payload);
    assert(bytes.skip(size as int) =~= rest);
}

/// `true` if `bytes` are events from the first byte to the last: every
/// event that was written is there as a whole, and nothing else.
pub open spec fn complete(bytes: Seq<u8>) -> bool
    decreases bytes.len(),
{
    bytes.len() == 0 || match first_event(bytes) {
        Some((_, size)) => 0 < size <= bytes.len() && complete(bytes.skip(size as int)),
        None => false,
    }
}

/// The first event of bytes is still their first event when more bytes
/// follow them.
pub proof fn lemma_first_event_of_prefix(bytes: Seq<u8>, tail: Seq<u8>)
    requires
        first_event(bytes) is Some,
    ensures
        first_event(bytes + tail) == first_event(bytes),
{
    reveal(first_event);
    let all = bytes + tail;
    let size = u16_value(bytes) as int;
    assert(all.take(2) =~= bytes.take(2));
    assert(all.subrange(HEADER_SIZE as int, size) =~= bytes.subrange(HEADER_SIZE as int, size));
}

/// The events of bytes are read in the order in which they were written:
/// what is written after whole events is read after them.
pub proof fn lemma_events_append(bytes: Seq<u8>, tail: Seq<u8>)
    requires
        complete(bytes),
    ensures
        events(bytes + tail) == events(bytes) + events(tail),
        complete(tail) ==> complete(bytes + tail),
    decreases bytes.len(),
{
    if bytes.len() == 0 {
        assert(bytes + tail =~= tail);
        assert(events(bytes) =~= Seq::<EventView>::empty());
        assert(events(bytes) + events(tail) =~= events(tail));
    } else {
        let (event, size) = first_event(bytes)->0;
        lemma_first_event_size(bytes);
        lemma_first_event_size(bytes + tail);
        lemma_first_event_of_prefix(bytes, tail);
        lemma_events_append(bytes.skip(size as int), tail);
        assert((bytes + tail).skip(size as int) =~= bytes.skip(size as int) + tail);
        assert(seq![event] + (events(bytes.skip(size as int)) + events(tail)) =~= events(bytes)
            + events(tail));
    }
}

/// An `ExecEvent` that is written after whole events is read after them.
pub proof fn lemma_exec_event_appended(bytes: Seq<u8>, event: ExecEventView)
    requires
        complete(bytes),
        event.wf(),
        HEADER_SIZE + event.payload().len() <= MAX_EVENT_SIZE,
    ensures
        complete(bytes + record(EXECVE_TAG, event.payload())),
        events(bytes + record(EXECVE_TAG, event.payload())) == events(bytes).push(
            EventView::Exec(event),
        ),
{
    let tail = record(EXECVE_TAG, event.payload());
    lemma_exec_round_trip(event, Seq::empty());
    lemma_record_round_trip(EXECVE_TAG, event.payload(), Seq::empty());
    lemma_single_event(tail);
    lemma_events_append(bytes, tail);
    assert(events(bytes) + seq![EventView::Exec(event)] =~= events(bytes).push(
        EventView::Exec(event),
    ));
}

/// A `WaitEvent` that is written after whole events is read after them.
pub proof fn lemma_wait_event_appended(bytes: Seq<u8>, event: WaitEvent)
    requires
        complete(bytes),
    ensures
        complete(bytes + record(WAIT_TAG, event.payload())),
        events(bytes + record(WAIT_TAG, event.payload())) == events(bytes).push(
            EventView::Wait(event),
        ),
{
    let tail = record(WAIT_TAG, event.payload());
    lemma_wait_round_trip(event, Seq::empty());
    wait::lemma_payload_round_trip(event, Seq::empty());
    lemma_record_round_trip(WAIT_TAG, event.payload(), Seq::empty());
    lemma_single_event(tail);
    lemma_events_append(bytes, tail);
    assert(events(bytes) + seq![EventView::Wait(event)] =~= events(bytes).push(
        EventView::Wait(event),
    ));
}

/// Bytes that are one event are whole events.
proof fn lemma_single_event(bytes: Seq<u8>)
    requires
        first_event(bytes + Seq::<u8>::empty()) matches Some((_, size)) && size == bytes.len()
            && size > 0,
    ensures
        complete(bytes),
        events(bytes) == seq![first_event(bytes).unwrap().0],
{
    assert(bytes + Seq::<u8>::empty() =~= bytes);
    let size = bytes.len() as int;
    assert(bytes.skip(size) =~= Seq::<u8>::empty());
    assert(complete(bytes.skip(size)));
    assert(events(bytes.skip(size)) =~= Seq::<EventView>::empty());
    assert(seq![first_event(bytes).unwrap().0] + Seq::<EventView>::empty() =~= seq![
        first_event(bytes).unwrap().0,
    ]);
}

} // verus!
