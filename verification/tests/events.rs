use timehistory::ipc::events::exec::{ExecEvent, EXECVE_TAG};
use timehistory::ipc::events::ioext::{
    read_cstr, read_i32, read_i64, read_i64s, read_u16, read_usize, word_size, write_bytes,
    write_cstr, write_i32, write_i64, write_i64s, write_u16,
};
use timehistory::ipc::events::wait::{WaitEvent, WAIT_SIZE, WAIT_TAG};
use timehistory::ipc::events::{
    DeserializeError, Event, EventPayload, EventsParser, SerializeError, HEADER_SIZE,
};
use timehistory::rusage::Rusage;
use timehistory::time::{Timespec, Timeval};

fn sample_rusage() -> Rusage {
    Rusage {
        ru_utime: Timeval { tv_sec: 1, tv_usec: 2 },
        ru_stime: Timeval { tv_sec: 3, tv_usec: 4 },
        ru_maxrss: 5,
        ru_ixrss: 6,
        ru_idrss: 7,
        ru_isrss: 8,
        ru_minflt: 9,
        ru_majflt: 10,
        ru_nswap: 11,
        ru_inblock: 12,
        ru_oublock: 13,
        ru_msgsnd: 14,
        ru_msgrcv: 15,
        ru_nsignals: 16,
        ru_nvcsw: -17,
        ru_nivcsw: i64::MIN,
    }
}

#[test]
fn send_three_exec_events() {
    let mut output: Vec<u8> = vec![0; 512];

    // Send three events.

    let mut written: usize = 0;
    for idx in 0..3i64 {
        let size: usize = ExecEvent::serialize(
            &mut output[written..],
            1000 + idx as i32,
            Timespec { tv_sec: 10000 + idx, tv_nsec: 20000 + idx },
            Timespec { tv_sec: 1000000 + idx, tv_nsec: 2000000 + idx },
            b"/bin/ls",
            &[b"ls".to_vec(), b"-l".to_vec(), format!("file{}", idx).into_bytes()],
            256,
        )
        .unwrap();

        written += size;
    }

    // Deserialize the events.
    let mut events = EventsParser::new(&output[..written]);
    for idx in 0..3i64 {
        let event: ExecEvent = match events.next() {
            Some(Event::Exec(e)) => e,
            _ => panic!("invalid event"),
        };

        assert_eq!(event.pid, 1000 + idx as i32);
        assert_eq!(event.monotonic_time.tv_sec, 10000 + idx);
        assert_eq!(event.monotonic_time.tv_nsec, 20000 + idx);
        assert_eq!(event.start_time.tv_sec, 1000000 + idx);
        assert_eq!(event.start_time.tv_nsec, 2000000 + idx);
        assert_eq!(event.filename, b"/bin/ls".to_vec());
        assert_eq!(
            event.args,
            [b"ls".to_vec(), b"-l".to_vec(), format!("file{}", idx).into_bytes()]
        );
    }

    assert!(events.next().is_none());
}

#[test]
fn exec_event_layout() {
    let word: usize = word_size();
    let mut output: Vec<u8> = vec![0xaa; 64];
    let size: usize = ExecEvent::serialize(
        &mut output,
        0x0102_0304,
        Timespec { tv_sec: 1, tv_nsec: 2 },
        Timespec { tv_sec: -1, tv_nsec: 3 },
        b"sh",
        &[],
        256,
    )
    .unwrap();
    assert_eq!(size, 3 + 4 + 32 + word + 2);

    let mut expected: Vec<u8> = Vec::new();
    expected.extend_from_slice(&(size as u16).to_ne_bytes());
    expected.push(EXECVE_TAG);
    expected.extend_from_slice(&0x0102_0304i32.to_ne_bytes());
    expected.extend_from_slice(&1i64.to_ne_bytes());
    expected.extend_from_slice(&2i64.to_ne_bytes());
    expected.extend_from_slice(&(-1i64).to_ne_bytes());
    expected.extend_from_slice(&3i64.to_ne_bytes());
    expected.extend_from_slice(&2usize.to_ne_bytes());
    expected.extend_from_slice(b"sh");
    assert_eq!(&output[..size], &expected[..]);
    assert!(output[size..].iter().all(|b| *b == 0xaa));
}

#[test]
fn exec_event_strings_are_truncated() {
    let mut output: Vec<u8> = vec![0; 256];
    let size: usize = ExecEvent::serialize(
        &mut output,
        7,
        Timespec { tv_sec: 0, tv_nsec: 0 },
        Timespec { tv_sec: 0, tv_nsec: 0 },
        b"/usr/bin/printf",
        &[b"printf".to_vec(), b"%s".to_vec(), b"".to_vec(), b"abcdefgh".to_vec()],
        4,
    )
    .unwrap();

    let mut events = EventsParser::new(&output[..size]);
    let event: ExecEvent = match events.next() {
        Some(Event::Exec(e)) => e,
        _ => panic!("invalid event"),
    };
    assert_eq!(event.filename, b"/usr".to_vec());
    assert_eq!(
        event.args,
        [b"prin".to_vec(), b"%s".to_vec(), b"".to_vec(), b"abcd".to_vec()]
    );
    assert!(events.next().is_none());
}

#[test]
fn exec_event_without_room() {
    let word: usize = word_size();
    let needed: usize = 3 + 4 + 32 + word + 2 + word + 1;
    let mut output: Vec<u8> = vec![0x55; needed - 1];
    let result = ExecEvent::serialize(
        &mut output,
        1,
        Timespec { tv_sec: 0, tv_nsec: 0 },
        Timespec { tv_sec: 0, tv_nsec: 0 },
        b"sh",
        &[b"x".to_vec()],
        256,
    );
    assert_eq!(result, Err(SerializeError::WriteZero));
    assert!(output.iter().all(|b| *b == 0x55));

    let mut output: Vec<u8> = vec![0x55; needed];
    let result = ExecEvent::serialize(
        &mut output,
        1,
        Timespec { tv_sec: 0, tv_nsec: 0 },
        Timespec { tv_sec: 0, tv_nsec: 0 },
        b"sh",
        &[b"x".to_vec()],
        256,
    );
    assert_eq!(result, Ok(needed));
}

#[test]
fn exec_event_too_long_for_its_size() {
    let mut output: Vec<u8> = vec![0x55; 70_000];
    let long: Vec<u8> = vec![b'a'; 66_000];
    let result = ExecEvent::serialize(
        &mut output,
        1,
        Timespec { tv_sec: 0, tv_nsec: 0 },
        Timespec { tv_sec: 0, tv_nsec: 0 },
        b"sh",
        &[long.clone()],
        100_000,
    );
    assert_eq!(result, Err(SerializeError::TooLong));
    assert!(output.iter().all(|b| *b == 0x55));

    // The same command fits when its argument is cut down.
    let result = ExecEvent::serialize(
        &mut output,
        1,
        Timespec { tv_sec: 0, tv_nsec: 0 },
        Timespec { tv_sec: 0, tv_nsec: 0 },
        b"sh",
        &[long],
        256,
    );
    assert_eq!(result, Ok(3 + 36 + word_size() + 2 + word_size() + 256));
}

#[test]
fn send_wait_events() {
    let mut output: Vec<u8> = vec![0; 512];
    let rusage: Rusage = sample_rusage();
    let finish_time = Timespec { tv_sec: 123, tv_nsec: 456 };

    let first: usize = WaitEvent::serialize(&mut output, 42, 256, finish_time, rusage).unwrap();
    assert_eq!(first, HEADER_SIZE + WAIT_SIZE);
    assert_eq!(first, 171);
    let second: usize =
        WaitEvent::serialize(&mut output[first..], -1, -2, finish_time, Rusage::zeroed())
            .unwrap();
    assert_eq!(output[2], WAIT_TAG);
    assert_eq!(u16::from_ne_bytes([output[0], output[1]]), 171);

    let mut events = EventsParser::new(&output[..first + second]);
    match events.next() {
        Some(Event::Wait(event)) => {
            assert_eq!(event, WaitEvent { pid: 42, status: 256, finish_time, rusage });
        }
        _ => panic!("invalid event"),
    }
    match events.next() {
        Some(Event::Wait(event)) => {
            assert_eq!(event.pid, -1);
            assert_eq!(event.status, -2);
            assert_eq!(event.rusage, Rusage::zeroed());
        }
        _ => panic!("invalid event"),
    }
    assert!(events.next().is_none());
}

#[test]
fn wait_event_without_room() {
    let mut output: Vec<u8> = vec![9; 170];
    let result = WaitEvent::serialize(
        &mut output,
        1,
        0,
        Timespec { tv_sec: 0, tv_nsec: 0 },
        Rusage::zeroed(),
    );
    assert_eq!(result, Err(SerializeError::WriteZero));
    assert!(output.iter().all(|b| *b == 9));
}

#[test]
fn events_of_both_kinds_in_order() {
    let mut output: Vec<u8> = vec![0; 1024];
    let time = Timespec { tv_sec: 5, tv_nsec: 6 };
    let mut written: usize = 0;
    written += ExecEvent::serialize(&mut output[written..], 10, time, time, b"a", &[], 8).unwrap();
    written +=
        WaitEvent::serialize(&mut output[written..], 10, 0, time, Rusage::zeroed()).unwrap();
    written += ExecEvent::serialize(&mut output[written..], 11, time, time, b"b", &[], 8).unwrap();

    let events: Vec<Event> = EventsParser::new(&output[..written]).collect();
    assert_eq!(events.len(), 3);
    assert!(matches!(&events[0], Event::Exec(e) if e.pid == 10 && e.filename == b"a"));
    assert!(matches!(&events[1], Event::Wait(e) if e.pid == 10));
    assert!(matches!(&events[2], Event::Exec(e) if e.pid == 11 && e.filename == b"b"));
}

#[test]
fn parser_stops_at_truncated_event() {
    let mut output: Vec<u8> = vec![0; 256];
    let time = Timespec { tv_sec: 5, tv_nsec: 6 };
    let first: usize = ExecEvent::serialize(&mut output, 10, time, time, b"a", &[], 8).unwrap();
    let second: usize =
        ExecEvent::serialize(&mut output[first..], 11, time, time, b"b", &[], 8).unwrap();

    // The last byte of the second event is missing.
    let mut events = EventsParser::new(&output[..first + second - 1]);
    assert!(matches!(events.next(), Some(Event::Exec(e)) if e.pid == 10));
    assert!(events.next().is_none());
    assert!(events.next().is_none());

    // Fewer bytes than the size and the tag of an event.
    assert!(EventsParser::new(&output[..2]).next().is_none());
    assert!(EventsParser::new(&[]).next().is_none());
}

#[test]
fn parser_stops_at_malformed_event() {
    // A size below the size of the header.
    let mut bytes: Vec<u8> = Vec::new();
    bytes.extend_from_slice(&2u16.to_ne_bytes());
    bytes.push(EXECVE_TAG);
    bytes.extend_from_slice(&[0; 64]);
    assert!(EventsParser::new(&bytes).next().is_none());

    // An unknown tag.
    let mut bytes: Vec<u8> = Vec::new();
    bytes.extend_from_slice(&8u16.to_ne_bytes());
    bytes.push(9);
    bytes.extend_from_slice(&[0; 5]);
    assert!(EventsParser::new(&bytes).next().is_none());

    // An event that ends before the path of its program.
    let mut bytes: Vec<u8> = Vec::new();
    bytes.extend_from_slice(&39u16.to_ne_bytes());
    bytes.push(EXECVE_TAG);
    bytes.extend_from_slice(&[0; 36]);
    assert!(EventsParser::new(&bytes).next().is_none());

    // A string that is longer than what is left of the event.
    let mut output: Vec<u8> = vec![0; 256];
    let time = Timespec { tv_sec: 5, tv_nsec: 6 };
    let size: usize = ExecEvent::serialize(&mut output, 10, time, time, b"a", &[], 8).unwrap();
    output[3 + 36..3 + 36 + word_size()].copy_from_slice(&usize::MAX.to_ne_bytes());
    assert!(EventsParser::new(&output[..size]).next().is_none());
}

#[test]
fn deserialize_exec_event() {
    let mut output: Vec<u8> = vec![0; 256];
    let size: usize = ExecEvent::serialize(
        &mut output,
        -5,
        Timespec { tv_sec: i64::MAX, tv_nsec: i64::MIN },
        Timespec { tv_sec: -1, tv_nsec: 999_999_999 },
        &[0, 0xff, b'/'],
        &[vec![], vec![0]],
        256,
    )
    .unwrap();
    let event: ExecEvent = ExecEvent::deserialize(&output[3..size]).unwrap();
    assert_eq!(event.pid, -5);
    assert_eq!(event.monotonic_time, Timespec { tv_sec: i64::MAX, tv_nsec: i64::MIN });
    assert_eq!(event.start_time, Timespec { tv_sec: -1, tv_nsec: 999_999_999 });
    assert_eq!(event.filename, vec![0, 0xff, b'/']);
    assert_eq!(event.args, [vec![], vec![0u8]]);

    assert_eq!(
        ExecEvent::deserialize(&output[3..size - 1]).err(),
        Some(DeserializeError::UnexpectedEof)
    );
    assert_eq!(
        ExecEvent::deserialize(&output[3..20]).err(),
        Some(DeserializeError::UnexpectedEof)
    );
}

#[test]
fn deserialize_wait_event() {
    let mut output: Vec<u8> = vec![0; 256];
    let rusage: Rusage = sample_rusage();
    let finish_time = Timespec { tv_sec: 77, tv_nsec: 88 };
    let size: usize = WaitEvent::serialize(&mut output, 3, 9, finish_time, rusage).unwrap();
    assert_eq!(
        WaitEvent::deserialize(&output[3..size]),
        Ok(WaitEvent { pid: 3, status: 9, finish_time, rusage })
    );
    // Bytes after the data are left out.
    assert_eq!(
        WaitEvent::deserialize(&output[3..]),
        Ok(WaitEvent { pid: 3, status: 9, finish_time, rusage })
    );
    assert_eq!(
        WaitEvent::deserialize(&output[3..size - 1]),
        Err(DeserializeError::UnexpectedEof)
    );
}

#[test]
fn payload_is_written_step_by_step() {
    let mut stream: Vec<u8> = vec![0xee; 32];
    let mut payload: EventPayload = EventPayload::new(&mut stream, 7).unwrap();
    assert_eq!(&stream[..3], &[0, 0, 7]);
    assert_eq!(payload.write_i32(&mut stream, -2), Ok(()));
    assert_eq!(payload.write_i64s(&mut stream, &[5]), Ok(()));
    assert_eq!(payload.write_cstr(&mut stream, b"abcdef", 3), Ok(()));
    assert_eq!(
        payload.write_i64s(&mut stream, &[1, 2, 3]),
        Err(SerializeError::WriteZero)
    );
    let size: u64 = payload.finish(&mut stream).unwrap();
    assert_eq!(size as usize, 3 + 4 + 8 + word_size() + 3);

    let mut expected: Vec<u8> = Vec::new();
    expected.extend_from_slice(&(size as u16).to_ne_bytes());
    expected.push(7);
    expected.extend_from_slice(&(-2i32).to_ne_bytes());
    expected.extend_from_slice(&5i64.to_ne_bytes());
    expected.extend_from_slice(&3usize.to_ne_bytes());
    expected.extend_from_slice(b"abc");
    assert_eq!(&stream[..size as usize], &expected[..]);
    assert!(stream[size as usize..].iter().all(|b| *b == 0xee));
}

#[test]
fn payload_needs_room_for_its_header() {
    let mut stream: Vec<u8> = vec![1, 2];
    assert!(matches!(
        EventPayload::new(&mut stream, 7),
        Err(SerializeError::WriteZero)
    ));
    assert_eq!(stream, vec![1, 2]);
}

#[test]
fn write_and_read_primitives() {
    let mut data: Vec<u8> = vec![0; 64];

    let mut position: usize = write_u16(&mut data, 0, 10).unwrap();
    assert_eq!(position, 2);
    position = write_i32(&mut data, position, -1).unwrap();
    position = write_i32(&mut data, position, 2).unwrap();
    position = write_i64(&mut data, position, i64::MIN).unwrap();
    position = write_i64s(&mut data, position, &[7, -8]).unwrap();
    position = write_cstr(&mut data, position, b"hello", 4).unwrap();
    position = write_bytes(&mut data, position, &[1, 2, 3]).unwrap();
    assert_eq!(position, 2 + 4 + 4 + 8 + 16 + word_size() + 4 + 3);
    assert_eq!(&data[..2], &10u16.to_ne_bytes());
    assert_eq!(&data[2..6], &(-1i32).to_ne_bytes());
    assert_eq!(&data[10..18], &i64::MIN.to_ne_bytes());

    let input: &[u8] = &data[..position];
    let (a, input) = read_u16(input).unwrap();
    assert_eq!(a, 10);
    let (b, input) = read_i32(input).unwrap();
    assert_eq!(b, -1);
    let (c, input) = read_i32(input).unwrap();
    assert_eq!(c, 2);
    let (d, input) = read_i64(input).unwrap();
    assert_eq!(d, i64::MIN);
    let (e, input) = read_i64s(input, 2).unwrap();
    assert_eq!(e, vec![7, -8]);
    let (f, input) = read_cstr(input).unwrap();
    assert_eq!(f, b"hell".to_vec());
    assert_eq!(input, &[1, 2, 3]);

    assert!(read_u16(&[1]).is_none());
    assert!(read_i32(&[1, 2, 3]).is_none());
    assert!(read_i64(&[0; 7]).is_none());
    assert!(read_i64s(&[0; 15], 2).is_none());
    assert!(read_usize(&[0; 3]).is_none());
    assert!(read_cstr(&usize::MAX.to_ne_bytes()).is_none());
    assert_eq!(read_usize(&300usize.to_ne_bytes()).unwrap().0, 300);
}

#[test]
fn write_primitives_without_room() {
    let mut data: Vec<u8> = vec![3; 6];
    assert!(write_i64(&mut data, 0, 1).is_none());
    assert!(write_i32(&mut data, 3, 1).is_none());
    assert!(write_u16(&mut data, 5, 1).is_none());
    assert!(write_u16(&mut data, 7, 1).is_none());
    assert!(write_cstr(&mut data, 0, b"abc", 8).is_none());
    assert!(write_i64s(&mut data, 0, &[1]).is_none());
    assert!(write_bytes(&mut data, 4, &[1, 2, 3]).is_none());
    assert_eq!(data, vec![3; 6]);
    assert_eq!(write_bytes(&mut data, 6, &[]), Some(6));
    assert_eq!(write_i64s(&mut data, 6, &[]), Some(6));
}
