use timehistory::ipc::sharedbuffer::{
    BufferError, LockError, DEFAULT_MAX_CMDLINE, ETIMEDOUT, MIN_BUFFER_SIZE,
};
use timehistory::ipc::{drain, CmdLineLimitVariable, SharedBuffer, SharedBufferGuard};
use timehistory::ipc::events::Event;
use timehistory::procs::{write_event, write_wait_event};
use timehistory::rusage::Rusage;
use timehistory::time::Timespec;

const HEADER: usize = 48;

#[test]
fn send_data() {
    let mut buffer: SharedBuffer = SharedBuffer::new(MIN_BUFFER_SIZE, HEADER).unwrap();

    // Four writers take turns, until the buffer is filled.
    let writers: usize = 4;
    let mut turn: usize = 0;
    loop {
        let lock: &mut SharedBufferGuard = buffer.lock(0).unwrap();
        let data: &mut [u8] = lock.output();
        if data.is_empty() {
            break;
        }
        let idx: usize = turn % writers;
        if (MIN_BUFFER_SIZE - HEADER - data.len()) % writers == idx {
            data[0] = idx as u8 + b'A';
            assert!(lock.advance(1));
        }
        turn += 1;
    }

    // Check written data.
    let lock: &mut SharedBufferGuard = buffer.lock(0).unwrap();
    assert_eq!(lock.output().len(), 0);

    let data: &[u8] = lock.input();
    assert_eq!(data.len(), MIN_BUFFER_SIZE - HEADER);

    for (a, b) in data.iter().zip("ABCD".chars().cycle()) {
        assert_eq!(*a as char, b);
    }

    lock.clear();
    assert_eq!(lock.input().len(), 0);
    assert_eq!(lock.output().len(), MIN_BUFFER_SIZE - HEADER);
}

#[test]
fn buffer_length_too_small() {
    assert_eq!(
        SharedBuffer::new(MIN_BUFFER_SIZE - 1, HEADER).err(),
        Some(BufferError::InvalidInput)
    );
    assert_eq!(SharedBuffer::new(0, 0).err(), Some(BufferError::InvalidInput));
    assert_eq!(
        SharedBuffer::new(MIN_BUFFER_SIZE, MIN_BUFFER_SIZE + 1).err(),
        Some(BufferError::InvalidInput)
    );
    assert_eq!(SharedBuffer::capacity(MIN_BUFFER_SIZE, HEADER), Ok(4048));
    assert_eq!(SharedBuffer::capacity(16 * 1024, 56), Ok(16328));
    assert_eq!(SharedBuffer::capacity(4095, 0), Err(BufferError::InvalidInput));
}

#[test]
fn lock_that_timed_out() {
    let mut buffer: SharedBuffer = SharedBuffer::new(MIN_BUFFER_SIZE, HEADER).unwrap();
    assert_eq!(buffer.lock(ETIMEDOUT).err(), Some(LockError::TimedOut));
    assert_eq!(buffer.lock(110).err(), Some(LockError::TimedOut));
    assert_eq!(buffer.lock(22).err(), Some(LockError::Os(22)));
    assert_eq!(buffer.lock(-1).err(), Some(LockError::Os(-1)));
    assert!(buffer.lock(0).is_ok());
    assert_eq!(LockError::from_raw_os_error(110), LockError::TimedOut);
    assert_eq!(LockError::from_raw_os_error(1), LockError::Os(1));
}

#[test]
fn advance_beyond_capacity_is_refused() {
    let mut guard: SharedBufferGuard = SharedBufferGuard::from_parts(0, 256, vec![7; 10]).unwrap();
    assert_eq!(guard.capacity(), 10);
    assert!(guard.advance(4));
    assert!(!guard.advance(7));
    assert_eq!(guard.position(), 4);
    assert!(!guard.advance(usize::MAX));
    assert_eq!(guard.position(), 4);
    assert!(guard.advance(6));
    assert!(!guard.advance(1));
    assert!(guard.advance(0));
    assert_eq!(guard.position(), 10);
    assert_eq!(guard.input(), &[7; 10]);
    assert_eq!(guard.output().len(), 0);
    guard.clear();
    assert_eq!(guard.position(), 0);
    assert_eq!(guard.into_parts(), (0, 256, vec![7; 10]));
}

#[test]
fn guard_from_parts() {
    assert!(SharedBufferGuard::from_parts(11, 1, vec![0; 10]).is_none());
    let guard: SharedBufferGuard = SharedBufferGuard::from_parts(3, 9, vec![1, 2, 3, 4]).unwrap();
    assert_eq!(guard.input(), &[1, 2, 3]);
    assert_eq!(guard.max_cmdline(), 9);
    assert_eq!(guard.position(), 3);
}

#[test]
fn event_that_does_not_fit_leaves_the_buffer_untouched() {
    let time = Timespec { tv_sec: 1, tv_nsec: 2 };
    let mut guard: SharedBufferGuard = SharedBufferGuard::from_parts(0, 256, vec![0; 150]).unwrap();

    assert!(write_event(&mut guard, 1, time, time, b"/bin/ls", &[b"ls".to_vec()]).is_ok());
    let cursor: usize = guard.position();
    assert!(cursor > 0);
    let before: (usize, usize, Vec<u8>) = {
        let copy: Vec<u8> = guard.input().to_vec();
        let free: Vec<u8> = guard.output().to_vec();
        (cursor, guard.max_cmdline(), [copy, free].concat())
    };

    // There is no room for the event again, with one more argument.
    let sent = write_event(
        &mut guard,
        2,
        time,
        time,
        b"/bin/ls",
        &[b"ls".to_vec(), vec![b'x'; 64]],
    );
    assert!(sent.is_err());
    assert_eq!(guard.position(), cursor);
    assert_eq!(guard.into_parts(), before);
}

#[test]
fn wait_event_that_does_not_fit_leaves_the_buffer_untouched() {
    let time = Timespec { tv_sec: 1, tv_nsec: 2 };
    let mut guard: SharedBufferGuard = SharedBufferGuard::from_parts(5, 256, vec![9; 175]).unwrap();
    assert!(write_wait_event(&mut guard, 1, 0, time, Rusage::zeroed()).is_err());
    assert_eq!(guard.into_parts(), (5, 256, vec![9; 175]));

    let mut guard: SharedBufferGuard = SharedBufferGuard::from_parts(5, 256, vec![9; 176]).unwrap();
    assert!(write_wait_event(&mut guard, 1, 0, time, Rusage::zeroed()).is_ok());
    assert_eq!(guard.position(), 176);
    assert_eq!(&guard.input()[..5], &[9; 5]);
}

#[test]
fn events_are_drained_in_arrival_order() {
    let time = Timespec { tv_sec: 1, tv_nsec: 2 };
    let mut buffer: SharedBuffer = SharedBuffer::new(MIN_BUFFER_SIZE, HEADER).unwrap();
    let guard: &mut SharedBufferGuard = buffer.lock(0).unwrap();
    assert_eq!(guard.max_cmdline(), DEFAULT_MAX_CMDLINE);

    write_event(guard, 10, time, time, b"/bin/a", &[b"a".to_vec()]).unwrap();
    write_wait_event(guard, 10, 0, time, Rusage::zeroed()).unwrap();
    write_event(guard, 11, time, time, b"/bin/b", &[]).unwrap();

    let events: Vec<Event> = drain(guard);
    assert_eq!(events.len(), 3);
    assert!(matches!(&events[0], Event::Exec(e) if e.pid == 10 && e.args == [b"a".to_vec()]));
    assert!(matches!(&events[1], Event::Wait(e) if e.pid == 10));
    assert!(matches!(&events[2], Event::Exec(e) if e.pid == 11 && e.args.is_empty()));

    assert_eq!(guard.position(), 0);
    assert!(drain(guard).is_empty());

    // The buffer is used again from its start.
    write_event(guard, 12, time, time, b"/bin/c", &[]).unwrap();
    let events: Vec<Event> = drain(guard);
    assert_eq!(events.len(), 1);
    assert!(matches!(&events[0], Event::Exec(e) if e.pid == 12));
}

#[test]
fn arguments_are_cut_down_to_the_limit_of_the_buffer() {
    let time = Timespec { tv_sec: 1, tv_nsec: 2 };
    let mut guard: SharedBufferGuard = SharedBufferGuard::from_parts(0, 256, vec![0; 512]).unwrap();
    let mut variable = CmdLineLimitVariable;

    assert_eq!(variable.get(&guard), b"256".to_vec());
    assert!(variable.set(&mut guard, b"3"));
    assert_eq!(variable.get(&guard), b"3".to_vec());
    assert!(!variable.set(&mut guard, b"three"));
    assert!(!variable.set(&mut guard, b""));
    assert!(!variable.set(&mut guard, b"-3"));
    assert!(!variable.set(&mut guard, b" 3"));
    assert_eq!(guard.max_cmdline(), 3);

    write_event(&mut guard, 10, time, time, b"/bin/ls", &[b"ls".to_vec(), b"--all".to_vec()])
        .unwrap();
    let events: Vec<Event> = drain(&mut guard);
    match &events[0] {
        Event::Exec(event) => {
            assert_eq!(event.filename, b"/bi".to_vec());
            assert_eq!(event.args, [b"ls".to_vec(), b"--a".to_vec()]);
        }
        _ => panic!("invalid event"),
    }

    assert!(variable.set(&mut guard, b"+0012"));
    assert_eq!(guard.max_cmdline(), 12);
}
