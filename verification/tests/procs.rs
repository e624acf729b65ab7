use timehistory::history::{History, State};
use timehistory::ipc::SharedBufferGuard;
use timehistory::procs::{
    collect_execve_events, store_process_result, write_event, write_wait_event, UNKNOWN_STATUS,
};
use timehistory::rusage::Rusage;
use timehistory::time::{Duration, Timespec};

fn at(tv_sec: i64, tv_nsec: i64) -> Timespec {
    Timespec { tv_sec, tv_nsec }
}

#[test]
fn commands_are_collected_and_completed() {
    let mut buffer: SharedBufferGuard =
        SharedBufferGuard::from_parts(0, 256, vec![0; 4096]).unwrap();
    let mut history: History = History::new();

    // Two children run a program each.
    write_event(&mut buffer, 100, at(10, 0), at(1000, 0), b"/bin/sleep", &[b"sleep".to_vec()])
        .unwrap();
    write_event(&mut buffer, 101, at(11, 0), at(1001, 0), b"/bin/true", &[b"true".to_vec()])
        .unwrap();

    // The shell waits for the second one.
    collect_execve_events(&mut history, &mut buffer);
    store_process_result(&mut history, 101, Some(0), at(11, 250_000_000), Rusage::zeroed());

    assert_eq!(buffer.position(), 0);
    assert_eq!(history.entries().len(), 2);
    assert_eq!(history.entries()[0].pid, 101);
    assert_eq!(
        history.entries()[0].state,
        State::Finished {
            running_time: Some(Duration::from_millis(250)),
            status: 0,
            rusage: Rusage::zeroed(),
        }
    );
    assert_eq!(history.entries()[1].pid, 100);
    assert_eq!(history.entries()[1].state, State::Running { start: at(10, 0) });

    // Nothing is collected twice.
    collect_execve_events(&mut history, &mut buffer);
    assert_eq!(history.entries().len(), 2);
}

#[test]
fn wait_in_a_later_drain_than_its_exec() {
    let mut buffer: SharedBufferGuard =
        SharedBufferGuard::from_parts(0, 256, vec![0; 4096]).unwrap();
    let mut history: History = History::new();

    write_event(&mut buffer, 7, at(1, 0), at(2, 0), b"/bin/a", &[]).unwrap();
    collect_execve_events(&mut history, &mut buffer);
    assert_eq!(history.entries()[0].state, State::Running { start: at(1, 0) });

    // A subshell waits for the process and sends the result.
    write_wait_event(&mut buffer, 7, 4, at(3, 5), Rusage::zeroed()).unwrap();
    collect_execve_events(&mut history, &mut buffer);
    assert_eq!(
        history.entries()[0].state,
        State::Finished {
            running_time: Some(Duration { secs: 2, nanos: 5 }),
            status: 4,
            rusage: Rusage::zeroed(),
        }
    );
}

#[test]
fn status_that_was_not_asked_for() {
    let mut history: History = History::new();
    let mut buffer: SharedBufferGuard =
        SharedBufferGuard::from_parts(0, 256, vec![0; 4096]).unwrap();
    write_event(&mut buffer, 7, at(1, 0), at(2, 0), b"/bin/a", &[]).unwrap();
    collect_execve_events(&mut history, &mut buffer);
    store_process_result(&mut history, 7, None, at(1, 0), Rusage::zeroed());
    assert_eq!(UNKNOWN_STATUS, -1);
    assert_eq!(
        history.entries()[0].state,
        State::Finished {
            running_time: Some(Duration::from_secs(0)),
            status: -1,
            rusage: Rusage::zeroed(),
        }
    );
}
