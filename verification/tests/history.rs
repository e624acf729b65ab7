use timehistory::history::{Entry, History, State, DEFAULT_SIZE};
use timehistory::ipc::events::{Event, ExecEvent, WaitEvent};
use timehistory::rusage::Rusage;
use timehistory::time::{Duration, Timespec};

fn exec(pid: i32, start: Timespec) -> ExecEvent {
    ExecEvent {
        pid,
        monotonic_time: start,
        start_time: Timespec { tv_sec: 1_600_000_000, tv_nsec: 5 },
        filename: b"/bin/true".to_vec(),
        args: vec![b"true".to_vec(), format!("{}", pid).into_bytes()],
    }
}

fn at(tv_sec: i64, tv_nsec: i64) -> Timespec {
    Timespec { tv_sec, tv_nsec }
}

fn pids(history: &History) -> Vec<i32> {
    history.entries().iter().map(|e| e.pid).collect()
}

fn numbers(history: &History) -> Vec<usize> {
    history.entries().iter().map(|e| e.number).collect()
}

#[test]
fn new_history_is_empty() {
    let history: History = History::new();
    assert_eq!(history.size(), DEFAULT_SIZE);
    assert_eq!(history.size(), 100);
    assert_eq!(history.last_number(), 0);
    assert!(history.entries().is_empty());
}

#[test]
fn oldest_entry_is_evicted() {
    let mut history: History = History::new();
    history.set_size(2);
    history.add_entry(exec(10, at(1, 0)));
    history.add_entry(exec(11, at(2, 0)));
    history.add_entry(exec(12, at(3, 0)));

    assert_eq!(pids(&history), vec![12, 11]);
    assert_eq!(numbers(&history), vec![3, 2]);
    assert_eq!(history.entries()[0].state, State::Running { start: at(3, 0) });
    assert_eq!(history.entries()[1].state, State::Running { start: at(2, 0) });
    assert!(history.lookup(1).is_none());
    assert_eq!(history.last_number(), 3);
}

#[test]
fn history_retains_the_most_recent_entries() {
    let mut history: History = History::new();
    history.set_size(5);
    for pid in 1..=12i32 {
        history.add_entry(exec(pid, at(pid as i64, 0)));
    }
    assert_eq!(pids(&history), vec![12, 11, 10, 9, 8]);
    assert_eq!(numbers(&history), vec![12, 11, 10, 9, 8]);
}

#[test]
fn entry_is_finished_with_elapsed_time() {
    let mut history: History = History::new();
    let rusage = Rusage { ru_maxrss: 1234, ..Rusage::zeroed() };
    history.add_entry(exec(5, at(100, 900_000_000)));
    history.update_entry(5, 0, at(102, 100_000_000), rusage);

    let entry: &Entry = &history.entries()[0];
    assert_eq!(entry.pid, 5);
    assert_eq!(entry.number, 1);
    assert_eq!(entry.filename, b"/bin/true".to_vec());
    assert_eq!(entry.args, vec![b"true".to_vec(), b"5".to_vec()]);
    assert_eq!(entry.start_time, at(1_600_000_000, 5));
    assert_eq!(
        entry.state,
        State::Finished {
            running_time: Some(Duration { secs: 1, nanos: 200_000_000 }),
            status: 0,
            rusage,
        }
    );
}

#[test]
fn wait_without_exec_is_discarded() {
    let mut history: History = History::new();
    history.add_entry(exec(5, at(1, 0)));
    history.update_entry(99, 0, at(2, 0), Rusage::zeroed());

    assert_eq!(pids(&history), vec![5]);
    assert_eq!(history.entries()[0].state, State::Running { start: at(1, 0) });
    assert_eq!(history.last_number(), 1);

    let mut empty: History = History::new();
    empty.update_entry(99, 0, at(2, 0), Rusage::zeroed());
    assert!(empty.entries().is_empty());
}

#[test]
fn wait_before_exec_leaves_the_entry_running() {
    let mut history: History = History::new();
    history.update_entry(5, 0, at(2, 0), Rusage::zeroed());
    history.add_entry(exec(5, at(1, 0)));
    assert_eq!(history.entries()[0].state, State::Running { start: at(1, 0) });
}

#[test]
fn same_wait_twice_changes_nothing_more() {
    let mut history: History = History::new();
    history.add_entry(exec(5, at(1, 0)));
    history.add_entry(exec(6, at(2, 0)));
    history.update_entry(5, 3, at(4, 0), Rusage::zeroed());
    history.update_entry(5, 9, at(8, 0), Rusage::zeroed());

    assert_eq!(
        history.entries()[1].state,
        State::Finished {
            running_time: Some(Duration::from_secs(3)),
            status: 3,
            rusage: Rusage::zeroed(),
        }
    );
    assert_eq!(history.entries()[0].state, State::Running { start: at(2, 0) });
}

#[test]
fn newest_running_entry_of_a_pid_is_matched() {
    let mut history: History = History::new();
    history.add_entry(exec(5, at(1, 0)));
    history.add_entry(exec(5, at(10, 0)));
    history.update_entry(5, 0, at(11, 0), Rusage::zeroed());

    assert!(matches!(
        history.entries()[0].state,
        State::Finished { running_time: Some(Duration { secs: 1, nanos: 0 }), .. }
    ));
    assert_eq!(history.entries()[1].state, State::Running { start: at(1, 0) });

    // The next wait for that pid reaches the older entry.
    history.update_entry(5, 1, at(21, 0), Rusage::zeroed());
    assert!(matches!(
        history.entries()[1].state,
        State::Finished { running_time: Some(Duration { secs: 20, nanos: 0 }), status: 1, .. }
    ));
}

#[test]
fn elapsed_time_is_absent_when_the_clock_went_back() {
    let mut history: History = History::new();
    history.add_entry(exec(5, at(10, 0)));
    history.update_entry(5, 0, at(9, 999_999_999), Rusage::zeroed());
    assert_eq!(
        history.entries()[0].state,
        State::Finished { running_time: None, status: 0, rusage: Rusage::zeroed() }
    );
}

#[test]
fn history_without_room_keeps_nothing() {
    let mut history: History = History::new();
    history.set_size(0);
    history.add_entry(exec(5, at(10, 0)));
    assert!(history.entries().is_empty());
    assert_eq!(history.last_number(), 0);
    assert_eq!(history.size(), 0);
}

#[test]
fn smaller_limit_drops_the_oldest_entries() {
    let mut history: History = History::new();
    for pid in 1..=6i32 {
        history.add_entry(exec(pid, at(pid as i64, 0)));
    }
    history.set_size(4);
    assert_eq!(pids(&history), vec![6, 5, 4, 3]);
    history.set_size(10);
    assert_eq!(pids(&history), vec![6, 5, 4, 3]);
    history.set_size(1);
    assert_eq!(pids(&history), vec![6]);
    history.add_entry(exec(7, at(7, 0)));
    assert_eq!(pids(&history), vec![7]);
    assert_eq!(numbers(&history), vec![7]);
}

#[test]
fn lookup_by_number() {
    let mut history: History = History::new();
    for pid in 21..=23i32 {
        history.add_entry(exec(pid, at(pid as i64, 0)));
    }
    assert_eq!(history.lookup(1).map(|e| e.pid), Some(21));
    assert_eq!(history.lookup(3).map(|e| e.pid), Some(23));
    assert!(history.lookup(0).is_none());
    assert!(history.lookup(4).is_none());
}

#[test]
fn offset_from_the_newest_entry() {
    let mut history: History = History::new();
    for pid in 1..=5i32 {
        history.add_entry(exec(pid, at(pid as i64, 0)));
    }
    assert_eq!(history.offset_number(1), 5);
    assert_eq!(history.offset_number(2), 4);
    assert_eq!(history.offset_number(5), 1);
    assert_eq!(history.offset_number(6), 0);
    assert_eq!(history.offset_number(usize::MAX), 0);
}

#[test]
fn clear_keeps_the_numbers() {
    let mut history: History = History::new();
    history.add_entry(exec(1, at(1, 0)));
    history.add_entry(exec(2, at(2, 0)));
    history.clear();
    assert!(history.entries().is_empty());
    history.add_entry(exec(3, at(3, 0)));
    assert_eq!(numbers(&history), vec![3]);
}

#[test]
fn events_are_applied_in_order() {
    let mut history: History = History::new();
    let wait = WaitEvent { pid: 8, status: 2, finish_time: at(9, 500), rusage: Rusage::zeroed() };
    history.apply_all(vec![
        Event::Wait(wait),
        Event::Exec(exec(8, at(4, 0))),
        Event::Exec(exec(9, at(5, 0))),
        Event::Wait(wait),
    ]);
    assert_eq!(pids(&history), vec![9, 8]);
    assert_eq!(history.entries()[0].state, State::Running { start: at(5, 0) });
    assert_eq!(
        history.entries()[1].state,
        State::Finished {
            running_time: Some(Duration { secs: 5, nanos: 500 }),
            status: 2,
            rusage: Rusage::zeroed(),
        }
    );

    history.apply(Event::Wait(WaitEvent { pid: 9, ..wait }));
    assert!(matches!(history.entries()[0].state, State::Finished { status: 2, .. }));
}
