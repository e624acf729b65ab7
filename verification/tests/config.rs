use timehistory::config::{TimeHistory, DEFAULT_FORMAT};
use timehistory::history::History;
use timehistory::ipc::events::ExecEvent;
use timehistory::time::Timespec;

#[test]
fn settings_as_text() {
    let history: History = History::new();
    let builtin = TimeHistory;
    assert_eq!(
        builtin.print_config(DEFAULT_FORMAT, &history, Some(512)),
        "TIMEHISTORY_FORMAT        = [header,table]%n\\t%(time:%X)\\t%P\\t%e\\t%C\n\
         TIMEHISTORY_LIMIT         = 100\n\
         TIMEHISTORY_CMDLINE_LIMIT = 512\n"
    );
    assert_eq!(
        builtin.print_config("%n α", &history, None),
        "TIMEHISTORY_FORMAT        = %n α\nTIMEHISTORY_LIMIT         = 100\n"
    );
}

#[test]
fn entry_chosen_by_an_argument() {
    let mut history: History = History::new();
    for pid in 1..=5i32 {
        history.add_entry(ExecEvent {
            pid,
            monotonic_time: Timespec { tv_sec: 1, tv_nsec: 0 },
            start_time: Timespec { tv_sec: 1, tv_nsec: 0 },
            filename: vec![],
            args: vec![],
        });
    }
    let builtin = TimeHistory;
    assert_eq!(builtin.entry_number(&history, "3"), Some(3));
    assert_eq!(builtin.entry_number(&history, "+1"), Some(5));
    assert_eq!(builtin.entry_number(&history, "+5"), Some(1));
    assert_eq!(builtin.entry_number(&history, "+9"), Some(0));
    assert_eq!(builtin.entry_number(&history, "+0"), Some(0));
    assert_eq!(builtin.entry_number(&history, "0"), Some(0));
    assert_eq!(builtin.entry_number(&history, "x"), None);
    assert_eq!(builtin.entry_number(&history, ""), None);
    assert_eq!(builtin.entry_number(&history, "-1"), None);
}
