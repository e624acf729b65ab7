//! Command history.
//!
//! The history holds an entry for every command that was started, newest
//! first, up to a limit. An entry is made when a command starts, and is
//! completed with the resources that the command has used when the command
//! finishes.

use crate::ipc::events::exec::{strings_view, ExecEventView};
use crate::ipc::events::{events_view, Event, EventView, ExecEvent};
use crate::rusage::Rusage;
use crate::time::{Duration, Timespec};
use std::collections::VecDeque;
use vstd::prelude::*;

verus! {

/// Default size of the history.
pub const DEFAULT_SIZE: usize = 100;

/// State of the command of a history entry.
#[derive(Clone, Copy, Debug, PartialEq, Eq)]
pub enum State {
    /// The command runs, since this reading of the monotonic clock.
    Running { start: Timespec },
    /// The command has finished.
    Finished {
        /// Time from the start of the command to its end; nothing when the
        /// readings of the clock do not give one.
        running_time: Option<Duration>,
        status: i32,
        rusage: Rusage,
    },
}

/// History entry.
#[derive(Debug)]
pub struct Entry {
    pub number: usize,
    pub pid: i32,
    pub start_time: Timespec,
    pub filename: Vec<u8>,
    pub args: Vec<Vec<u8>>,
    pub state: State,
}

/// What an `Entry` holds.
pub ghost struct EntryView {
    pub number: usize,
    pub pid: i32,
    pub start_time: Timespec,
    pub filename: Seq<u8>,
    pub args: Seq<Seq<u8>>,
    pub state: State,
}

impl View for Entry {
    type V = EntryView;

    open spec fn view(&self) -> EntryView {
        EntryView {
            number: self.number,
            pid: self.pid,
            start_time: self.start_time,
            filename: self.filename@,
            args: strings_view(self.args@),
            state: self.state,
        }
    }
}

impl EntryView {
    /// The entry of a command that starts, as `event` tells, and gets the
    /// number `number`.
    pub open spec fn started(event: ExecEventView, number: usize) -> EntryView {
        EntryView {
            number,
            pid: event.pid,
            start_time: event.start_time,
            filename: event.filename,
            args: event.args,
            state: State::Running { start: event.monotonic_time },
        }
    }

    /// `true` if the entry is of the process `pid`, and its command runs.
    pub open spec fn is_running(self, pid: i32) -> bool {
        self.pid == pid && self.state is Running
    }

    /// The entry once its command has finished at `finish_time`.
    ///
    /// The running time is the time from the start of the command to
    /// `finish_time`; there is none when `finish_time` is before the start.
    pub open spec fn finished(self, status: i32, finish_time: Timespec, rusage: Rusage)
        -> EntryView {
        EntryView {
            state: State::Finished {
                running_time: match self.state {
                    State::Running { start } => finish_time.spec_duration_since(start),
                    State::Finished { .. } => None,
                },
                status,
                rusage,
            },
            ..self
        }
    }
}

/// What each of `entries` holds.
pub open spec fn entries_view(entries: Seq<Entry>) -> Seq<EntryView> {
    Seq::new(entries.len(), |i: int| entries[i]@)
}

/// Position of the first entry of `entries`, from `start` on, that is of the
/// process `pid` and whose command runs.
pub open spec fn first_running_from(entries: Seq<EntryView>, pid: i32, start: int) -> Option<int>
    decreases entries.len() - start,
{
    if start < 0 || start >= entries.len() {
        None
    } else if entries[start].is_running(pid) {
        Some(start)
    } else {
        first_running_from(entries, pid, start + 1)
    }
}

/// Position of the newest entry of `entries` that is of the process `pid`
/// and whose command runs.
pub open spec fn first_running(entries: Seq<EntryView>, pid: i32) -> Option<int> {
    first_running_from(entries, pid, 0)
}

/// The entries made for the commands of `events`, the newest first, where
/// `last_number` is the last number given before.
pub open spec fn started_entries(last_number: usize, events: Seq<ExecEventView>) -> Seq<
    EntryView,
> {
    Seq::new(
        events.len(),
        |i: int|
            EntryView::started(
                events[events.len() - 1 - i],
                (last_number + events.len() - i) as usize,
            ),
    )
}

/// What a `History` holds.
pub ghost struct HistoryView {
    /// Number of the newest entry that was ever made.
    pub last_number: usize,
    /// Limit of the history.
    pub size: usize,
    /// The entries, newest first.
    pub entries: Seq<EntryView>,
}

impl HistoryView {
    /// The invariant of the history: it holds no more entries than its
    /// limit.
    pub open spec fn wf(self) -> bool {
        self.entries.len() <= self.size
    }

    /// `true` if the entries stand in the order of their numbers, the
    /// newest first, and no number is above the last number given: every
    /// entry has a number of its own.
    pub open spec fn ordered(self) -> bool {
        &&& forall|i: int|
            0 <= i < self.entries.len() ==> 1 <= (#[trigger] self.entries[i]).number
                <= self.last_number
        &&& forall|i: int, j: int|
            0 <= i < j < self.entries.len() ==> (#[trigger] self.entries[i]).number > (
            #[trigger] self.entries[j]).number
    }

    /// The first `size` entries of `entries`, or all of them if they are no
    /// more.
    pub open spec fn newest(entries: Seq<EntryView>, size: int) -> Seq<EntryView> {
        if entries.len() <= size {
            entries
        } else {
            entries.take(size)
        }
    }

    /// The history with the limit `size`. Entries beyond the limit, the
    /// oldest, are dropped.
    pub open spec fn set_size(self, size: usize) -> HistoryView {
        HistoryView { size, entries: HistoryView::newest(self.entries, size as int), ..self }
    }

    /// The history after the command of `event` has started.
    ///
    /// With a limit of zero nothing changes. Otherwise the command gets the
    /// next number, and its entry is put before the others; the oldest entry
    /// is dropped if the history is full.
    pub open spec fn add_entry(self, event: ExecEventView) -> HistoryView {
        if self.size == 0 {
            self
        } else {
            let number = (self.last_number + 1) as usize;
            HistoryView {
                last_number: number,
                entries: seq![EntryView::started(event, number)] + HistoryView::newest(
                    self.entries,
                    self.size - 1,
                ),
                ..self
            }
        }
    }

    /// The history after the commands of `events` have started, in order.
    pub open spec fn add_entries(self, events: Seq<ExecEventView>) -> HistoryView
        decreases events.len(),
    {
        if events.len() == 0 {
            self
        } else {
            self.add_entries(events.drop_last()).add_entry(events.last())
        }
    }

    /// The history after a process has finished.
    ///
    /// The newest entry of the process `pid` whose command runs becomes
    /// finished. Nothing changes when there is no such entry.
    pub open spec fn update_entry(
        self,
        pid: i32,
        status: i32,
        finish_time: Timespec,
        rusage: Rusage,
    ) -> HistoryView {
        match first_running(self.entries, pid) {
            Some(index) => HistoryView {
                entries: self.entries.update(
                    index,
                    self.entries[index].finished(status, finish_time, rusage),
                ),
                ..self
            },
            None => self,
        }
    }

    /// The history after `event`.
    ///
    /// A command that starts gets an entry, unless every number has been
    /// given; a process that finishes completes its entry.
    pub open spec fn apply(self, event: EventView) -> HistoryView {
        match event {
            EventView::Exec(event) => if self.last_number < usize::MAX {
                self.add_entry(event)
            } else {
                self
            },
            EventView::Wait(event) => self.update_entry(
                event.pid,
                event.status,
                event.finish_time,
                event.rusage,
            ),
        }
    }

    /// The history after `events`, in order.
    pub open spec fn apply_all(self, events: Seq<EventView>) -> HistoryView
        decreases events.len(),
    {
        if events.len() == 0 {
            self
        } else {
            self.apply(events[0]).apply_all(events.skip(1))
        }
    }

    /// The entry with the number `number`, if the history holds it.
    pub open spec fn lookup(self, number: usize) -> Option<EntryView> {
        if exists|i: int| 0 <= i < self.entries.len() && self.entries[i].number == number {
            let i = choose|i: int|
                0 <= i < self.entries.len() && self.entries[i].number == number && forall|j: int|
                    0 <= j < i ==> self.entries[j].number != number;
            Some(self.entries[i])
        } else {
            None
        }
    }
}

/// History.
#[derive(Debug)]
pub struct History {
    last_number: usize,
    size: usize,
    entries: VecDeque<Entry>,
}

impl View for History {
    type V = HistoryView;

    closed spec fn view(&self) -> HistoryView {
        HistoryView {
            last_number: self.last_number,
            size: self.size,
            entries: entries_view(self.entries@),
        }
    }
}

impl History {
    /// An empty history with the default limit.
    pub fn new() -> (history: History)
        ensures
            history@ == (HistoryView {
                last_number: 0,
                size: DEFAULT_SIZE,
                entries: Seq::empty(),
            }),
            history@.wf(),
            history@.ordered(),
    {
        let history = History {
            last_number: 0,
            size: DEFAULT_SIZE,
            entries: VecDeque::with_capacity(DEFAULT_SIZE),
        };
        assert(history@.entries =~= Seq::empty());
        history
    }

    /// Compute a history entry number by an offset from the newest entry:
    /// the offset `1` gives the number of the newest entry.
    pub fn offset_number(&self, offset: usize) -> (number: usize)
        requires
            offset > 0,
        ensures
            number == if self@.last_number >= offset - 1 {
                self@.last_number - (offset - 1)
            } else {
                0
            },
    {
        self.last_number.saturating_sub(offset - 1)
    }

    /// Returns the current size.
    pub fn size(&self) -> (size: usize)
        ensures
            size == self@.size,
    {
        self.size
    }

    /// Returns the number of the newest entry that was ever made.
    pub fn last_number(&self) -> (number: usize)
        ensures
            number == self@.last_number,
    {
        self.last_number
    }

    /// Returns the entries of the history, newest first.
    pub fn entries(&self) -> (entries: &VecDeque<Entry>)
        ensures
            entries_view(entries@) == self@.entries,
    {
        &self.entries
    }

    /// Removes every entry from the history.
    pub fn clear(&mut self)
        ensures
            final(self)@ == (HistoryView { entries: Seq::empty(), ..old(self)@ }),
            final(self)@.wf(),
            final(self)@.ordered(),
    {
        self.entries.clear();
        assert(self@.entries =~= Seq::empty());
    }

    /// Change the limit of the history. If the new limit is less than the
    /// current size of the queue, the oldest entries are removed.
    pub fn set_size(&mut self, size: usize)
        ensures
            final(self)@ == old(self)@.set_size(size),
            final(self)@.wf(),
            old(self)@.ordered() ==> final(self)@.ordered(),
    {
        self.entries.truncate(size);
        self.size = size;
        assert(self@.entries =~= HistoryView::newest(old(self)@.entries, size as int));
    }

    /// Add a new entry to the history, and discard old entries if
    /// capacity is exceeded.
    pub fn add_entry(&mut self, event: ExecEvent)
        requires
            old(self)@.last_number < usize::MAX,
        ensures
            final(self)@ == old(self)@.add_entry(event@),
            old(self)@.size > 0 ==> final(self)@.wf(),
            old(self)@.ordered() ==> final(self)@.ordered(),
    {
        if self.size == 0 {
            return ;
        }
        self.last_number += 1;

        self.entries.truncate(self.size - 1);
        self.entries.push_front(
            Entry {
                number: self.last_number,
                pid: event.pid,
                start_time: event.start_time,
                filename: event.filename,
                args: event.args,
                state: State::Running { start: event.monotonic_time },
            },
        );
        assert(self@.entries =~= old(self)@.add_entry(event@).entries);
    }

    /// Updates a history entry with the results from `wait4`.
    ///
    /// The entry is the newest one of the process `pid` whose command runs.
    /// Nothing changes when there is no such entry.
    pub fn update_entry(&mut self, pid: i32, status: i32, finish_time: Timespec, rusage: Rusage)
        ensures
            final(self)@ == old(self)@.update_entry(pid, status, finish_time, rusage),
            old(self)@.wf() ==> final(self)@.wf(),
            old(self)@.ordered() ==> final(self)@.ordered(),
    {
        // Locate the entry for this process in the history.
        let mut index: usize = 0;
        let mut start: Option<Timespec> = None;
        while index < self.entries.len()
            invariant_except_break
                start is None,
                first_running(self@.entries, pid) == first_running_from(
                    self@.entries,
                    pid,
                    index as int,
                ),
            invariant
                *self == *old(self),
                index <= self.entries@.len(),
            ensures
                match start {
                    Some(start) => index < self.entries@.len() && first_running(
                        self@.entries,
                        pid,
                    ) == Some(index as int) && self@.entries[index as int].state
                        == (State::Running { start }),
                    None => first_running(self@.entries, pid) is None,
                },
            decreases self.entries@.len() - index,
        {
            let entry = &self.entries[index];
            assert(entry@ == self@.entries[index as int]);
            if entry.pid == pid {
                if let State::Running { start: since } = entry.state {
                    start = Some(since);
                    break ;
                }
            }
            index += 1;
        }

        let start = match start {
            Some(start) => start,
            None => return ,
        };

        // Compute elapsed time since start.
        let running_time = finish_time.checked_duration_since(&start);

        // Update state in the history.
        let ghost before = self@.entries;
        if let Some(mut entry) = self.entries.remove(index) {
            assert(entry@ == before[index as int]);
            entry.state = State::Finished { running_time, status, rusage };
            assert(entry@ == before[index as int].finished(status, finish_time, rusage));
            self.entries.insert(index, entry);
            assert(self@.entries =~= before.update(index as int, entry@));
        }
    }

    /// Records an event: the start of a command, or the end of a process.
    ///
    /// The start of a command is dropped when every number has been given.
    pub fn apply(&mut self, event: Event)
        ensures
            final(self)@ == old(self)@.apply(event@),
            old(self)@.wf() ==> final(self)@.wf(),
            old(self)@.ordered() ==> final(self)@.ordered(),
    {
        match event {
            Event::Exec(event) => {
                if self.last_number < usize::MAX {
                    self.add_entry(event);
                }
            },
            Event::Wait(event) => {
                self.update_entry(event.pid, event.status, event.finish_time, event.rusage);
            },
        }
    }

    /// Records events, in order.
    pub fn apply_all(&mut self, events: Vec<Event>)
        ensures
            final(self)@ == old(self)@.apply_all(events_view(events@)),
            old(self)@.wf() ==> final(self)@.wf(),
            old(self)@.ordered() ==> final(self)@.ordered(),
    {
        let ghost all = events_view(events@);
        assert(all.skip(0) =~= all);
        for event in iter: events
            invariant
                old(self)@.wf() ==> self@.wf(),
                old(self)@.ordered() ==> self@.ordered(),
                all == events_view(iter.seq()),
                old(self)@.apply_all(all) == self@.apply_all(all.skip(iter.index() as int)),
        {
            proof {
                assert(all.skip(iter.index() as int)[0] == event@);
                assert(all.skip(iter.index() as int).skip(1) =~= all.skip(iter.index() + 1));
            }
            self.apply(event);
        }
    }

    /// Returns the entry with the number `number`.
    pub fn lookup(&self, number: usize) -> (entry: Option<&Entry>)
        ensures
            match entry {
                Some(entry) => self@.lookup(number) == Some(entry@),
                None => self@.lookup(number) is None,
            },
    {
        let mut index: usize = 0;
        while index < self.entries.len()
            invariant
                index <= self.entries@.len(),
                forall|j: int| 0 <= j < index ==> self@.entries[j].number != number,
            decreases self.entries@.len() - index,
        {
            let entry = &self.entries[index];
            assert(entry@ == self@.entries[index as int]);
            if entry.number == number {
                return Some(entry);
            }
            index += 1;
        }
        None
    }
}

/// After any number of commands have started, the history holds the entries
/// of these commands, the newest first, followed by the entries that it held
/// before, cut down to its limit.
pub proof fn lemma_add_entries(history: HistoryView, events: Seq<ExecEventView>)
    requires
        history.size > 0,
        history.wf(),
        history.last_number + events.len() <= usize::MAX,
    ensures
        history.add_entries(events) == (HistoryView {
            last_number: (history.last_number + events.len()) as usize,
            size: history.size,
            entries: HistoryView::newest(
                started_entries(history.last_number, events) + history.entries,
                history.size as int,
            ),
        }),
    decreases events.len(),
{
    if events.len() == 0 {
        assert(started_entries(history.last_number, events) + history.entries
            =~= history.entries);
    } else {
        let earlier = events.drop_last();
        lemma_add_entries(history, earlier);
        let before = started_entries(history.last_number, earlier) + history.entries;
        let after = started_entries(history.last_number, events) + history.entries;
        let number = (history.last_number + events.len()) as usize;
        assert(after =~= seq![EntryView::started(events.last(), number)] + before);
        assert(HistoryView::newest(after, history.size as int) =~= seq![
            EntryView::started(events.last(), number),
        ] + HistoryView::newest(
            HistoryView::newest(before, history.size as int),
            history.size - 1,
        ));
    }
}

/// When at least as many commands start as the history can hold, the history
/// then holds exactly the most recent of them, as many as its limit, the
/// newest first.
pub proof fn lemma_retains_most_recent(history: HistoryView, events: Seq<ExecEventView>)
    requires
        history.size > 0,
        history.wf(),
        history.last_number + events.len() <= usize::MAX,
        events.len() >= history.size,
    ensures
        history.add_entries(events).entries == started_entries(
            history.last_number,
            events,
        ).take(history.size as int),
        history.add_entries(events).entries.len() == history.size,
        forall|i: int|
            0 <= i < history.size ==> #[trigger] history.add_entries(events).entries[i]
                == EntryView::started(
                events[events.len() - 1 - i],
                (history.last_number + events.len() - i) as usize,
            ),
{
    lemma_add_entries(history, events);
    let started = started_entries(history.last_number, events);
    assert(HistoryView::newest(started + history.entries, history.size as int) =~= started.take(
        history.size as int,
    ));
}

/// When a command starts and its process then finishes, exactly one entry
/// changes: the entry of the command, the newest, goes from running to
/// finished, with the time between its start and its end.
pub proof fn lemma_exec_then_wait(
    history: HistoryView,
    event: ExecEventView,
    status: i32,
    finish_time: Timespec,
    rusage: Rusage,
)
    requires
        history.size > 0,
        history.last_number < usize::MAX,
    ensures
        ({
            let started = history.add_entry(event);
            let finished = started.update_entry(event.pid, status, finish_time, rusage);
            &&& started.entries[0].state == (State::Running { start: event.monotonic_time })
            &&& finished == (HistoryView {
                entries: started.entries.update(
                    0,
                    EntryView {
                        state: State::Finished {
                            running_time: finish_time.spec_duration_since(event.monotonic_time),
                            status,
                            rusage,
                        },
                        ..started.entries[0]
                    },
                ),
                ..started
            })
        }),
{
}

/// A process that finishes changes one entry at most: the newest running
/// entry of the process, which becomes finished. The other entries, the
/// limit and the numbers stay as they are.
pub proof fn lemma_wait_changes_one_entry(
    history: HistoryView,
    pid: i32,
    status: i32,
    finish_time: Timespec,
    rusage: Rusage,
)
    ensures
        ({
            let after = history.update_entry(pid, status, finish_time, rusage);
            &&& after.entries.len() == history.entries.len()
            &&& after.size == history.size
            &&& after.last_number == history.last_number
            &&& forall|i: int|
                0 <= i < history.entries.len() && #[trigger] after.entries[i]
                    != history.entries[i] ==> first_running(history.entries, pid) == Some(i)
                    && history.entries[i].is_running(pid) && after.entries[i].state is Finished
                    && after.entries[i] == history.entries[i].finished(
                    status,
                    finish_time,
                    rusage,
                )
        }),
{
    lemma_first_running(history.entries, pid, 0);
}

/// A process that finishes changes nothing in a history that holds no
/// running entry of that process.
pub proof fn lemma_wait_without_exec(
    history: HistoryView,
    pid: i32,
    status: i32,
    finish_time: Timespec,
    rusage: Rusage,
)
    requires
        forall|i: int| 0 <= i < history.entries.len() ==> !history.entries[i].is_running(pid),
    ensures
        history.update_entry(pid, status, finish_time, rusage) == history,
{
    lemma_first_running(history.entries, pid, 0);
}

/// In a history with at most one running entry of a process, to record
/// twice that the process has finished is to record it once.
pub proof fn lemma_wait_twice(
    history: HistoryView,
    pid: i32,
    status: i32,
    finish_time: Timespec,
    rusage: Rusage,
)
    requires
        forall|i: int, j: int|
            0 <= i < history.entries.len() && 0 <= j < history.entries.len()
                && history.entries[i].is_running(pid) && history.entries[j].is_running(pid)
                ==> i == j,
    ensures
        history.update_entry(pid, status, finish_time, rusage).update_entry(
            pid,
            status,
            finish_time,
            rusage,
        ) == history.update_entry(pid, status, finish_time, rusage),
{
    let once = history.update_entry(pid, status, finish_time, rusage);
    lemma_first_running(history.entries, pid, 0);
    assert forall|i: int| 0 <= i < once.entries.len() implies !once.entries[i].is_running(
        pid,
    ) by {
        if once.entries[i].is_running(pid) {
            assert(history.entries[i].is_running(pid));
        }
    }
    lemma_wait_without_exec(once, pid, status, finish_time, rusage);
}

/// What `first_running_from` finds is the first running entry of the
/// process from `start` on; it finds nothing only if there is none.
pub proof fn lemma_first_running(entries: Seq<EntryView>, pid: i32, start: int)
    requires
        0 <= start,
    ensures
        match first_running_from(entries, pid, start) {
            Some(index) => start <= index < entries.len() && entries[index].is_running(pid)
                && forall|j: int| start <= j < index ==> !entries[j].is_running(pid),
            None => forall|j: int| start <= j < entries.len() ==> !entries[j].is_running(pid),
        },
    decreases entries.len() - start,
{
    if start < entries.len() && !entries[start].is_running(pid) {
        lemma_first_running(entries, pid, start + 1);
    }
}

} // verus!
