//! The event model: raw log entries and the derived task intervals.

use vstd::prelude::*;

use crate::strnum::{lex_le, str_le};

verus! {

/// The kind of a logged event: the start or the end of a tracked period.
#[derive(Clone, Copy, Debug, PartialEq, Eq, Structural)]
pub enum LogEntryType {
    Start,
    End,
}

/// One atomic logged event, immutable once appended.
///
/// `task` carries the task name of a `Start` entry and is absent on an
/// `End` entry; `note` is optional free text, meaningful only on `Start`.
#[derive(Debug)]
pub struct LogEntry {
    pub entry_type: LogEntryType,
    pub stime: u64,
    pub task: Option<String>,
    pub note: Option<String>,
}

/// The mathematical model of a `LogEntry`.
pub ghost struct EntryView {
    pub entry_type: LogEntryType,
    pub stime: int,
    pub task: Option<Seq<char>>,
    pub note: Option<Seq<char>>,
}

impl View for LogEntry {
    type V = EntryView;

    open spec fn view(&self) -> EntryView {
        EntryView {
            entry_type: self.entry_type,
            stime: self.stime as int,
            task: self.task.deep_view(),
            note: self.note.deep_view(),
        }
    }
}

impl DeepView for LogEntry {
    type V = EntryView;

    open spec fn deep_view(&self) -> EntryView {
        self.view()
    }
}

/// The model of a `Start` entry at `stime` carrying `task` and `note`.
pub open spec fn mk_start(stime: int, task: Option<Seq<char>>, note: Option<Seq<char>>) -> EntryView {
    EntryView { entry_type: LogEntryType::Start, stime, task, note }
}

/// The model of an `End` entry at `stime`, which carries no payload.
pub open spec fn mk_end(stime: int) -> EntryView {
    EntryView { entry_type: LogEntryType::End, stime, task: None, note: None }
}

impl Clone for LogEntry {
    fn clone(&self) -> (r: Self)
        ensures
            r@ == self@,
    {
        LogEntry {
            entry_type: self.entry_type,
            stime: self.stime,
            task: clone_opt_string(&self.task),
            note: clone_opt_string(&self.note),
        }
    }
}

/// Copies an optional string, keeping its characters.
pub fn clone_opt_string(s: &Option<String>) -> (r: Option<String>)
    ensures
        r.deep_view() == s.deep_view(),
{
    match s {
        Some(v) => Some(v.clone()),
        None => None,
    }
}

impl LogEntry {
    /// Constructs a `Start` entry for `task` at `stime`.
    pub fn new_start(stime: u64, task: String, note: Option<String>) -> (r: LogEntry)
        ensures
            r@ == mk_start(stime as int, Some(task@), note.deep_view()),
    {
        LogEntry { entry_type: LogEntryType::Start, stime, task: Some(task), note }
    }

    /// Constructs an `End` entry at `stime`, which carries no payload.
    pub fn new_end(stime: u64) -> (r: LogEntry)
        ensures
            r@ == mk_end(stime as int),
    {
        LogEntry { entry_type: LogEntryType::End, stime, task: None, note: None }
    }

    /// The documented equality policy for raw entries: two entries are
    /// the same event instant when their `stime` agree; the entry type
    /// and payload do not break ties.
    pub fn same_instant(&self, other: &LogEntry) -> (r: bool)
        ensures
            r == (self@.stime == other@.stime),
    {
        self.stime == other.stime
    }

    /// The documented ordering policy for raw entries: by `stime` alone.
    pub fn at_or_before(&self, other: &LogEntry) -> (r: bool)
        ensures
            r == (self@.stime <= other@.stime),
    {
        self.stime <= other.stime
    }
}

/// A materialized work interval, derived from a paired `Start`/`End`.
#[derive(Debug)]
pub struct Task {
    pub stime: u64,
    pub dur: u64,
    pub task: String,
}

/// The mathematical model of a derived `Task`.
pub ghost struct TaskView {
    pub stime: int,
    pub dur: int,
    pub task: Seq<char>,
}

impl View for Task {
    type V = TaskView;

    open spec fn view(&self) -> TaskView {
        TaskView { stime: self.stime as int, dur: self.dur as int, task: self.task@ }
    }
}

impl DeepView for Task {
    type V = TaskView;

    open spec fn deep_view(&self) -> TaskView {
        self.view()
    }
}

impl Clone for Task {
    fn clone(&self) -> (r: Self)
        ensures
            r@ == self@,
    {
        Task { stime: self.stime, dur: self.dur, task: self.task.clone() }
    }
}

/// The documented ordering policy for derived tasks: by start instant,
/// with the task name breaking ties lexicographically.
pub open spec fn task_key_le(a: TaskView, b: TaskView) -> bool {
    a.stime < b.stime || (a.stime == b.stime && lex_le(a.task, b.task))
}

impl Task {
    /// Decides the ordering policy on two tasks.
    pub fn key_le(&self, other: &Task) -> (r: bool)
        ensures
            r == task_key_le(self@, other@),
    {
        if self.stime < other.stime {
            true
        } else if self.stime > other.stime {
            false
        } else {
            str_le(self.task.as_str(), other.task.as_str())
        }
    }

    /// The documented equality policy for derived tasks: equal start
    /// instant and equal name; the duration does not take part.
    pub fn same_key(&self, other: &Task) -> (r: bool)
        ensures
            r == (self@.stime == other@.stime && self@.task == other@.task),
    {
        self.stime == other.stime && self.task == other.task
    }
}

} // verus!
