//! The command surface, as plain data: argument parsing itself is an
//! external collaborator that fills these in.

use vstd::prelude::*;

verus! {

/// A parsed command-line invocation.
#[derive(Debug, Clone)]
pub struct CliArgs {
    pub command: Commands,
}

/// The commands the tool understands.
#[derive(Debug, Clone)]
pub enum Commands {
    /// Starts tracking a work task.
    Start(Start),
    /// Marks the end of a previously started task.
    End(End),
    /// Adds a previously completed entry to the log.
    Complete(Complete),
    /// Reports the currently tracked task.
    Status,
    /// Summarizes the task log.
    Summary(Summary),
    /// Wipes the task log.
    Clear,
}

/// Arguments of the `start` command.
#[derive(Debug, Clone)]
pub struct Start {
    /// The task name to start tracking.
    pub task_name: String,
    /// An optional comment or note describing the task.
    pub note: Option<String>,
}

/// Arguments of the `end` command: none.
#[derive(Debug, Clone)]
pub struct End {}

/// Arguments of the `complete` command.
#[derive(Debug, Clone)]
pub struct Complete {
    /// The task name the period belongs to.
    pub task_name: String,
    /// Duration of the task in `hh:mm:ss` form.
    pub duration: String,
    /// Explicit start time of the period. When absent, the start is
    /// computed back from the current time.
    pub event_time: Option<String>,
    /// An optional comment or note describing the task.
    pub note: Option<String>,
}

/// Arguments of the `summary` command: none.
#[derive(Debug, Clone)]
pub struct Summary {}

} // verus!
