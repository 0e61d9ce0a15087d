//! Resolved configuration. Reading environment variables and expanding
//! paths happens outside the core; the result lands here.

use vstd::prelude::*;

verus! {

/// Where the tool keeps its state.
#[derive(Debug, Clone)]
pub struct Config {
    /// The configuration file the settings came from, when one exists.
    pub config_file: Option<String>,
    /// The resolved path of the task log.
    pub task_log: String,
}

impl Config {
    /// Bundles a resolved configuration.
    pub fn new(config_file: Option<String>, task_log: String) -> (r: Config)
        ensures
            r.task_log == task_log,
            r.config_file == config_file,
    {
        Config { config_file, task_log }
    }
}

} // verus!
