//! Settings, with the defaults that apply to every key left out.
use vstd::prelude::*;

verus! {

/// All settings.
#[derive(Debug, Clone)]
pub struct Config {
    pub runner: RunnerConfig,
    pub output: OutputConfig,
    pub logging: LoggingConfig,
}

#[derive(Debug, Clone)]
pub struct RunnerConfig {
    /// Tasks that may run at once; more wait for a slot.
    pub max_concurrent: usize,
}

#[derive(Debug, Clone)]
pub struct OutputConfig {
    /// Output lines kept in memory.
    pub max_lines: usize,
    /// Spaces inside each side of an output box.
    pub box_padding_horizontal: usize,
    /// Blank lines inside the top and bottom of an output box.
    pub box_padding_vertical: usize,
}

#[derive(Debug, Clone)]
pub struct LoggingConfig {
    /// Log size in megabytes that starts a new file.
    pub max_file_size_mb: u64,
    /// Old log files kept.
    pub max_archives: u32,
}

impl Default for RunnerConfig {
    fn default() -> (r: Self)
        ensures
            r.max_concurrent == 64,
    {
        RunnerConfig { max_concurrent: 64 }
    }
}

impl Default for OutputConfig {
    fn default() -> (r: Self)
        ensures
            r.max_lines == 10_000,
            r.box_padding_horizontal == 1,
            r.box_padding_vertical == 0,
    {
        OutputConfig { max_lines: 10_000, box_padding_horizontal: 1, box_padding_vertical: 0 }
    }
}

impl Default for LoggingConfig {
    fn default() -> (r: Self)
        ensures
            r.max_file_size_mb == 10,
            r.max_archives == 5,
    {
        LoggingConfig { max_file_size_mb: 10, max_archives: 5 }
    }
}

impl Default for Config {
    fn default() -> (r: Self)
        ensures
            r.runner.max_concurrent == 64,
            r.output.max_lines == 10_000,
            r.output.box_padding_horizontal == 1,
            r.output.box_padding_vertical == 0,
            r.logging.max_file_size_mb == 10,
            r.logging.max_archives == 5,
    {
        Config {
            runner: RunnerConfig::default(),
            output: OutputConfig::default(),
            logging: LoggingConfig::default(),
        }
    }
}

/// Command-line options.
#[derive(Debug, Clone, Copy)]
pub struct Args {
    /// Delete the database and index the shell histories afresh.
    pub rebuild: bool,
}

} // verus!
