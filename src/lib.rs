//! Command history indexing, argument-aware suggestions, parallel command
//! expansion and task output framing for an interactive command runner.
pub mod config;
pub mod editing;
pub mod framing;
pub mod history;
pub mod parallel;
pub mod paths;
pub mod preview;
pub mod rank;
pub mod runner;
pub mod searcher;
pub mod store;
pub mod suggest;
pub mod text;
