//! A progress wrapper for rsync: argument handling, cookie files, rsync output
//! parsing, time-remaining estimates and the status line.
pub mod text;
pub mod config;
pub mod output;
pub mod width;
pub mod progress;
pub mod runner;
pub mod eta;
