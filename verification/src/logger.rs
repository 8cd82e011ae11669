//! Which log records the standard-output logger prints.
use vstd::prelude::*;

verus! {

/// The level of a log record, most severe first.
#[derive(Clone, Copy, Debug, PartialEq, Eq, Structural)]
pub enum LogLevel {
    Error,
    Warn,
    Info,
    Debug,
    Trace,
}

/// The severity rank of a level: 1 for the most severe, 5 for the least.
pub open spec fn level_rank(l: LogLevel) -> int {
    match l {
        LogLevel::Error => 1,
        LogLevel::Warn => 2,
        LogLevel::Info => 3,
        LogLevel::Debug => 4,
        LogLevel::Trace => 5,
    }
}

/// A logger that prints records of level `Info` and more severe.
pub struct StdoutLogger;

impl StdoutLogger {
    /// Whether records of level `level` are printed.
    pub fn enabled(&self, level: LogLevel) -> (b: bool)
        ensures
            b == (level_rank(level) <= level_rank(LogLevel::Info)),
    {
        match level {
            LogLevel::Error | LogLevel::Warn | LogLevel::Info => true,
            LogLevel::Debug | LogLevel::Trace => false,
        }
    }
}

} // verus!
