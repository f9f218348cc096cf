//! Entries as log hooks see them.
use vstd::prelude::*;
use crate::logsdk::loglevel::LogLevel;

verus! {

/// An entry handed to hooks: its level.
pub struct LogEntry {
    pub log_level: LogLevel,
}

/// A hook run on entries.
pub trait ILogHook<T> {}

} // verus!
