//! Log events carrying an entry.
use vstd::prelude::*;
use crate::logsdk::hook::LogEntry;

verus! {

/// An event that carries a log entry.
pub trait ILogEvent {
    fn get_log_entry(&self) -> &LogEntry;
}

/// An event carrying its entry.
pub struct DefaultLogEvent {
    log_entry: LogEntry,
}

impl DefaultLogEvent {
    pub fn new(log_entry: LogEntry) -> (r: Self)
        ensures
            r.entry() == log_entry,
    {
        DefaultLogEvent { log_entry }
    }

    /// The entry carried.
    pub closed spec fn entry(&self) -> LogEntry {
        self.log_entry
    }
}

impl ILogEvent for DefaultLogEvent {
    fn get_log_entry(&self) -> (r: &LogEntry)
        ensures
            *r == self.entry(),
    {
        &self.log_entry
    }
}

} // verus!
