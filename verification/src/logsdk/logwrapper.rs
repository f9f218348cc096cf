//! The logger a module logs through.
use vstd::prelude::*;
use crate::logsdk::loglevel::LogLevel;

verus! {

/// A module's logger, with its level.
pub struct CellLogger {
    pub log_level: LogLevel,
}

impl CellLogger {
    /// Whether an entry at level `l` is logged: unless the logger's level
    /// outranks it, which no level does.
    pub fn log_able(&self, l: LogLevel) -> (r: bool)
        ensures
            r,
    {
        if self.log_level.is_bigger(l) {
            return false;
        }
        true
    }
}

} // verus!
