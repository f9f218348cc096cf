//! Laying entries out as text.
use vstd::prelude::*;
use crate::logsdk::hook::LogEntry;

verus! {

/// A layout of entries.
pub trait IEntryLayOut {
    fn lay_out(e: &LogEntry) -> String;
}

} // verus!
