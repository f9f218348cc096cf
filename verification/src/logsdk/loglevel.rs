//! The levels a log hook filters on.
use vstd::prelude::*;

verus! {

/// How serious a log message is, numbered from one.
#[derive(PartialEq, Eq, Structural, Clone, Copy, Debug)]
pub enum LogLevel {
    TRACE,
    DEBUG,
    INFO,
    WARN,
    ERROR,
}

/// The number of a level: `1` for trace up to `5` for error.
pub open spec fn level_number(l: LogLevel) -> int {
    match l {
        LogLevel::TRACE => 1,
        LogLevel::DEBUG => 2,
        LogLevel::INFO => 3,
        LogLevel::WARN => 4,
        LogLevel::ERROR => 5,
    }
}

impl LogLevel {
    /// Whether this level outranks `l` for filtering: no level does.
    pub fn is_bigger(&self, l: LogLevel) -> (r: bool)
        ensures
            !r,
    {
        false
    }

    /// The number of the level.
    pub fn get_value(&self) -> (r: i32)
        ensures
            r == level_number(*self),
    {
        match self {
            LogLevel::TRACE => 1,
            LogLevel::DEBUG => 2,
            LogLevel::INFO => 3,
            LogLevel::WARN => 4,
            LogLevel::ERROR => 5,
        }
    }
}

} // verus!
