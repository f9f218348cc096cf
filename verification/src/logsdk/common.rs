//! Log levels, and the entries a logger is given.
use vstd::prelude::*;
use crate::logsdk::module::CellModule;

verus! {

/// How serious a log message is, from least to most.
#[derive(PartialEq, Eq, Structural, Clone, Copy, Debug)]
pub enum LogLevel {
    Trace,
    Debug,
    Info,
    Warn,
    Error,
}

/// The rank of a level: `0` for trace up to `4` for error.
pub open spec fn level_rank(l: LogLevel) -> nat {
    match l {
        LogLevel::Trace => 0,
        LogLevel::Debug => 1,
        LogLevel::Info => 2,
        LogLevel::Warn => 3,
        LogLevel::Error => 4,
    }
}

/// The short name of a level.
pub open spec fn level_name(l: LogLevel) -> Seq<char> {
    match l {
        LogLevel::Trace => "TRACE"@,
        LogLevel::Debug => "DEBUG"@,
        LogLevel::Info => "INFO"@,
        LogLevel::Warn => "WARN"@,
        LogLevel::Error => "ERROR"@,
    }
}

impl LogLevel {
    /// The rank of the level.
    pub fn get_value(self) -> (r: usize)
        ensures
            r == level_rank(self),
    {
        match self {
            LogLevel::Trace => 0,
            LogLevel::Debug => 1,
            LogLevel::Info => 2,
            LogLevel::Warn => 3,
            LogLevel::Error => 4,
        }
    }

    /// Whether this level is more serious than `o`.
    pub fn gt(self, o: LogLevel) -> (r: bool)
        ensures
            r == (level_rank(self) > level_rank(o)),
    {
        self.get_value() > o.get_value()
    }
}

/// The short name of a level: `TRACE`, `DEBUG`, `INFO`, `WARN` or `ERROR`.
pub fn get_simple_loglevel(l: LogLevel) -> (r: &'static str)
    ensures
        r@ == level_name(l),
{
    match l {
        LogLevel::Trace => "TRACE",
        LogLevel::Debug => "DEBUG",
        LogLevel::Info => "INFO",
        LogLevel::Warn => "WARN",
        LogLevel::Error => "ERROR",
    }
}

/// A log message, with its level and module.
pub struct LogEntry {
    pub msg: String,
    pub log_level: LogLevel,
    pub module: CellModule,
}


/// The levels from the least to the most serious.
pub open spec fn level_order() -> Seq<LogLevel> {
    seq![LogLevel::Trace, LogLevel::Debug, LogLevel::Info, LogLevel::Warn, LogLevel::Error]
}

/// A level's rank is its position from the least serious, Trace, to the
/// most serious, Error: so one level is more serious than another (`gt`)
/// exactly when it comes later in that order.
pub proof fn lemma_level_ranks()
    ensures
        forall|l: LogLevel| 0 <= #[trigger] level_rank(l) < 5 && level_order()[level_rank(l) as int] == l,
        forall|i: int, j: int| 0 <= i < 5 && 0 <= j < 5 ==>
            (level_rank(#[trigger] level_order()[i]) < level_rank(#[trigger] level_order()[j]) <==> i < j),
{
    let o = level_order();
    assert(o[0] == LogLevel::Trace && o[1] == LogLevel::Debug && o[2] == LogLevel::Info && o[3] == LogLevel::Warn && o[4] == LogLevel::Error);
    assert forall|i: int| 0 <= i < 5 implies level_rank(#[trigger] level_order()[i]) == i by {
        if i == 0 {} else if i == 1 {} else if i == 2 {} else if i == 3 {} else {}
    }
    assert forall|l: LogLevel| 0 <= #[trigger] level_rank(l) < 5 && level_order()[level_rank(l) as int] == l by {
        match l {
            LogLevel::Trace => {},
            LogLevel::Debug => {},
            LogLevel::Info => {},
            LogLevel::Warn => {},
            LogLevel::Error => {},
        }
    }
}

} // verus!
