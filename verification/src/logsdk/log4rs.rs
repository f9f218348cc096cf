//! The console settings a module's logger is built with, and which entries
//! it writes at what record level.
use vstd::prelude::*;
use crate::logsdk::common::{LogLevel, LogEntry, level_rank};
use crate::logsdk::module::CellModule;

verus! {

/// The level of a record as the logging backend knows it.
#[derive(PartialEq, Eq, Structural, Clone, Copy, Debug)]
pub enum RecordLevel {
    Trace,
    Debug,
    Info,
    Warn,
    Error,
}

/// The settings of an appender.
pub struct AppenderProperty {
    pub file_appender: bool,
    pub decorator: String,
    pub level: LogLevel,
    pub appender_name: String,
    pub pattern: Option<String>,
}

impl AppenderProperty {
    pub fn new(file_appender: bool, decorator: String, level: LogLevel, appender_name: String, pattern: Option<String>) -> (r: Self)
        ensures
            r.file_appender == file_appender,
            r.decorator == decorator,
            r.level == level,
            r.appender_name == appender_name,
            r.pattern == pattern,
    {
        AppenderProperty { file_appender, decorator, level, appender_name, pattern }
    }
}

/// The settings of a console appender.
pub struct ConsoleAppenderProperty {
    pub default_append_property: AppenderProperty,
}

impl ConsoleAppenderProperty {
    pub fn new(default_append_property: AppenderProperty) -> (r: Self)
        ensures
            r.default_append_property == default_append_property,
    {
        ConsoleAppenderProperty { default_append_property }
    }
}

/// A console logger's configuration: one appender, the pattern asked for,
/// the pattern its encoder uses, the level and the root's level filter.
pub struct ConsoleSettings {
    pub appender_name: String,
    pub pattern: String,
    pub encoder_pattern: String,
    pub level: RecordLevel,
    pub level_filter: RecordLevel,
}

/// The record level a console appender at level `l` is set to: trace,
/// info and warn as they are, anything else warn.
pub open spec fn console_level(l: LogLevel) -> RecordLevel {
    match l {
        LogLevel::Trace => RecordLevel::Trace,
        LogLevel::Info => RecordLevel::Info,
        LogLevel::Warn => RecordLevel::Warn,
        _ => RecordLevel::Warn,
    }
}

/// The console configuration of `property`: its pattern, `%m%n` if none;
/// the encoder writes `{m}{n}`; its level mapped as `console_level` says,
/// as level and filter.
pub fn decorate_console_appender(property: &ConsoleAppenderProperty) -> (r: ConsoleSettings)
    ensures
        r.appender_name@ == property.default_append_property.appender_name@,
        r.pattern@ == match property.default_append_property.pattern {
            Some(v) => v@,
            None => "%m%n"@,
        },
        r.encoder_pattern@ == "{m}{n}"@,
        r.level == console_level(property.default_append_property.level),
        r.level_filter == console_level(property.default_append_property.level),
{
    let pattern = match &property.default_append_property.pattern {
        Some(v) => v.clone(),
        None => String::from_str("%m%n"),
    };
    let (level, level_filter) = match property.default_append_property.level {
        LogLevel::Trace => (RecordLevel::Trace, RecordLevel::Trace),
        LogLevel::Info => (RecordLevel::Info, RecordLevel::Info),
        LogLevel::Warn => (RecordLevel::Warn, RecordLevel::Warn),
        LogLevel::Error => (RecordLevel::Warn, RecordLevel::Warn),
        _ => (RecordLevel::Warn, RecordLevel::Warn),
    };
    ConsoleSettings {
        appender_name: property.default_append_property.appender_name.clone(),
        pattern,
        encoder_pattern: String::from_str("{m}{n}"),
        level,
        level_filter,
    }
}

/// The console configuration of a logger named `name` at level `l`: an
/// appender named `name` with pattern `%m%n`.
pub fn setup_by_name(name: &str, l: LogLevel) -> (r: ConsoleSettings)
    ensures
        r.appender_name@ == name@,
        r.pattern@ == "%m%n"@,
        r.encoder_pattern@ == "{m}{n}"@,
        r.level == console_level(l),
        r.level_filter == console_level(l),
{
    let default_property = AppenderProperty::new(
        false,
        String::from_str("/"),
        l,
        String::from_str(name),
        Some(String::from_str("%m%n")),
    );
    let c = ConsoleAppenderProperty::new(default_property);
    decorate_console_appender(&c)
}

/// The record level of an entry at level `l`.
pub open spec fn record_level(l: LogLevel) -> RecordLevel {
    match l {
        LogLevel::Trace => RecordLevel::Trace,
        LogLevel::Debug => RecordLevel::Debug,
        LogLevel::Info => RecordLevel::Info,
        LogLevel::Warn => RecordLevel::Warn,
        LogLevel::Error => RecordLevel::Error,
    }
}

/// A module's console logger.
pub struct Log4rsLogger {
    pub settings: ConsoleSettings,
}

impl Log4rsLogger {
    /// The logger of module `m`, configured by its name and level.
    pub fn new(m: &CellModule) -> (r: Self)
        ensures
            r.settings.appender_name@ == m.name@,
            r.settings.level == console_level(m.log_level),
            r.settings.level_filter == console_level(m.log_level),
    {
        Log4rsLogger { settings: setup_by_name(m.name, m.log_level) }
    }

    /// The record level `entry` is written at, or nothing when the global
    /// level `global` is more serious than the entry's.
    pub fn loglevel_to_log4rs(&self, global: LogLevel, entry: &LogEntry) -> (r: Option<RecordLevel>)
        ensures
            level_rank(global) > level_rank(entry.log_level) ==> r is None,
            level_rank(global) <= level_rank(entry.log_level) ==> r == Some(record_level(entry.log_level)),
    {
        if global.gt(entry.log_level) {
            return None;
        }
        let level = match entry.log_level {
            LogLevel::Trace => RecordLevel::Trace,
            LogLevel::Debug => RecordLevel::Debug,
            LogLevel::Info => RecordLevel::Info,
            LogLevel::Warn => RecordLevel::Warn,
            LogLevel::Error => RecordLevel::Error,
        };
        Some(level)
    }
}


/// The record levels from the most to the least verbose.
pub open spec fn record_order() -> Seq<RecordLevel> {
    seq![RecordLevel::Trace, RecordLevel::Debug, RecordLevel::Info, RecordLevel::Warn, RecordLevel::Error]
}

/// An entry is written at the record level of the same name as its own
/// level, and exactly when its level is not below the global level in the
/// order Trace, Debug, Info, Warn, Error.
pub proof fn lemma_record_levels(logger: Log4rsLogger, global_pos: int, entry_pos: int, entry: LogEntry)
    requires
        0 <= global_pos < 5,
        0 <= entry_pos < 5,
        entry.log_level == crate::logsdk::common::level_order()[entry_pos],
    ensures
        record_level(entry.log_level) == record_order()[entry_pos],
        (level_rank(crate::logsdk::common::level_order()[global_pos]) <= level_rank(entry.log_level)) == (global_pos <= entry_pos),
{
    crate::logsdk::common::lemma_level_ranks();
}

} // verus!
