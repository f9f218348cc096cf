//! A consumer of log events that writes them to the console.
use vstd::prelude::*;
use crate::logsdk::hook::LogEntry;
use crate::logsdk::loglevel::LogLevel;
use crate::logsdk::log4rs::RecordLevel;

verus! {

/// A consumer of log events.
pub trait ILogEventConsumer {}

/// The settings of an appender.
pub struct AppenderProperty {
    pub file_appender: bool,
    pub decorator: String,
    pub level: RecordLevel,
    pub appender_name: String,
    pub pattern: Option<String>,
}

impl AppenderProperty {
    pub fn new(file_appender: bool, decorator: String, level: RecordLevel, appender_name: String, pattern: Option<String>) -> (r: Self)
        ensures
            r.file_appender == file_appender,
            r.decorator == decorator,
            r.level == level,
            r.appender_name == appender_name,
            r.pattern == pattern,
    {
        AppenderProperty { file_appender, decorator, level, appender_name, pattern }
    }
}

/// The settings of a console appender.
pub struct ConsoleAppenderProperty {
    pub default_append_property: AppenderProperty,
}

impl ConsoleAppenderProperty {
    pub fn new(default_append_property: AppenderProperty) -> (r: Self)
        ensures
            r.default_append_property == default_append_property,
    {
        ConsoleAppenderProperty { default_append_property }
    }
}

/// A console configuration: one appender, its pattern, and the level and
/// the root's level filter.
pub struct ConsumerSettings {
    pub appender_name: String,
    pub pattern: String,
    pub level: RecordLevel,
    pub level_filter: RecordLevel,
}

/// The level a consumer's console appender at `l` is set to: debug, trace
/// and info as they are, anything else error.
pub open spec fn consumer_level(l: RecordLevel) -> RecordLevel {
    match l {
        RecordLevel::Debug => RecordLevel::Debug,
        RecordLevel::Trace => RecordLevel::Trace,
        RecordLevel::Info => RecordLevel::Info,
        _ => RecordLevel::Error,
    }
}

/// The console configuration of `property`: its pattern, `%m%n` if none,
/// and its level mapped as `consumer_level` says, as level and filter.
pub fn decorate_console_appender(property: &ConsoleAppenderProperty) -> (r: ConsumerSettings)
    ensures
        r.appender_name@ == property.default_append_property.appender_name@,
        r.pattern@ == match property.default_append_property.pattern {
            Some(v) => v@,
            None => "%m%n"@,
        },
        r.level == consumer_level(property.default_append_property.level),
        r.level_filter == consumer_level(property.default_append_property.level),
{
    let pattern = match &property.default_append_property.pattern {
        Some(v) => v.clone(),
        None => String::from_str("%m%n"),
    };
    let level = if property.default_append_property.level == RecordLevel::Debug {
        RecordLevel::Debug
    } else if property.default_append_property.level == RecordLevel::Trace {
        RecordLevel::Trace
    } else if property.default_append_property.level == RecordLevel::Info {
        RecordLevel::Info
    } else {
        RecordLevel::Error
    };
    ConsumerSettings {
        appender_name: property.default_append_property.appender_name.clone(),
        pattern,
        level,
        level_filter: level,
    }
}

/// The console configuration of a consumer named `name` at level `l`: an
/// appender named `name` with pattern `%m%n`.
pub fn setup_by_name(name: &str, l: RecordLevel) -> (r: ConsumerSettings)
    ensures
        r.appender_name@ == name@,
        r.pattern@ == "%m%n"@,
        r.level == consumer_level(l),
        r.level_filter == consumer_level(l),
{
    let default_property = AppenderProperty::new(
        false,
        String::from_str("/"),
        l,
        String::from_str(name),
        Some(String::from_str("%m%n")),
    );
    let c = ConsoleAppenderProperty::new(default_property);
    decorate_console_appender(&c)
}

/// The record level of a hook entry at level `l`.
pub open spec fn hook_record_level(l: LogLevel) -> RecordLevel {
    match l {
        LogLevel::TRACE => RecordLevel::Trace,
        LogLevel::DEBUG => RecordLevel::Debug,
        LogLevel::INFO => RecordLevel::Info,
        LogLevel::WARN => RecordLevel::Warn,
        LogLevel::ERROR => RecordLevel::Error,
    }
}

/// A consumer writing events to the console.
pub struct DefaultLogConsumer {
    pub settings: ConsumerSettings,
}

impl ILogEventConsumer for DefaultLogConsumer {}

impl DefaultLogConsumer {
    /// A consumer configured as `info`, at the info level.
    pub fn new() -> (r: Self)
        ensures
            r.settings.appender_name@ == "info"@,
            r.settings.level == RecordLevel::Info,
            r.settings.level_filter == RecordLevel::Info,
    {
        DefaultLogConsumer { settings: setup_by_name("info", RecordLevel::Info) }
    }

    /// The record level `entry` is written at.
    pub fn loglevel_to_log4rs(&self, entry: &LogEntry) -> (r: RecordLevel)
        ensures
            r == hook_record_level(entry.log_level),
    {
        match entry.log_level {
            LogLevel::TRACE => RecordLevel::Trace,
            LogLevel::DEBUG => RecordLevel::Debug,
            LogLevel::INFO => RecordLevel::Info,
            LogLevel::WARN => RecordLevel::Warn,
            LogLevel::ERROR => RecordLevel::Error,
        }
    }
}


/// The hook levels from the least to the most serious.
pub open spec fn hook_level_order() -> Seq<LogLevel> {
    seq![LogLevel::TRACE, LogLevel::DEBUG, LogLevel::INFO, LogLevel::WARN, LogLevel::ERROR]
}

/// Each hook level is written at the record level of the same name: the
/// `i`-th hook level, from the least serious, goes to the `i`-th record
/// level, from the most verbose; and its number is `i + 1`.
pub proof fn lemma_hook_levels()
    ensures
        forall|i: int| 0 <= i < 5 ==> hook_record_level(#[trigger] hook_level_order()[i]) == crate::logsdk::log4rs::record_order()[i],
        forall|i: int| 0 <= i < 5 ==> crate::logsdk::loglevel::level_number(#[trigger] hook_level_order()[i]) == i + 1,
{
}

} // verus!
