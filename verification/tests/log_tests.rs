use cell_sdk::logsdk::caller::{contains_text, get_log_info, is_blacklisted, setup_step, SetupStep, INITIALIZED, INITIALIZING, UNINITIALIZED};
use cell_sdk::logsdk::common::{get_simple_loglevel, LogEntry, LogLevel};
use cell_sdk::logsdk::consumer::DefaultLogConsumer;
use cell_sdk::logsdk::event::{DefaultLogEvent, ILogEvent};
use cell_sdk::logsdk::format::{default_format_msg, get_color, trim_caller_path, CellLoggerConfiguration, ColorProperty, LoggerEntryContext};
use cell_sdk::logsdk::hook;
use cell_sdk::logsdk::log4rs::{setup_by_name, Log4rsLogger, RecordLevel};
use cell_sdk::logsdk::logcache::make_key;
use cell_sdk::logsdk::loglevel;
use cell_sdk::logsdk::logwrapper::CellLogger;
use cell_sdk::logsdk::module::{CellModule, Module};
use cell_sdk::logsdk::paint::Color;
use cell_sdk::logsdk::text::{decimal_string, signed_decimal_string};

fn config() -> CellLoggerConfiguration {
    CellLoggerConfiguration { black_list: vec![String::from("src/backtrace/mod.rs")], color_property: ColorProperty::default_color_property() }
}

#[test]
fn mod_it_works() {
    let result = 2 + 2;
    assert_eq!(result, 4);
}

#[test]
fn test_console() {
    let c = DefaultLogConsumer::new();
    assert_eq!(c.settings.appender_name, "info");
    assert_eq!(c.settings.level, RecordLevel::Info);
    let entry = hook::LogEntry { log_level: loglevel::LogLevel::WARN };
    assert_eq!(c.loglevel_to_log4rs(&entry), RecordLevel::Warn);
    let event = DefaultLogEvent::new(hook::LogEntry { log_level: loglevel::LogLevel::ERROR });
    assert_eq!(c.loglevel_to_log4rs(event.get_log_entry()), RecordLevel::Error);
}

#[test]
fn test_format() {
    let m1 = CellModule::new(1, "M", LogLevel::Info);
    let msg = default_format_msg(&config(), &m1, "a/b/c/d.rs", 12, LogLevel::Info, "msg", "2024/01/02 03:04:05");
    println!("{}", msg);
    assert_eq!(msg, "[2024/01/02 03:04:05] \u{1b}[32mINFO\u{1b}[0m (\u{1b}[36mM\u{1b}[0m)(c/d.rs:12):msg");
}

#[test]
fn test_create_entry() {
    let m2 = CellModule::new(1, "M2", LogLevel::Info);
    let entry = LoggerEntryContext::create_log_entry(&config(), m2, LogLevel::Info, "x.rs", 7, "asdd", "now");
    assert_eq!(entry.log_level, LogLevel::Info);
    assert_eq!(entry.module.name, "M2");
    assert_eq!(entry.msg, "[now] \u{1b}[32mINFO\u{1b}[0m (\u{1b}[36mM2\u{1b}[0m)(x.rs:7):asdd");
}

#[test]
fn test_color() {
    let (level, module) = get_color(&config().color_property, LogLevel::Error, "asd");
    assert_eq!(level, Color::Red);
    assert_eq!(module, Color::Cyan);
}

#[test]
fn test_paint() {
    let p = ColorProperty::default_color_property();
    assert_eq!(get_color(&p, LogLevel::Warn, "asd").0, Color::Yellow);
    assert_eq!(get_color(&p, LogLevel::Debug, "asd").0, Color::Blue);
    assert_eq!(get_color(&p, LogLevel::Trace, "asd").0, Color::Green);
}

#[test]
fn test_log() {
    let m = CellModule::new(1, "asd", LogLevel::Info);
    let l = Log4rsLogger::new(&m);
    assert_eq!(l.settings.appender_name, "asd");
    assert_eq!(l.settings.level, RecordLevel::Info);
    let entry = LoggerEntryContext::create_log_entry(&config(), m, LogLevel::Info, "s.rs", 1, "asdddd", "t");
    assert_eq!(l.loglevel_to_log4rs(LogLevel::Info, &entry), Some(RecordLevel::Info));
    assert_eq!(l.loglevel_to_log4rs(LogLevel::Error, &entry), None);
}

#[test]
fn levels_and_names() {
    assert_eq!(LogLevel::Trace.get_value(), 0);
    assert_eq!(LogLevel::Error.get_value(), 4);
    assert!(LogLevel::Error.gt(LogLevel::Warn));
    assert!(!LogLevel::Info.gt(LogLevel::Info));
    assert_eq!(get_simple_loglevel(LogLevel::Warn), "WARN");
    assert_eq!(loglevel::LogLevel::TRACE.get_value(), 1);
    assert_eq!(loglevel::LogLevel::ERROR.get_value(), 5);
    assert!(!loglevel::LogLevel::ERROR.is_bigger(loglevel::LogLevel::TRACE));
    let logger = CellLogger { log_level: loglevel::LogLevel::ERROR };
    assert!(logger.log_able(loglevel::LogLevel::TRACE));
}

#[test]
fn module_description() {
    let m = CellModule::new(-12, "core", LogLevel::Debug);
    assert_eq!(m.describe(), "module_name:core,index:-12");
    assert_eq!(m.index(), -12);
    assert_eq!(Module::name(&m), "core");
    assert_eq!(m.log_level(), LogLevel::Debug);
}

#[test]
fn decimal_notation() {
    assert_eq!(decimal_string(0), "0");
    assert_eq!(decimal_string(1234567890), "1234567890");
    assert_eq!(decimal_string(u64::MAX), "18446744073709551615");
    assert_eq!(signed_decimal_string(i64::MIN), "-9223372036854775808");
    assert_eq!(signed_decimal_string(-5), "-5");
}

#[test]
fn caller_path_trimmed() {
    assert_eq!(trim_caller_path("rust-cell/sdk/logsdk/src/lib.rs"), "src/lib.rs");
    assert_eq!(trim_caller_path("a/b/c"), "a/b/c");
    assert_eq!(trim_caller_path("/a/b/c"), "b/c");
    assert_eq!(trim_caller_path("lib.rs"), "lib.rs");
}

#[test]
fn caller_found_past_blacklist() {
    let black = vec![String::from("src/backtrace/mod.rs"), String::from("logsdk/src/lib.rs")];
    let frames = vec![
        vec![(None, Some(1)), (Some(String::from("/x/src/backtrace/mod.rs")), Some(2))],
        vec![(Some(String::from("/y/logsdk/src/lib.rs")), Some(3))],
        vec![(Some(String::from("/z/app/main.rs")), Some(40))],
        vec![(Some(String::from("/w/other.rs")), Some(50))],
    ];
    assert_eq!(get_log_info(&frames, &black), (Some(String::from("/z/app/main.rs")), Some(40)));
    assert_eq!(get_log_info(&frames[..2].to_vec(), &black), (None, None));
    // A blacklisted name skips the rest of its frame.
    let inlined = vec![
        vec![(Some(String::from("/y/logsdk/src/lib.rs")), Some(3)), (Some(String::from("/z/app/inlined.rs")), Some(7))],
        vec![(None, None), (Some(String::from("/w/other.rs")), Some(50))],
    ];
    assert_eq!(get_log_info(&inlined, &black), (Some(String::from("/w/other.rs")), Some(50)));
    assert!(contains_text("abcdef", "cde"));
    assert!(!contains_text("abc", "abcd"));
    assert!(contains_text("abc", ""));
    assert!(is_blacklisted("/y/logsdk/src/lib.rs", &black));
}

#[test]
fn setup_installs_once() {
    assert_eq!(setup_step(UNINITIALIZED), SetupStep::Install);
    assert_eq!(setup_step(INITIALIZING), SetupStep::WaitThenFail);
    assert_eq!(setup_step(INITIALIZED), SetupStep::Fail);
}

#[test]
fn cache_keys() {
    assert_eq!(make_key(None, loglevel::LogLevel::TRACE, 0), 0x1_0000);
    assert_eq!(make_key(Some(3), loglevel::LogLevel::ERROR, 2), 3 + 5 * 0x1_0000 + 2 * 0x1_0000_0000);
    assert_eq!(make_key(None, loglevel::LogLevel::TRACE, (1i64 << 33) + 1), 0x1_0000 + 0x1_0000_0000);
    assert_eq!(make_key(None, loglevel::LogLevel::TRACE, -1), 0x1_0000 - 0x1_0000_0000);
}

#[test]
fn console_levels() {
    let s = setup_by_name("x", LogLevel::Error);
    assert_eq!(s.level, RecordLevel::Warn);
    assert_eq!(s.pattern, "%m%n");
    assert_eq!(s.encoder_pattern, "{m}{n}");
    let s = setup_by_name("x", LogLevel::Trace);
    assert_eq!(s.level_filter, RecordLevel::Trace);
    let entry = LogEntry { msg: String::from("m"), log_level: LogLevel::Debug, module: CellModule::new(0, "n", LogLevel::Info) };
    let l = Log4rsLogger::new(&entry.module);
    assert_eq!(l.loglevel_to_log4rs(LogLevel::Trace, &entry), Some(RecordLevel::Debug));
}
