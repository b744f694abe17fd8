use guit::log::{Entry, Level, Logger};
use log::Metadata;

fn level_of(level: log::Level) -> Level {
    match level {
        log::Level::Error => Level::Error,
        log::Level::Warn => Level::Warn,
        log::Level::Info => Level::Info,
        log::Level::Debug => Level::Debug,
        log::Level::Trace => Level::Trace,
    }
}

fn enabled(logger: &Logger, metadata: &Metadata) -> bool {
    logger.enabled(level_of(metadata.level()), metadata.target())
}

#[test]
fn logger_new_has_no_entries() {
    let logger = Logger::new();

    assert!(logger.read().is_empty());
}

#[test]
fn logger_clear_has_no_entries() {
    let mut logger = Logger::new();
    logger.clear();

    assert!(logger.read().is_empty());
}

#[test]
fn logger_clear_removes_entries() {
    let mut logger = Logger::new();

    logger.log(Level::Info, "guit::test", "info message");
    assert_eq!(logger.read().len(), 1);

    logger.clear();
    assert!(logger.read().is_empty());
}

#[test]
fn logger_enabled_true_for_error_warn_info_levels() {
    let logger = Logger::new();
    let error = Metadata::builder()
        .level(log::Level::Error)
        .target("guit::test")
        .build();
    let warn = Metadata::builder()
        .level(log::Level::Warn)
        .target("guit::test")
        .build();
    let info = Metadata::builder()
        .level(log::Level::Info)
        .target("guit::test")
        .build();

    assert!(enabled(&logger, &error));
    assert!(enabled(&logger, &warn));
    assert!(enabled(&logger, &info));
}

#[test]
fn logger_enabled_false_for_debug_trace_levels() {
    let logger = Logger::new();
    let debug = Metadata::builder()
        .level(log::Level::Debug)
        .target("guit::test")
        .build();
    let trace = Metadata::builder()
        .level(log::Level::Trace)
        .target("guit::test")
        .build();

    assert!(!enabled(&logger, &debug));
    assert!(!enabled(&logger, &trace));
}

#[test]
fn logger_enabled_true_for_guit_modules() {
    let logger = Logger::new();
    let guit = Metadata::builder()
        .level(log::Level::Info)
        .target("guit::module")
        .build();

    assert!(enabled(&logger, &guit));
}

#[test]
fn logger_enabled_false_for_other_modules() {
    let logger = Logger::new();
    let other = Metadata::builder()
        .level(log::Level::Info)
        .target("other::module")
        .build();

    assert!(!enabled(&logger, &other));
}

#[test]
fn logger_log_ignores_empty_message() {
    let mut logger = Logger::new();

    logger.log(Level::Info, "guit::test", "   \n\t  ");

    assert!(logger.read().is_empty());
}

#[test]
fn logger_log_stores_valid_message() {
    let mut logger = Logger::new();

    logger.log(Level::Info, "guit::module", "info message");
    let entries = logger.read();

    assert_eq!(entries.len(), 1);
    assert_eq!(entries[0].level, Level::Info);
    assert_eq!(entries[0].message, "info message");
}

#[test]
fn logger_log_reverses_multiple_entries() {
    let mut logger = Logger::new();

    logger.log(Level::Info, "guit::test", "first message");
    logger.log(Level::Info, "guit::test", "second message");
    let entries = logger.read();

    assert_eq!(entries.len(), 2);
    assert_eq!(entries[0].message, "second message");
    assert_eq!(entries[1].message, "first message");
}

#[test]
fn logger_log_ignores_other_modules() {
    let mut logger = Logger::new();

    logger.log(Level::Info, "other::module", "info message");

    assert!(logger.read().is_empty());
}

#[test]
fn logger_log_stores_error_warn_info_levels() {
    let mut logger = Logger::new();

    logger.log(Level::Error, "guit::test", "error message");
    logger.log(Level::Warn, "guit::test", "warn message");
    logger.log(Level::Info, "guit::test", "info message");
    let entries = logger.read();

    assert_eq!(entries.len(), 3);
    assert_eq!(entries[0].level, Level::Info);
    assert_eq!(entries[1].level, Level::Warn);
    assert_eq!(entries[2].level, Level::Error);
}

#[test]
fn logger_log_ignores_debug_trace_levels() {
    let mut logger = Logger::new();

    logger.log(Level::Debug, "guit::test", "debug message");
    logger.log(Level::Trace, "guit::test", "trace message");

    assert!(logger.read().is_empty());
}

#[test]
fn entry_format() {
    let entry = Entry::new(1234567890, Level::Error, "error message".to_string());
    let formatted = entry.to_string();

    assert_eq!(formatted, "[1234567890 ERROR] error message");
}

#[test]
fn entry_to_string() {
    let entry = Entry::new(999, Level::Info, "info message".to_string());
    let stringified = entry.to_string();

    assert_eq!(stringified, "[999 INFO] info message");
}

#[test]
fn logger_log_at_trims_and_stamps() {
    let mut logger = Logger::new();

    assert!(logger.log_at(Level::Warn, "guit::app", "  spaced out \n", 42));
    assert!(!logger.log_at(Level::Warn, "guitar::app", "hello", 43));
    let entries = logger.read();

    assert_eq!(entries.len(), 1);
    assert_eq!(entries[0].time, 42);
    assert_eq!(entries[0].message, "spaced out");
    assert_eq!(entries[0].to_string(), "[42 WARN] spaced out");
}

#[test]
fn entry_zero_time_and_all_levels() {
    let names: Vec<String> = [Level::Error, Level::Warn, Level::Info, Level::Debug, Level::Trace]
        .iter()
        .map(|level| Entry::new(0, *level, "m".to_string()).to_string())
        .collect();

    assert_eq!(
        names,
        vec!["[0 ERROR] m", "[0 WARN] m", "[0 INFO] m", "[0 DEBUG] m", "[0 TRACE] m"]
    );
    assert_eq!(
        Entry::new(u64::MAX, Level::Info, String::new()).to_string(),
        "[18446744073709551615 INFO] "
    );
}
