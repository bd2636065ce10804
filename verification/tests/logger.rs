use ldk_node::logger::{
    format_line, FacadeLevel, LogAction, LogFileSetup, LogLevel, LogRecord, Logger, Writer,
};
use lightning::util::logger::Level;

const LEVELS: [LogLevel; 6] = [
    LogLevel::Gossip,
    LogLevel::Trace,
    LogLevel::Debug,
    LogLevel::Info,
    LogLevel::Warn,
    LogLevel::Error,
];

fn record(level: LogLevel) -> LogRecord {
    LogRecord {
        level,
        args: "peer connected".to_string(),
        module: "ldk_node::chain".to_string(),
        line: 407,
    }
}

#[test]
fn line_holds_time_level_source_and_message() {
    assert_eq!(
        format_line("2025-01-02 03:04:05", &record(LogLevel::Info)),
        "2025-01-02 03:04:05 INFO  [ldk_node::chain:407] peer connected\n"
    );
}

#[test]
fn level_names_are_padded_like_a_format_width() {
    let names = ["GOSSIP", "TRACE", "DEBUG", "INFO", "WARN", "ERROR"];
    for (level, name) in LEVELS.iter().zip(names.iter()) {
        let expected = format!("t {:<5} [{}:{}] {}\n", name, "ldk_node::chain", 407, "peer connected");
        assert_eq!(format_line("t", &record(*level)), expected);
    }
}

#[test]
fn levels_are_ordered_as_listed() {
    for (i, a) in LEVELS.iter().enumerate() {
        for (j, b) in LEVELS.iter().enumerate() {
            assert_eq!(a.is_below(b), i < j);
        }
    }
}

#[test]
fn level_order_and_names_are_those_of_lightning() {
    let outside =
        [Level::Gossip, Level::Trace, Level::Debug, Level::Info, Level::Warn, Level::Error];
    for (i, a) in outside.iter().enumerate() {
        let line = format_line("t", &record(LEVELS[i]));
        assert!(line.starts_with(&format!("t {:<5} [", a.to_string())));
        for (j, b) in outside.iter().enumerate() {
            assert_eq!(a < b, LEVELS[i].is_below(&LEVELS[j]));
        }
    }
}

#[test]
fn file_logger_drops_records_below_its_level() {
    let logger: Logger<()> =
        Logger::new_fs_writer("/var/log/node.log", LogLevel::Warn, LogFileSetup::Ready).unwrap();
    for level in LEVELS {
        let expected = if level.is_below(&LogLevel::Warn) {
            LogAction::Skip
        } else {
            LogAction::AppendToFile {
                file_path: "/var/log/node.log".to_string(),
                text: format_line("now", &record(level)),
            }
        };
        assert_eq!(logger.log_at("now", record(level)), expected);
        assert_eq!(logger.writer.log_at("now", record(level)), expected);
    }
}

#[test]
fn facade_logger_speaks_at_its_own_level() {
    let logger: Logger<()> = Logger::new_log_facade(LogLevel::Debug).unwrap();
    assert_eq!(logger.log_at("now", record(LogLevel::Trace)), LogAction::Skip);
    assert_eq!(
        logger.log_at("now", record(LogLevel::Error)),
        LogAction::LogToFacade {
            level: FacadeLevel::Debug,
            text: "now ERROR [ldk_node::chain:407] peer connected\n".to_string(),
        }
    );
    // The writer alone does not filter.
    assert_eq!(
        logger.writer.log_at("now", record(LogLevel::Trace)),
        LogAction::LogToFacade {
            level: FacadeLevel::Debug,
            text: "now TRACE [ldk_node::chain:407] peer connected\n".to_string(),
        }
    );
}

#[test]
fn gossip_and_trace_share_a_facade_level() {
    let facade = [
        FacadeLevel::Trace,
        FacadeLevel::Trace,
        FacadeLevel::Debug,
        FacadeLevel::Info,
        FacadeLevel::Warn,
        FacadeLevel::Error,
    ];
    for (level, expected) in LEVELS.iter().zip(facade.iter()) {
        assert_eq!(FacadeLevel::of(level), *expected);
    }
}

#[test]
fn custom_writer_gets_every_record() {
    let logger = Logger::new_custom_writer("sink").unwrap();
    assert_eq!(logger.writer, Writer::CustomWriter("sink"));
    for level in LEVELS {
        assert!(logger.enabled(&level));
        assert_eq!(
            logger.log(record(level)),
            LogAction::HandToCustomWriter(record(level))
        );
    }
}

#[test]
fn failed_preparations_are_complained_about() {
    let logger: Result<Logger<()>, String> = Logger::new_fs_writer(
        "a/b.log",
        LogLevel::Info,
        LogFileSetup::DirectoryFailed("permission denied".to_string()),
    );
    assert_eq!(
        logger,
        Err("ERROR: Failed to create log parent directory: permission denied".to_string())
    );
    let logger: Result<Logger<()>, String> = Logger::new_fs_writer(
        "a/b.log",
        LogLevel::Info,
        LogFileSetup::FileFailed("is a directory".to_string()),
    );
    assert_eq!(logger, Err("ERROR: Failed to open log file: is a directory".to_string()));
}

#[test]
fn a_path_without_parent_needs_no_preparations() {
    let logger: Logger<()> =
        Logger::new_fs_writer("", LogLevel::Info, LogFileSetup::NoParent).unwrap();
    assert_eq!(
        logger.writer,
        Writer::FileWriter { file_path: String::new(), level: LogLevel::Info }
    );
}

#[test]
fn the_time_of_logging_is_written_to_the_second() {
    let writer: Writer<()> =
        Writer::FileWriter { file_path: "node.log".to_string(), level: LogLevel::Gossip };
    let before = chrono::Utc::now().format("%Y-%m-%d %H:%M:%S").to_string();
    let action = writer.log(record(LogLevel::Info));
    let after = chrono::Utc::now().format("%Y-%m-%d %H:%M:%S").to_string();
    match action {
        LogAction::AppendToFile { file_path, text } => {
            assert_eq!(file_path, "node.log");
            let time = text[..19].to_string();
            assert!(before <= time && time <= after);
            assert_eq!(&text[19..], " INFO  [ldk_node::chain:407] peer connected\n");
        }
        other => panic!("{:?}", other),
    }
}

#[test]
fn what_passes_at_a_level_passes_above_it() {
    for least in LEVELS {
        let logger: Logger<()> = Logger::new_log_facade(least).unwrap();
        for (i, level) in LEVELS.iter().enumerate() {
            if logger.enabled(level) {
                for higher in LEVELS[i..].iter() {
                    assert!(logger.enabled(higher));
                }
            }
        }
    }
}
