//! Which log records are written, where, and how they read.

use crate::text::{decimal_text, decimal_value, digit_char, law_decimal_denotes, push_decimal};
use vstd::prelude::*;

verus! {

/// The verbosity levels, from the most verbose to the most serious one.
#[derive(Clone, Copy, Debug, PartialEq, Eq, Structural)]
pub enum LogLevel {
    /// Designates extremely verbose information, including gossip-induced messages.
    Gossip,
    /// Designates very low priority, often extremely verbose, information.
    Trace,
    /// Designates lower priority information.
    Debug,
    /// Designates useful information.
    Info,
    /// Designates hazardous situations.
    Warn,
    /// Designates very serious errors.
    Error,
}

impl LogLevel {
    /// The place of the level in the order of levels.
    pub open spec fn rank(self) -> int {
        match self {
            LogLevel::Gossip => 0,
            LogLevel::Trace => 1,
            LogLevel::Debug => 2,
            LogLevel::Info => 3,
            LogLevel::Warn => 4,
            LogLevel::Error => 5,
        }
    }

    /// The name of the level, padded with spaces to five characters.
    pub open spec fn padded_name(self) -> Seq<char> {
        match self {
            LogLevel::Gossip => "GOSSIP"@,
            LogLevel::Trace => "TRACE"@,
            LogLevel::Debug => "DEBUG"@,
            LogLevel::Info => "INFO "@,
            LogLevel::Warn => "WARN "@,
            LogLevel::Error => "ERROR"@,
        }
    }

    fn ordinal(&self) -> (r: u8)
        ensures
            r == self.rank(),
    {
        match self {
            LogLevel::Gossip => 0,
            LogLevel::Trace => 1,
            LogLevel::Debug => 2,
            LogLevel::Info => 3,
            LogLevel::Warn => 4,
            LogLevel::Error => 5,
        }
    }

    /// Whether this level is less serious than the other.
    pub fn is_below(&self, other: &LogLevel) -> (r: bool)
        ensures
            r == (self.rank() < other.rank()),
    {
        self.ordinal() < other.ordinal()
    }

    fn push_padded_name(&self, out: &mut String)
        ensures
            final(out)@ == old(out)@ + self.padded_name(),
    {
        match self {
            LogLevel::Gossip => out.append("GOSSIP"),
            LogLevel::Trace => out.append("TRACE"),
            LogLevel::Debug => out.append("DEBUG"),
            LogLevel::Info => out.append("INFO "),
            LogLevel::Warn => out.append("WARN "),
            LogLevel::Error => out.append("ERROR"),
        }
    }
}

/// A unit of logging output with metadata to enable filtering, and module path and line to
/// inform on the log's source.
#[derive(Debug, PartialEq, Eq)]
pub struct LogRecord {
    /// The verbosity level of the message.
    pub level: LogLevel,
    /// The message body.
    pub args: String,
    /// The module path of the message.
    pub module: String,
    /// The line containing the message.
    pub line: u32,
}

/// The line that is written for a record at a time.
pub open spec fn log_line(time: Seq<char>, record: LogRecord) -> Seq<char> {
    time + " "@ + record.level.padded_name() + " ["@ + record.module@ + ":"@ + decimal_text(
        record.line as nat,
    ) + "] "@ + record.args@ + "\n"@
}

/// The line that is written for a record at a time.
pub fn format_line(time: &str, record: &LogRecord) -> (line: String)
    ensures
        line@ == log_line(time@, *record),
{
    let mut line: String = time.to_owned();
    line.append(" ");
    record.level.push_padded_name(&mut line);
    line.append(" [");
    line.append(record.module.as_str());
    line.append(":");
    push_decimal(&mut line, record.line as u64);
    line.append("] ");
    line.append(record.args.as_str());
    line.append("\n");
    line
}

/// A number below a hundred in two digits.
pub open spec fn two_digits(n: nat) -> Seq<char> {
    seq![digit_char(n / 10), digit_char(n % 10)]
}

/// A year in four digits, or with a plus sign where they do not suffice.
pub open spec fn year_text(year: nat) -> Seq<char> {
    if year <= 9999 {
        two_digits(year / 100) + two_digits(year % 100)
    } else {
        "+"@ + decimal_text(year)
    }
}

/// A date and a time of day, to the second.
pub open spec fn time_text(
    year: nat,
    month: nat,
    day: nat,
    hour: nat,
    minute: nat,
    second: nat,
) -> Seq<char> {
    year_text(year) + "-"@ + two_digits(month) + "-"@ + two_digits(day) + " "@ + two_digits(hour)
        + ":"@ + two_digits(minute) + ":"@ + two_digits(second)
}

/// Whether the text gives a date and a time of day, to the second.
pub open spec fn gives_time(text: Seq<char>) -> bool {
    exists|year: nat, month: nat, day: nat, hour: nat, minute: nat, second: nat|
        {
            &&& text == #[trigger] time_text(year, month, day, hour, minute, second)
            &&& 1 <= month <= 12
            &&& 1 <= day <= 31
            &&& hour < 24
            &&& minute < 60
            &&& second < 60
        }
}

/// The text of an instant, in nanoseconds since 1 Jan 1970 UTC, that `DateTime::format` makes by
/// a pattern.
pub uninterp spec fn utc_text(pattern: Seq<char>, at: int) -> Seq<char>;

/// `chrono::Utc::now` and `DateTime::format`: the text of some instant by the pattern, which is
/// that of a date and a time of day to the second. That the instant is the present one is not
/// said, and a clock that stands before 1970 is not provided for.
#[verifier::external_body]
fn utc_now_text(pattern: &str) -> (text: String)
    requires
        pattern@ == "%Y-%m-%d %H:%M:%S"@,
    ensures
        exists|at: int| text@ == #[trigger] utc_text(pattern@, at),
        gives_time(text@),
{
    chrono::Utc::now().format(pattern).to_string()
}

/// Defines a writer for [`Logger`]; `W` stands for custom writers.
#[derive(Debug, PartialEq, Eq)]
pub enum Writer<W> {
    /// Writes logs to the file system.
    FileWriter { file_path: String, level: LogLevel },
    /// Forwards logs to the `log` facade.
    LogFacadeWriter { level: LogLevel },
    /// Forwards logs to a custom writer.
    CustomWriter(W),
}

/// The levels of the `log` facade.
#[derive(Clone, Copy, Debug, PartialEq, Eq, Structural)]
pub enum FacadeLevel {
    Trace,
    Debug,
    Info,
    Warn,
    Error,
}

impl FacadeLevel {
    /// The level of the facade for a level.
    pub open spec fn of_spec(level: LogLevel) -> FacadeLevel {
        match level {
            LogLevel::Gossip => FacadeLevel::Trace,
            LogLevel::Trace => FacadeLevel::Trace,
            LogLevel::Debug => FacadeLevel::Debug,
            LogLevel::Info => FacadeLevel::Info,
            LogLevel::Warn => FacadeLevel::Warn,
            LogLevel::Error => FacadeLevel::Error,
        }
    }

    /// The level of the facade for a level.
    pub fn of(level: &LogLevel) -> (facade: FacadeLevel)
        ensures
            facade == FacadeLevel::of_spec(*level),
    {
        match level {
            LogLevel::Gossip => FacadeLevel::Trace,
            LogLevel::Trace => FacadeLevel::Trace,
            LogLevel::Debug => FacadeLevel::Debug,
            LogLevel::Info => FacadeLevel::Info,
            LogLevel::Warn => FacadeLevel::Warn,
            LogLevel::Error => FacadeLevel::Error,
        }
    }
}

/// What is done with a record.
#[derive(Debug, PartialEq, Eq)]
pub enum LogAction {
    /// Nothing.
    Skip,
    /// The text is appended to the file.
    AppendToFile { file_path: String, text: String },
    /// The text is handed to the facade.
    LogToFacade { level: FacadeLevel, text: String },
    /// The record is handed to the custom writer.
    HandToCustomWriter(LogRecord),
}

impl<W> Writer<W> {
    /// Whether this is what the writer does with a record at a time. A file takes no record below
    /// its level; the facade is addressed at the level of the writer.
    pub open spec fn does(self, time: Seq<char>, record: LogRecord, action: LogAction) -> bool {
        match self {
            Writer::FileWriter { file_path, level } => if record.level.rank() < level.rank() {
                action == LogAction::Skip
            } else {
                action matches LogAction::AppendToFile { file_path: path, text } && path@
                    == file_path@ && text@ == log_line(time, record)
            },
            Writer::LogFacadeWriter { level } => action matches LogAction::LogToFacade {
                level: facade,
                text,
            } && facade == FacadeLevel::of_spec(level) && text@ == log_line(time, record),
            Writer::CustomWriter(_) => action == LogAction::HandToCustomWriter(record),
        }
    }

    /// What the writer does with a record, the time being given.
    pub fn log_at(&self, time: &str, record: LogRecord) -> (action: LogAction)
        ensures
            self.does(time@, record, action),
    {
        match self {
            Writer::FileWriter { file_path, level } => {
                if record.level.is_below(level) {
                    LogAction::Skip
                } else {
                    LogAction::AppendToFile {
                        file_path: file_path.clone(),
                        text: format_line(time, &record),
                    }
                }
            },
            Writer::LogFacadeWriter { level } => LogAction::LogToFacade {
                level: FacadeLevel::of(level),
                text: format_line(time, &record),
            },
            Writer::CustomWriter(_) => LogAction::HandToCustomWriter(record),
        }
    }

    /// What the writer does with a record now.
    pub fn log(&self, record: LogRecord) -> (action: LogAction)
        ensures
            exists|at: int|
                {
                    let time = #[trigger] utc_text("%Y-%m-%d %H:%M:%S"@, at);
                    gives_time(time) && self.does(time, record, action)
                },
    {
        let time = utc_now_text("%Y-%m-%d %H:%M:%S");
        self.log_at(time.as_str(), record)
    }
}

/// What became of the preparations for a log file.
#[derive(Debug, PartialEq, Eq)]
pub enum LogFileSetup {
    /// The path has no parent directory, so nothing was prepared.
    NoParent,
    /// The parent directory and the file exist.
    Ready,
    /// The parent directory could not be created, for this reason.
    DirectoryFailed(String),
    /// The file could not be opened, for this reason.
    FileFailed(String),
}

impl LogFileSetup {
    /// The complaint about the preparations, if there is cause for one.
    pub open spec fn complaint(self) -> Option<Seq<char>> {
        match self {
            LogFileSetup::DirectoryFailed(e) => Some(
                "ERROR: Failed to create log parent directory: "@ + e@,
            ),
            LogFileSetup::FileFailed(e) => Some("ERROR: Failed to open log file: "@ + e@),
            _ => None,
        }
    }
}

/// A logger, which filters records by the level of its writer.
#[derive(Debug, PartialEq, Eq)]
pub struct Logger<W> {
    /// Specifies the logger's writer.
    pub writer: Writer<W>,
}

impl<W> Logger<W> {
    /// Creates a new logger with a filesystem writer. The parameters to this function are the
    /// path to the log file, the log level, and what became of the preparations for the file;
    /// where they failed, the complaint is returned.
    pub fn new_fs_writer(file_path: &str, level: LogLevel, setup: LogFileSetup) -> (logger: Result<
        Logger<W>,
        String,
    >)
        ensures
            match logger {
                Ok(l) => {
                    &&& setup.complaint() is None
                    &&& l.writer matches Writer::FileWriter { file_path: path, level: at } && path@
                        == file_path@ && at == level
                },
                Err(e) => setup.complaint() == Some(e@),
            },
    {
        match setup {
            LogFileSetup::DirectoryFailed(e) => {
                let mut complaint: String = "ERROR: Failed to create log parent directory: "
                    .to_owned();
                complaint.append(e.as_str());
                Err(complaint)
            },
            LogFileSetup::FileFailed(e) => {
                let mut complaint: String = "ERROR: Failed to open log file: ".to_owned();
                complaint.append(e.as_str());
                Err(complaint)
            },
            _ => Ok(
                Logger { writer: Writer::FileWriter { file_path: file_path.to_owned(), level } },
            ),
        }
    }

    /// Creates a new logger that forwards to the `log` facade.
    pub fn new_log_facade(level: LogLevel) -> (logger: Result<Logger<W>, ()>)
        ensures
            logger == Ok::<Logger<W>, ()>(Logger { writer: Writer::LogFacadeWriter { level } }),
    {
        Ok(Logger { writer: Writer::LogFacadeWriter { level } })
    }

    /// Creates a new logger that forwards to a custom writer.
    pub fn new_custom_writer(log_writer: W) -> (logger: Result<Logger<W>, ()>)
        ensures
            logger == Ok::<Logger<W>, ()>(Logger { writer: Writer::CustomWriter(log_writer) }),
    {
        Ok(Logger { writer: Writer::CustomWriter(log_writer) })
    }

    /// Whether the logger passes on records of this level: a custom writer gets all of them.
    pub open spec fn passes(self, level: LogLevel) -> bool {
        match self.writer {
            Writer::FileWriter { file_path: _, level: least } => level.rank() >= least.rank(),
            Writer::LogFacadeWriter { level: least } => level.rank() >= least.rank(),
            Writer::CustomWriter(_) => true,
        }
    }

    /// Whether this is what the logger does with a record at a time.
    pub open spec fn does(self, time: Seq<char>, record: LogRecord, action: LogAction) -> bool {
        if self.passes(record.level) {
            self.writer.does(time, record, action)
        } else {
            action == LogAction::Skip
        }
    }

    /// Whether the logger passes on records of this level.
    pub fn enabled(&self, level: &LogLevel) -> (r: bool)
        ensures
            r == self.passes(*level),
    {
        match &self.writer {
            Writer::FileWriter { file_path: _, level: least } => !level.is_below(least),
            Writer::LogFacadeWriter { level: least } => !level.is_below(least),
            Writer::CustomWriter(_) => true,
        }
    }

    /// What the logger does with a record, the time being given.
    pub fn log_at(&self, time: &str, record: LogRecord) -> (action: LogAction)
        ensures
            self.does(time@, record, action),
    {
        if self.enabled(&record.level) {
            self.writer.log_at(time, record)
        } else {
            LogAction::Skip
        }
    }

    /// What the logger does with a record now.
    pub fn log(&self, record: LogRecord) -> (action: LogAction)
        ensures
            exists|at: int|
                {
                    let time = #[trigger] utc_text("%Y-%m-%d %H:%M:%S"@, at);
                    gives_time(time) && self.does(time, record, action)
                },
    {
        let time = utc_now_text("%Y-%m-%d %H:%M:%S");
        self.log_at(time.as_str(), record)
    }
}

/// A record is dropped exactly where the logger's writer has a level and the record is below it.
pub proof fn law_dropped_below_level<W>(
    logger: Logger<W>,
    time: Seq<char>,
    record: LogRecord,
    action: LogAction,
)
    requires
        logger.does(time, record, action),
    ensures
        action is Skip <==> !logger.passes(record.level),
{
}

/// What is passed on at one level is passed on at every more serious one.
pub proof fn law_passes_upward<W>(logger: Logger<W>, level: LogLevel, higher: LogLevel)
    requires
        logger.passes(level),
        level.rank() <= higher.rank(),
    ensures
        logger.passes(higher),
{
}

/// The levels are in this order.
pub proof fn law_level_order()
    ensures
        LogLevel::Gossip.rank() < LogLevel::Trace.rank() < LogLevel::Debug.rank()
            < LogLevel::Info.rank() < LogLevel::Warn.rank() < LogLevel::Error.rank(),
{
}

/// A logger that writes to a file or to the facade skips a record exactly where the level of the
/// record is below that of the writer, so never one at the level of the writer; one with a custom
/// writer skips none.
pub proof fn law_skipped_exactly_below<W>(
    logger: Logger<W>,
    time: Seq<char>,
    record: LogRecord,
    action: LogAction,
)
    requires
        logger.does(time, record, action),
    ensures
        logger.writer matches Writer::FileWriter { file_path, level } ==> (action is Skip
            <==> record.level.rank() < level.rank()) && (record.level == level ==> !(action is Skip)),
        logger.writer matches Writer::LogFacadeWriter { level } ==> (action is Skip
            <==> record.level.rank() < level.rank()) && (record.level == level ==> !(action is Skip)),
        logger.writer is CustomWriter ==> !(action is Skip),
{
}

/// A logger that writes to a file or to the facade passes on the levels from that of the writer on,
/// that one included, and none below; one with a custom writer passes on all.
pub proof fn law_passes_from_level_on<W>(logger: Logger<W>, level: LogLevel)
    ensures
        logger.writer matches Writer::FileWriter { file_path, level: least } ==> {
            &&& level == least ==> logger.passes(level)
            &&& level.rank() > least.rank() ==> logger.passes(level)
            &&& level.rank() < least.rank() ==> !logger.passes(level)
        },
        logger.writer matches Writer::LogFacadeWriter { level: least } ==> {
            &&& level == least ==> logger.passes(level)
            &&& level.rank() > least.rank() ==> logger.passes(level)
            &&& level.rank() < least.rank() ==> !logger.passes(level)
        },
        logger.writer is CustomWriter ==> logger.passes(level),
{
}

/// What is not skipped goes where the writer says: its line is appended to the file of that path,
/// or handed to the facade at the level of the writer, or the record itself, unchanged, to the
/// custom writer.
pub proof fn law_delivered_by_writer<W>(
    logger: Logger<W>,
    time: Seq<char>,
    record: LogRecord,
    action: LogAction,
)
    requires
        logger.does(time, record, action),
        !(action is Skip),
    ensures
        logger.writer matches Writer::FileWriter { file_path, level } ==> (
        action matches LogAction::AppendToFile { file_path: path, text } && path@ == file_path@
            && text@ == log_line(time, record)),
        logger.writer matches Writer::LogFacadeWriter { level } ==> (
        action matches LogAction::LogToFacade { level: facade, text } && text@ == log_line(
            time,
            record,
        ) && {
            &&& level == LogLevel::Gossip || level == LogLevel::Trace ==> facade
                == FacadeLevel::Trace
            &&& level == LogLevel::Debug ==> facade == FacadeLevel::Debug
            &&& level == LogLevel::Info ==> facade == FacadeLevel::Info
            &&& level == LogLevel::Warn ==> facade == FacadeLevel::Warn
            &&& level == LogLevel::Error ==> facade == FacadeLevel::Error
        }),
        logger.writer is CustomWriter ==> (action matches LogAction::HandToCustomWriter(given)
            && given == record),
{
}

/// A writer without a logger before it does the same, but that the facade is handed every record.
pub proof fn law_writer_alone<W>(
    writer: Writer<W>,
    time: Seq<char>,
    record: LogRecord,
    action: LogAction,
)
    requires
        writer.does(time, record, action),
    ensures
        writer matches Writer::FileWriter { file_path, level } ==> {
            &&& record.level.rank() < level.rank() ==> action is Skip
            &&& record.level.rank() >= level.rank() ==> (action matches LogAction::AppendToFile {
                file_path: path,
                text,
            } && path@ == file_path@ && text@ == log_line(time, record))
        },
        writer matches Writer::LogFacadeWriter { level } ==> (
        action matches LogAction::LogToFacade { level: facade, text } && text@ == log_line(
            time,
            record,
        )),
        writer is CustomWriter ==> action == LogAction::HandToCustomWriter(record),
{
}

/// A line holds, whole and in this order, the time, the name of the level, the module, the line
/// number in decimal and the message, and ends there with a line break.
pub proof fn law_line_is_whole(time: Seq<char>, record: LogRecord)
    ensures
        ({
            let line = log_line(time, record);
            let name = time.len() + 1;
            let width: int = if record.level == LogLevel::Gossip {
                6
            } else {
                5
            };
            let module = name + width + 2;
            let number = module + record.module@.len() + 1;
            let args = line.len() - 1 - record.args@.len();
            &&& line.take(time.len() as int) == time
            &&& line[time.len() as int] == ' '
            &&& line.subrange(name + width, module) == " ["@
            &&& line.subrange(module, number - 1) == record.module@
            &&& line[number - 1] == ':'
            &&& number < args - 2
            &&& decimal_value(line.subrange(number, args - 2)) == record.line
            &&& line.subrange(args - 2, args) == "] "@
            &&& line.subrange(args, line.len() - 1) == record.args@
            &&& line.last() == '\n'
        }),
{
    reveal_strlit(" ");
    reveal_strlit(" [");
    reveal_strlit(":");
    reveal_strlit("] ");
    reveal_strlit("\n");
    reveal_strlit("GOSSIP");
    reveal_strlit("TRACE");
    reveal_strlit("DEBUG");
    reveal_strlit("INFO ");
    reveal_strlit("WARN ");
    reveal_strlit("ERROR");
    law_decimal_denotes(record.line as nat);
    let line = log_line(time, record);
    let name = time.len() + 1;
    let width: int = record.level.padded_name().len() as int;
    let module = name + width + 2;
    let number = module + record.module@.len() + 1;
    let args = line.len() - 1 - record.args@.len();
    assert(line.take(time.len() as int) =~= time);
    assert(line.subrange(name + width, module) =~= " ["@);
    assert(line.subrange(module, number - 1) =~= record.module@);
    assert(line.subrange(number, args - 2) =~= decimal_text(record.line as nat));
    assert(line.subrange(args - 2, args) =~= "] "@);
    assert(line.subrange(args, line.len() - 1) =~= record.args@);
}

/// The name of a level is filled up with spaces to five characters.
pub proof fn law_names_are_padded(level: LogLevel)
    ensures
        level.padded_name() == match level {
            LogLevel::Gossip => seq!['G', 'O', 'S', 'S', 'I', 'P'],
            LogLevel::Trace => seq!['T', 'R', 'A', 'C', 'E'],
            LogLevel::Debug => seq!['D', 'E', 'B', 'U', 'G'],
            LogLevel::Info => seq!['I', 'N', 'F', 'O', ' '],
            LogLevel::Warn => seq!['W', 'A', 'R', 'N', ' '],
            LogLevel::Error => seq!['E', 'R', 'R', 'O', 'R'],
        },
{
    reveal_strlit("GOSSIP");
    reveal_strlit("TRACE");
    reveal_strlit("DEBUG");
    reveal_strlit("INFO ");
    reveal_strlit("WARN ");
    reveal_strlit("ERROR");
    match level {
        LogLevel::Gossip => assert(level.padded_name() =~= seq!['G', 'O', 'S', 'S', 'I', 'P']),
        LogLevel::Trace => assert(level.padded_name() =~= seq!['T', 'R', 'A', 'C', 'E']),
        LogLevel::Debug => assert(level.padded_name() =~= seq!['D', 'E', 'B', 'U', 'G']),
        LogLevel::Info => assert(level.padded_name() =~= seq!['I', 'N', 'F', 'O', ' ']),
        LogLevel::Warn => assert(level.padded_name() =~= seq!['W', 'A', 'R', 'N', ' ']),
        LogLevel::Error => assert(level.padded_name() =~= seq!['E', 'R', 'R', 'O', 'R']),
    }
}

/// A complaint is raised exactly where a preparation failed, and ends with the whole reason.
pub proof fn law_complaints_give_reasons(setup: LogFileSetup)
    ensures
        setup.complaint() is Some <==> setup is DirectoryFailed || setup is FileFailed,
        setup matches LogFileSetup::DirectoryFailed(e) ==> (setup.complaint() matches Some(m)
            && m.len() == 46 + e@.len() && m.skip(46) == e@),
        setup matches LogFileSetup::FileFailed(e) ==> (setup.complaint() matches Some(m) && m.len()
            == 32 + e@.len() && m.skip(32) == e@),
{
    reveal_strlit("ERROR: Failed to create log parent directory: ");
    reveal_strlit("ERROR: Failed to open log file: ");
    match setup {
        LogFileSetup::DirectoryFailed(e) => assert(setup.complaint()->Some_0.skip(46) =~= e@),
        LogFileSetup::FileFailed(e) => assert(setup.complaint()->Some_0.skip(32) =~= e@),
        _ => {},
    }
}

} // verus!
