//! Leveled diagnostic logging to standard error.
//!
//! The process-wide level is kept in the `log` crate's maximum level
//! filter; a filter that was never set reads as `Info`.
use crate::fmt::{spec_decimal, u64_to_decimal};
use vstd::prelude::*;
use std::io::Write;
use vstd::string::*;

verus! {

/// Severity of a message; lower is more severe.
#[derive(Clone, Copy, Debug, PartialEq, Eq, Structural)]
pub enum LogLevel {
    Error,
    Warn,
    Info,
    Debug,
    Trace,
}

/// The rank of a level: Error 0 up to Trace 4.
pub open spec fn level_rank(l: LogLevel) -> u8 {
    match l {
        LogLevel::Error => 0,
        LogLevel::Warn => 1,
        LogLevel::Info => 2,
        LogLevel::Debug => 3,
        LogLevel::Trace => 4,
    }
}

/// The name printed for a level.
pub open spec fn level_name(l: LogLevel) -> Seq<char> {
    match l {
        LogLevel::Error => seq!['E', 'R', 'R', 'O', 'R'],
        LogLevel::Warn => seq!['W', 'A', 'R', 'N'],
        LogLevel::Info => seq!['I', 'N', 'F', 'O'],
        LogLevel::Debug => seq!['D', 'E', 'B', 'U', 'G'],
        LogLevel::Trace => seq!['T', 'R', 'A', 'C', 'E'],
    }
}

/// Calls `log::set_max_level` with the filter of the same name as `level`.
#[verifier::external_body]
fn store_level(level: LogLevel) {
    let filter = match level {
        LogLevel::Error => log::LevelFilter::Error,
        LogLevel::Warn => log::LevelFilter::Warn,
        LogLevel::Info => log::LevelFilter::Info,
        LogLevel::Debug => log::LevelFilter::Debug,
        LogLevel::Trace => log::LevelFilter::Trace,
    };
    log::set_max_level(filter);
}

/// Calls `log::max_level` and returns the filter's code; the value is
/// process-wide state, so nothing is promised of it.
#[verifier::external_body]
fn stored_level_code() -> usize {
    log::max_level() as usize
}

/// Calls `std::time::SystemTime::now` and returns the seconds since the
/// Unix epoch (0 before the epoch); the clock decides the value.
#[verifier::external_body]
pub(crate) fn unix_time_secs() -> u64 {
    std::time::SystemTime::now().duration_since(std::time::UNIX_EPOCH).unwrap_or_default().as_secs()
}

/// Writes one line to standard error with `writeln!`; write errors are ignored.
#[verifier::external_body]
fn write_stderr_line(line: &str) {
    let _ = writeln!(std::io::stderr(), "{}", line);
}

impl LogLevel {
    /// The rank of the level.
    pub fn rank(&self) -> (r: u8)
        ensures
            r == level_rank(*self),
    {
        match self {
            LogLevel::Error => 0,
            LogLevel::Warn => 1,
            LogLevel::Info => 2,
            LogLevel::Debug => 3,
            LogLevel::Trace => 4,
        }
    }

    /// The printed name of the level.
    pub fn name(&self) -> (r: &'static str)
        ensures
            r@ == level_name(*self),
    {
        proof {
            reveal_strlit("ERROR");
            reveal_strlit("WARN");
            reveal_strlit("INFO");
            reveal_strlit("DEBUG");
            reveal_strlit("TRACE");
        }
        match self {
            LogLevel::Error => "ERROR",
            LogLevel::Warn => "WARN",
            LogLevel::Info => "INFO",
            LogLevel::Debug => "DEBUG",
            LogLevel::Trace => "TRACE",
        }
    }

    /// The printed name of the level, as an owned string.
    pub fn to_string(&self) -> (r: String)
        ensures
            r@ == level_name(*self),
    {
        String::from_str(self.name())
    }
}

/// Sets the process-wide level.
pub fn set_log_level(level: LogLevel) {
    store_level(level);
}

/// The level a code of `log`'s level filter stands for: 1 (Error) up to
/// 5 (Trace); any other code, among them 0 for a filter never set, reads
/// as Info.
pub open spec fn spec_level_of_code(code: usize) -> LogLevel {
    if code == 1 {
        LogLevel::Error
    } else if code == 2 {
        LogLevel::Warn
    } else if code == 4 {
        LogLevel::Debug
    } else if code == 5 {
        LogLevel::Trace
    } else {
        LogLevel::Info
    }
}

/// Reads a filter code as a level.
pub fn level_of_code(code: usize) -> (r: LogLevel)
    ensures
        r == spec_level_of_code(code),
{
    if code == 1 {
        LogLevel::Error
    } else if code == 2 {
        LogLevel::Warn
    } else if code == 4 {
        LogLevel::Debug
    } else if code == 5 {
        LogLevel::Trace
    } else {
        LogLevel::Info
    }
}

/// The process-wide level (as last set, or Info when never set).
pub fn get_log_level() -> LogLevel {
    let code = stored_level_code();
    level_of_code(code)
}

/// A message of level `level` is printed when the level is at most as
/// verbose as `current`.
pub fn should_log(level: LogLevel, current: LogLevel) -> (r: bool)
    ensures
        r == (level_rank(level) <= level_rank(current)),
{
    level.rank() <= current.rank()
}

/// The printed line: `[seconds] [LEVEL] message`.
pub fn format_log_line(timestamp: u64, level: LogLevel, message: &str) -> (r: String)
    ensures
        r@ == seq!['['] + spec_decimal(timestamp as nat) + seq![']', ' ', '['] + level_name(level) + seq![']', ' '] + message@,
{
    proof {
        reveal_strlit("[");
        reveal_strlit("] [");
        reveal_strlit("] ");
    }
    let mut s = String::from_str("[");
    let ts = u64_to_decimal(timestamp);
    s.append(ts.as_str());
    s.append("] [");
    s.append(level.name());
    s.append("] ");
    s.append(message);
    s
}

/// Prints `message` to standard error when `level` passes the process-wide level.
pub fn log(level: LogLevel, message: &str) {
    if should_log(level, get_log_level()) {
        let ts = unix_time_secs();
        let line = format_log_line(ts, level, message);
        write_stderr_line(line.as_str());
    }
}

pub fn log_error(message: &str) {
    log(LogLevel::Error, message);
}

pub fn log_warn(message: &str) {
    log(LogLevel::Warn, message);
}

pub fn log_info(message: &str) {
    log(LogLevel::Info, message);
}

pub fn log_debug(message: &str) {
    log(LogLevel::Debug, message);
}

pub fn log_trace(message: &str) {
    log(LogLevel::Trace, message);
}

} // verus!
