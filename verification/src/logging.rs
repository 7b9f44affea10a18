//! The logging decisions: which levels are logged, and how a line is laid
//! out. Carrying lines to an output, and the clock, stay with the caller.

use vstd::prelude::*;
use vstd::string::StringExecFns;

verus! {

/// Severity of a log record, most severe first.
#[derive(Clone, Copy, PartialEq, Eq, Structural, Debug)]
pub enum Level {
    Error,
    Warn,
    Info,
    Debug,
    Trace,
}

/// The broker's log sink: it takes everything up to debug level.
pub struct Logger;

/// Whether a record at `level` is logged: all levels but trace.
pub open spec fn spec_enabled(level: Level) -> bool {
    !(level is Trace)
}

/// The name a level is printed under.
pub open spec fn spec_level_name(level: Level) -> Seq<char> {
    match level {
        Level::Error => "ERROR"@,
        Level::Warn => "WARN"@,
        Level::Info => "INFO"@,
        Level::Debug => "DEBUG"@,
        Level::Trace => "TRACE"@,
    }
}

impl Logger {
    pub fn enabled(&self, level: Level) -> (b: bool)
        ensures
            b == spec_enabled(level),
    {
        match level {
            Level::Trace => false,
            _ => true,
        }
    }

    /// Nothing is buffered, so there is nothing to flush.
    pub fn flush(&self) {
    }
}

/// The name a level is printed under.
pub fn level_name(level: Level) -> (s: &'static str)
    ensures
        s@ == spec_level_name(level),
{
    match level {
        Level::Error => "ERROR",
        Level::Warn => "WARN",
        Level::Info => "INFO",
        Level::Debug => "DEBUG",
        Level::Trace => "TRACE",
    }
}

/// Lays out one log line: the level in parentheses, the time, the module in
/// parentheses, a colon, and the message.
pub fn format_line(level: &str, time: &str, module: &str, message: &str) -> (s: String)
    ensures
        s@ == "("@ + level@ + ") "@ + time@ + " ("@ + module@ + "): "@ + message@,
{
    let mut s = String::new();
    s.append("(");
    s.append(level);
    s.append(") ");
    s.append(time);
    s.append(" (");
    s.append(module);
    s.append("): ");
    s.append(message);
    proof {
        assert(s@ =~= "("@ + level@ + ") "@ + time@ + " ("@ + module@ + "): "@ + message@);
    }
    s
}

/// Picks the broker's logging configuration: the sink, and the highest
/// level it is fed, debug. Installing the sink is the caller's task.
pub fn init_logger() -> (r: (Logger, Level))
    ensures
        r.1 == Level::Debug,
{
    (Logger, Level::Debug)
}

} // verus!
