//! Process configuration values: plain records filled in by the host
//! program, and the mapping from a configured level name to a log level.

use vstd::prelude::*;
use vstd::string::StringExecFns;

verus! {

/// A log verbosity level.  An unrecognized level name maps to `Off`.
#[derive(Clone, Copy, Debug, PartialEq, Eq, Structural)]
pub enum LogLevel {
    Debug,
    Error,
    Info,
    Trace,
    Warn,
    Off,
}

/// Tracing configuration: the log directory and file prefix, and the
/// configured level name.
#[derive(Clone, Debug)]
pub struct Tracing {
    pub debug: bool,
    pub dirname: String,
    pub prefix: String,
    pub level: String,
}

/// Endpoint configuration for the chain transport.
#[derive(Clone, Debug)]
pub struct Solana {
    pub wss: String,
    pub rpc: String,
}

/// The whole process configuration.
#[derive(Clone, Debug)]
pub struct Settings {
    pub tracing: Tracing,
    pub solana: Solana,
}

/// The log level a configured level name stands for.
pub open spec fn spec_level_of(s: Seq<char>) -> LogLevel {
    if s == "debug"@ {
        LogLevel::Debug
    } else if s == "error"@ {
        LogLevel::Error
    } else if s == "info"@ {
        LogLevel::Info
    } else if s == "trace"@ {
        LogLevel::Trace
    } else if s == "warn"@ {
        LogLevel::Warn
    } else {
        LogLevel::Off
    }
}

impl Tracing {
    /// The log level of the configured level name; any unrecognized name
    /// turns logging off.
    pub fn to_level_filter(&self) -> (r: LogLevel)
        ensures
            r == spec_level_of(self.level@),
    {
        if self.level == String::from_str("debug") {
            LogLevel::Debug
        } else if self.level == String::from_str("error") {
            LogLevel::Error
        } else if self.level == String::from_str("info") {
            LogLevel::Info
        } else if self.level == String::from_str("trace") {
            LogLevel::Trace
        } else if self.level == String::from_str("warn") {
            LogLevel::Warn
        } else {
            LogLevel::Off
        }
    }
}

} // verus!
