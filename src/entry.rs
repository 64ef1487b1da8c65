//! The structured entries that parsing produces.

use vstd::prelude::*;

verus! {

/// An error-log entry.
#[derive(Debug, Clone)]
pub struct LogEntry {
    pub timestamp: String,
    pub level: String,
    pub message: String,
}

/// An access-log entry.
#[derive(Debug, Clone)]
pub struct AccessLogEntry {
    pub ip_address: String,
    pub timestamp: String,
    pub method: String,
    pub path: String,
    pub http_version: String,
    pub status: String,
    pub response_size: String,
}

/// One parsed line, of either kind.
#[derive(Debug, Clone)]
pub enum LogType {
    AccessLog(AccessLogEntry),
    ErrorLog(LogEntry),
}

/// The kind of a log file, decided once per stream from the file's name.
#[derive(Debug, Clone, Copy, PartialEq, Eq, Structural)]
pub enum LogKind {
    Access,
    Error,
}

/// The service's startup configuration.
#[derive(Debug, Clone)]
pub struct Config {
    pub log_folder: String,
}

/// The placeholder of a field that could not be extracted.
pub open spec fn unknown() -> Seq<char> {
    "Unknown"@
}

} // verus!
