//! Tailing of growing log files: line splitting with a persistent read
//! position, parsing of access-log and error-log lines into structured
//! entries, timestamp normalization, and the decisions of a tailing task.

pub mod cursor;
pub mod entry;
pub mod parser;
pub mod tail;
pub mod timestamp;
