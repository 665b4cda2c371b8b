//! One record of a syslog file.

use vstd::prelude::*;

verus! {

/// One parsed log record.
#[derive(Clone, Debug, PartialEq, Eq)]
pub struct LogEntry {
    /// Month, day and time, joined by single spaces.
    pub timestamp: String,
    pub hostname: String,
    pub process_name: String,
    pub pid: u32,
    pub message: String,
}

/// What a log record holds, as plain values.
pub struct LogEntryView {
    pub timestamp: Seq<char>,
    pub hostname: Seq<char>,
    pub process_name: Seq<char>,
    pub pid: u32,
    pub message: Seq<char>,
}

impl View for LogEntry {
    type V = LogEntryView;

    open spec fn view(&self) -> LogEntryView {
        LogEntryView {
            timestamp: self.timestamp@,
            hostname: self.hostname@,
            process_name: self.process_name@,
            pid: self.pid,
            message: self.message@,
        }
    }
}

} // verus!
