//! Syslog analysis: a byte-level parser for fixed-field syslog lines and a
//! single-pass aggregator that folds the parsed records into frequency
//! tables and ranked summaries.

pub mod analysis;
pub mod entry;
pub mod keywords;
pub mod parser;
pub mod rank;
pub mod scan;
pub mod stats;
pub mod stopword;
pub mod table;
pub mod text;

pub use crate::analysis::{AnalysisError, parse, parse_with};
pub use crate::entry::LogEntry;
pub use crate::parser::{LogEntriesParser, ParseError, parse_entries, parse_log_entry};
pub use crate::stats::{LogStats, LogStatsBuilder};
pub use crate::stopword::StopwordList;
pub use crate::table::CountTable;
