//! The whole run: parse a buffer record by record and fold the records
//! into the statistics.

use vstd::prelude::*;
use crate::entry::LogEntryView;
use crate::parser::{
    LogEntriesParser,
    ParseError,
    lemma_record_consumes,
    parse_all,
    parse_record,
};
use crate::stats::{BuilderView, LogStats, LogStatsBuilder, lemma_with_entry, summarizes};
use crate::stopword::StopwordList;
use crate::table::total_of;

verus! {

/// Why a run ended without a summary.
#[derive(Clone, Copy, Debug, PartialEq, Eq, Structural)]
pub enum AnalysisError {
    /// A record could not be parsed.
    Parse(ParseError),
    /// A counter is full: counting the next record would take the number
    /// of records out of the machine word, or the count of its process,
    /// of its host or of one of its keywords out of 32 bits.
    CapacityExceeded,
}

/// What the accumulator holds after the records of `bytes` were counted on
/// top of `counted`, one after the other; the error of the first record
/// that cannot be parsed or for which there is no room.
pub open spec fn analysis(counted: BuilderView, bytes: Seq<u8>) -> Result<
    BuilderView,
    AnalysisError,
>
    decreases bytes.len(),
    via analysis_decreases
{
    if bytes.len() == 0 {
        Ok(counted)
    } else {
        match parse_record(bytes) {
            Err(error) => Err(AnalysisError::Parse(error)),
            Ok((entry, next)) => if counted.has_room_for(entry) {
                analysis(counted.with_entry(entry), bytes.skip(next))
            } else {
                Err(AnalysisError::CapacityExceeded)
            },
        }
    }
}

#[via_fn]
proof fn analysis_decreases(counted: BuilderView, bytes: Seq<u8>) {
    if parse_record(bytes) is Ok {
        lemma_record_consumes(bytes);
    }
}

/// The accumulator before any record was counted.
pub open spec fn nothing_counted(stopwords: Set<Seq<char>>) -> BuilderView {
    BuilderView {
        total_entries: 0,
        by_process: Seq::empty(),
        by_hostname: Seq::empty(),
        keyword_count: Seq::empty(),
        stopwords,
    }
}

/// Whether `summary` is what a run over `bytes` gives with the given
/// stopwords: the summary of the state after all records were counted, or
/// the error that ended the run. A summary counts every record of the
/// buffer once, and a parse error is that of the buffer.
pub open spec fn is_analysis_of(
    summary: Result<LogStats, AnalysisError>,
    stopwords: Set<Seq<char>>,
    bytes: Seq<u8>,
) -> bool {
    match summary {
        Ok(stats) => {
            &&& analysis(nothing_counted(stopwords), bytes) is Ok
            &&& summarizes(stats, analysis(nothing_counted(stopwords), bytes)->Ok_0)
            &&& parse_all(bytes) is Ok
            &&& stats.total_entries == parse_all(bytes)->Ok_0.len()
        },
        Err(error) => {
            &&& analysis(nothing_counted(stopwords), bytes) == Err::<BuilderView, AnalysisError>(
                error,
            )
            &&& error matches AnalysisError::Parse(cause) ==> parse_all(bytes) == Err::<
                Seq<LogEntryView>,
                ParseError,
            >(cause)
        },
    }
}

/// A run counts every record once: the state it ends in is well formed
/// and holds as many records more as the buffer has, so that the counts
/// by process and by host each sum up to that number. A run ends in a
/// parse error only where the buffer has a record that cannot be parsed;
/// on a buffer of well-formed records it ends in a summary or with a
/// full counter.
pub proof fn lemma_analysis_counts_every_record(counted: BuilderView, bytes: Seq<u8>)
    requires
        counted.wf(),
    ensures
        match analysis(counted, bytes) {
            Ok(after) => {
                &&& after.wf()
                &&& after.stopwords == counted.stopwords
                &&& parse_all(bytes) is Ok
                &&& after.total_entries == counted.total_entries + parse_all(bytes)->Ok_0.len()
                &&& total_of(after.by_process) == after.total_entries
                &&& total_of(after.by_hostname) == after.total_entries
            },
            Err(AnalysisError::Parse(cause)) => parse_all(bytes) == Err::<
                Seq<LogEntryView>,
                ParseError,
            >(cause),
            Err(AnalysisError::CapacityExceeded) => true,
        },
    decreases bytes.len(),
{
    if bytes.len() > 0 {
        match parse_record(bytes) {
            Err(_) => {},
            Ok((entry, next)) => {
                lemma_record_consumes(bytes);
                if counted.has_room_for(entry) {
                    lemma_with_entry(counted, entry);
                    lemma_analysis_counts_every_record(counted.with_entry(entry), bytes.skip(next));
                }
            },
        }
    }
}

/// Parses `data` and summarizes its records, leaving out the given
/// stopwords from the keywords. No summary comes out of a buffer with a
/// record that cannot be parsed or counted.
pub fn parse_with(data: &[u8], stopwords: StopwordList) -> (summary: Result<
    LogStats,
    AnalysisError,
>)
    ensures
        is_analysis_of(summary, stopwords@, data@),
{
    let ghost start = nothing_counted(stopwords@);
    let mut parser = LogEntriesParser::new(data);
    let mut builder = LogStatsBuilder::with_stopwords(stopwords);
    proof {
        lemma_analysis_counts_every_record(start, data@);
    }
    loop
        invariant
            builder.wf(),
            start == nothing_counted(stopwords@),
            analysis(start, data@) == analysis(builder@, parser@),
            match analysis(start, data@) {
                Ok(after) => parse_all(data@) is Ok && after.total_entries == parse_all(
                    data@,
                )->Ok_0.len(),
                Err(AnalysisError::Parse(cause)) => parse_all(data@) == Err::<
                    Seq<LogEntryView>,
                    ParseError,
                >(cause),
                Err(AnalysisError::CapacityExceeded) => true,
            },
        decreases parser@.len(),
    {
        let ghost before = parser@;
        match parser.next_entry() {
            None => {
                return Ok(builder.build());
            },
            Some(Err(error)) => {
                return Err(AnalysisError::Parse(error));
            },
            Some(Ok(entry)) => {
                proof {
                    lemma_record_consumes(before);
                }
                if !builder.try_add_log_entry(entry) {
                    return Err(AnalysisError::CapacityExceeded);
                }
            },
        }
    }
}

/// Parses `data` and summarizes its records, leaving out the English
/// stopwords of NLTK from the keywords.
pub fn parse(data: &[u8]) -> (summary: Result<LogStats, AnalysisError>)
    ensures
        is_analysis_of(summary, StopwordList::NltkEnglish@, data@),
{
    parse_with(data, StopwordList::NltkEnglish)
}

} // verus!
