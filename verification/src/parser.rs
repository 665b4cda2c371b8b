//! The parser: it cuts a byte buffer into log records, one line's worth of
//! fields at a time.

use vstd::prelude::*;
use vstd::slice::slice_subrange;
use vstd::string::*;
use vstd::utf8::*;
use crate::entry::{LogEntry, LogEntryView};
use crate::scan::{ByteClass, lemma_run_end_bounds, lemma_run_is_of_class, run_end, scan};
use crate::text::decode_text;

verus! {

/// Why a record could not be parsed.
#[derive(Clone, Copy, Debug, PartialEq, Eq, Structural)]
pub enum ParseError {
    /// One of the delimiters `[`, `]` and `:` is missing where it is due.
    MalformedRecord,
    /// The bytes of a field are not well-formed UTF-8.
    InvalidText,
    /// The day or the pid has no digit, or the pid exceeds 32 bits.
    InvalidNumber,
}

/// Where the fields of the record at the start of a buffer lie. Each field
/// reaches from its start up to, and not including, its end.
pub struct Layout {
    pub month_end: int,
    pub day_start: int,
    pub day_end: int,
    pub time_start: int,
    pub time_end: int,
    pub host_start: int,
    pub host_end: int,
    pub process_start: int,
    pub process_end: int,
    pub pid_start: int,
    pub pid_end: int,
    pub message_start: int,
    pub message_end: int,
    pub next: int,
}

/// The layout of the record at the start of `bytes`: month, day, time and
/// host are runs of their classes with whitespace between them; the
/// process name reaches up to the first `[` of its line, the pid is the
/// run of digits behind it and is followed by `]` and `:`; the message
/// begins after the
/// whitespace that follows and reaches up to the first terminator; the
/// next record begins behind the run of terminators.
pub open spec fn layout(bytes: Seq<u8>) -> Layout {
    let month_end = run_end(bytes, 0, ByteClass::Alphabetic);
    let day_start = run_end(bytes, month_end, ByteClass::Space);
    let day_end = run_end(bytes, day_start, ByteClass::Digit);
    let time_start = run_end(bytes, day_end, ByteClass::Space);
    let time_end = run_end(bytes, time_start, ByteClass::TimeChar);
    let host_start = run_end(bytes, time_end, ByteClass::Space);
    let host_end = run_end(bytes, host_start, ByteClass::NonSpace);
    let process_start = run_end(bytes, host_end, ByteClass::Space);
    let process_end = run_end(bytes, process_start, ByteClass::ProcessName);
    let pid_start = process_end + 1;
    let pid_end = run_end(bytes, pid_start, ByteClass::Digit);
    let message_start = run_end(bytes, pid_end + 2, ByteClass::Space);
    let message_end = run_end(bytes, message_start, ByteClass::NotTerminator);
    let next = run_end(bytes, message_end, ByteClass::Terminator);
    Layout {
        month_end,
        day_start,
        day_end,
        time_start,
        time_end,
        host_start,
        host_end,
        process_start,
        process_end,
        pid_start,
        pid_end,
        message_start,
        message_end,
        next,
    }
}

/// Whether the three delimiters stand where the layout expects them: the
/// process name ends at a `[`, not at the end of its line or of the
/// bytes, and the pid is followed by `]` and `:`.
pub open spec fn delimiters_present(bytes: Seq<u8>) -> bool {
    let at = layout(bytes);
    &&& at.process_end < bytes.len()
    &&& bytes[at.process_end] == 0x5B
    &&& at.pid_end + 1 < bytes.len()
    &&& bytes[at.pid_end] == 0x5D
    &&& bytes[at.pid_end + 1] == 0x3A
}

/// Whether every field of the record is well-formed UTF-8.
pub open spec fn fields_are_text(bytes: Seq<u8>) -> bool {
    let at = layout(bytes);
    &&& valid_utf8(bytes.subrange(0, at.month_end))
    &&& valid_utf8(bytes.subrange(at.day_start, at.day_end))
    &&& valid_utf8(bytes.subrange(at.time_start, at.time_end))
    &&& valid_utf8(bytes.subrange(at.host_start, at.host_end))
    &&& valid_utf8(bytes.subrange(at.process_start, at.process_end))
    &&& valid_utf8(bytes.subrange(at.pid_start, at.pid_end))
    &&& valid_utf8(bytes.subrange(at.message_start, at.message_end))
}

/// The number that a run of decimal digits denotes.
pub open spec fn decimal_value(digits: Seq<u8>) -> nat
    decreases digits.len(),
{
    if digits.len() == 0 {
        0
    } else {
        decimal_value(digits.drop_last()) * 10 + (digits.last() - 0x30) as nat
    }
}

/// Whether the day has a digit and the pid is a number of 32 bits.
pub open spec fn numbers_are_valid(bytes: Seq<u8>) -> bool {
    let at = layout(bytes);
    &&& at.day_start < at.day_end
    &&& at.pid_start < at.pid_end
    &&& decimal_value(bytes.subrange(at.pid_start, at.pid_end)) <= u32::MAX
}

/// The record that the fields of the layout spell.
pub open spec fn record_of(bytes: Seq<u8>) -> LogEntryView {
    let at = layout(bytes);
    LogEntryView {
        timestamp: decode_utf8(bytes.subrange(0, at.month_end)) + seq![' '] + decode_utf8(
            bytes.subrange(at.day_start, at.day_end),
        ) + seq![' '] + decode_utf8(bytes.subrange(at.time_start, at.time_end)),
        hostname: decode_utf8(bytes.subrange(at.host_start, at.host_end)),
        process_name: decode_utf8(bytes.subrange(at.process_start, at.process_end)),
        pid: decimal_value(bytes.subrange(at.pid_start, at.pid_end)) as u32,
        message: decode_utf8(bytes.subrange(at.message_start, at.message_end)),
    }
}

/// The result of parsing the record at the start of `bytes`: the record
/// and the number of bytes that it takes up, or the first of the three
/// errors that applies.
pub open spec fn parse_record(bytes: Seq<u8>) -> Result<(LogEntryView, int), ParseError> {
    if !delimiters_present(bytes) {
        Err(ParseError::MalformedRecord)
    } else if !fields_are_text(bytes) {
        Err(ParseError::InvalidText)
    } else if !numbers_are_valid(bytes) {
        Err(ParseError::InvalidNumber)
    } else {
        Ok((record_of(bytes), layout(bytes).next))
    }
}

/// The fields of a layout follow each other within the bytes, as far as
/// the delimiters are present.
pub proof fn lemma_layout_ordered(bytes: Seq<u8>)
    ensures
        ({
            let at = layout(bytes);
            &&& 0 <= at.month_end <= at.day_start <= at.day_end <= at.time_start <= at.time_end
                <= at.host_start <= at.host_end <= at.process_start <= at.process_end
                <= bytes.len()
            &&& at.process_end < bytes.len() ==> at.pid_start <= at.pid_end <= bytes.len()
            &&& delimiters_present(bytes) ==> at.pid_end + 2 <= at.message_start
                <= at.message_end <= at.next <= bytes.len()
        }),
{
    let at = layout(bytes);
    lemma_run_end_bounds(bytes, 0, ByteClass::Alphabetic);
    lemma_run_end_bounds(bytes, at.month_end, ByteClass::Space);
    lemma_run_end_bounds(bytes, at.day_start, ByteClass::Digit);
    lemma_run_end_bounds(bytes, at.day_end, ByteClass::Space);
    lemma_run_end_bounds(bytes, at.time_start, ByteClass::TimeChar);
    lemma_run_end_bounds(bytes, at.time_end, ByteClass::Space);
    lemma_run_end_bounds(bytes, at.host_start, ByteClass::NonSpace);
    lemma_run_end_bounds(bytes, at.host_end, ByteClass::Space);
    lemma_run_end_bounds(bytes, at.process_start, ByteClass::ProcessName);
    lemma_run_end_bounds(bytes, at.pid_start, ByteClass::Digit);
    lemma_run_end_bounds(bytes, at.pid_end + 2, ByteClass::Space);
    lemma_run_end_bounds(bytes, at.message_start, ByteClass::NotTerminator);
    lemma_run_end_bounds(bytes, at.message_end, ByteClass::Terminator);
}

/// The process name of a record lies within one line: up to the `[` at
/// which it ends it holds no `[`, no null byte and no line feed. So a line
/// without `[` behind its host is never joined to the line that follows.
pub proof fn lemma_process_name_within_line(bytes: Seq<u8>)
    requires
        parse_record(bytes) is Ok,
    ensures
        bytes[layout(bytes).process_end] == 0x5B,
        forall|i: int|
            layout(bytes).process_start <= i < layout(bytes).process_end ==> {
                &&& #[trigger] bytes[i] != 0x5B
                &&& bytes[i] != 0x00
                &&& bytes[i] != 0x0A
            },
{
    let at = layout(bytes);
    lemma_layout_ordered(bytes);
    assert forall|i: int| at.process_start <= i < at.process_end implies {
        &&& #[trigger] bytes[i] != 0x5B
        &&& bytes[i] != 0x00
        &&& bytes[i] != 0x0A
    } by {
        lemma_run_is_of_class(bytes, at.process_start, ByteClass::ProcessName, i);
    }
}

/// The records of a whole buffer, in their order, or the error of the
/// first record that cannot be parsed. An empty buffer holds no record.
pub open spec fn parse_all(bytes: Seq<u8>) -> Result<Seq<LogEntryView>, ParseError>
    decreases bytes.len(),
    via parse_all_decreases
{
    if bytes.len() == 0 {
        Ok(Seq::empty())
    } else {
        match parse_record(bytes) {
            Err(error) => Err(error),
            Ok((entry, next)) => match parse_all(bytes.skip(next)) {
                Err(error) => Err(error),
                Ok(rest) => Ok(seq![entry] + rest),
            },
        }
    }
}

#[via_fn]
proof fn parse_all_decreases(bytes: Seq<u8>) {
    lemma_layout_ordered(bytes);
}

/// A record takes up at least one byte and no more than there are.
pub proof fn lemma_record_consumes(bytes: Seq<u8>)
    requires
        parse_record(bytes) is Ok,
    ensures
        0 < parse_record(bytes)->Ok_0.1 <= bytes.len(),
{
    lemma_layout_ordered(bytes);
}

/// A longer run of digits denotes no smaller number.
proof fn lemma_decimal_value_grows(digits: Seq<u8>, shorter: int)
    requires
        0 <= shorter <= digits.len(),
        forall|i: int| 0 <= i < digits.len() ==> 0x30 <= #[trigger] digits[i] <= 0x39,
    ensures
        decimal_value(digits.take(shorter)) <= decimal_value(digits),
    decreases digits.len(),
{
    if shorter < digits.len() {
        assert(digits.drop_last().take(shorter) =~= digits.take(shorter));
        lemma_decimal_value_grows(digits.drop_last(), shorter);
    } else {
        assert(digits.take(shorter) =~= digits);
    }
}

/// The number that the digits from `from` up to `to` denote, if it fits
/// in 32 bits.
fn parse_decimal(data: &[u8], from: usize, to: usize) -> (value: Option<u32>)
    requires
        from <= to <= data@.len(),
        forall|i: int| from <= i < to ==> 0x30 <= #[trigger] data@[i] <= 0x39,
    ensures
        value is Some <==> decimal_value(data@.subrange(from as int, to as int)) <= u32::MAX,
        value is Some ==> value->0 == decimal_value(data@.subrange(from as int, to as int)),
{
    let ghost digits = data@.subrange(from as int, to as int);
    let mut value: u32 = 0;
    let mut i: usize = from;
    assert(digits.take(0) =~= Seq::<u8>::empty());
    while i < to
        invariant
            from <= i <= to <= data@.len(),
            digits == data@.subrange(from as int, to as int),
            forall|j: int| from <= j < to ==> 0x30 <= #[trigger] data@[j] <= 0x39,
            forall|j: int| 0 <= j < digits.len() ==> 0x30 <= #[trigger] digits[j] <= 0x39,
            value == decimal_value(digits.take(i - from)),
        decreases to - i,
    {
        let digit: u8 = data[i] - 0x30;
        let ghost longer = digits.take(i - from + 1);
        proof {
            assert(digits[i - from] == data@[i as int]);
            assert(longer.drop_last() =~= digits.take(i - from));
            assert(longer.last() == data@[i as int]);
            lemma_decimal_value_grows(digits, i - from + 1);
        }
        let wide: u64 = value as u64 * 10 + digit as u64;
        if wide > u32::MAX as u64 {
            return None;
        }
        value = wide as u32;
        i = i + 1;
    }
    assert(digits.take(to - from) =~= digits);
    Some(value)
}

/// The text that the bytes from `from` up to `to` encode, if they are
/// well-formed UTF-8.
fn field_text(data: &[u8], from: usize, to: usize) -> (text: Option<String>)
    requires
        from <= to <= data@.len(),
    ensures
        text is Some <==> valid_utf8(data@.subrange(from as int, to as int)),
        text is Some ==> text->0@ == decode_utf8(data@.subrange(from as int, to as int)),
{
    broadcast use encode_utf8_decode_utf8;

    match decode_text(slice_subrange(data, from, to)) {
        Some(text) => Some(text.to_owned()),
        None => None,
    }
}

/// Parses the record at the start of `input` and hands back the rest of
/// the input with it.
pub fn parse_log_entry(input: &[u8]) -> (parsed: Result<(&[u8], LogEntry), ParseError>)
    ensures
        match parsed {
            Ok((rest, entry)) => parse_record(input@) == Ok::<(LogEntryView, int), ParseError>(
                (entry@, layout(input@).next),
            ) && rest@ == input@.skip(layout(input@).next),
            Err(error) => parse_record(input@) == Err::<(LogEntryView, int), ParseError>(error),
        },
{
    proof {
        lemma_layout_ordered(input@);
    }
    let n: usize = input.len();
    let month_end: usize = scan(input, 0, ByteClass::Alphabetic);
    let day_start: usize = scan(input, month_end, ByteClass::Space);
    let day_end: usize = scan(input, day_start, ByteClass::Digit);
    let time_start: usize = scan(input, day_end, ByteClass::Space);
    let time_end: usize = scan(input, time_start, ByteClass::TimeChar);
    let host_start: usize = scan(input, time_end, ByteClass::Space);
    let host_end: usize = scan(input, host_start, ByteClass::NonSpace);
    let process_start: usize = scan(input, host_end, ByteClass::Space);
    let process_end: usize = scan(input, process_start, ByteClass::ProcessName);
    if process_end >= n || input[process_end] != 0x5B {
        return Err(ParseError::MalformedRecord);
    }
    let pid_start: usize = process_end + 1;
    let pid_end: usize = scan(input, pid_start, ByteClass::Digit);
    if n - pid_end < 2 || input[pid_end] != 0x5D || input[pid_end + 1] != 0x3A {
        return Err(ParseError::MalformedRecord);
    }
    let message_start: usize = scan(input, pid_end + 2, ByteClass::Space);
    let message_end: usize = scan(input, message_start, ByteClass::NotTerminator);
    let next: usize = scan(input, message_end, ByteClass::Terminator);

    let month = match field_text(input, 0, month_end) {
        Some(text) => text,
        None => { return Err(ParseError::InvalidText); },
    };
    let day = match field_text(input, day_start, day_end) {
        Some(text) => text,
        None => { return Err(ParseError::InvalidText); },
    };
    let time = match field_text(input, time_start, time_end) {
        Some(text) => text,
        None => { return Err(ParseError::InvalidText); },
    };
    let hostname = match field_text(input, host_start, host_end) {
        Some(text) => text,
        None => { return Err(ParseError::InvalidText); },
    };
    let process_name = match field_text(input, process_start, process_end) {
        Some(text) => text,
        None => { return Err(ParseError::InvalidText); },
    };
    if field_text(input, pid_start, pid_end).is_none() {
        return Err(ParseError::InvalidText);
    }
    let message = match field_text(input, message_start, message_end) {
        Some(text) => text,
        None => { return Err(ParseError::InvalidText); },
    };

    if day_start == day_end || pid_start == pid_end {
        return Err(ParseError::InvalidNumber);
    }
    let pid = match parse_decimal(input, pid_start, pid_end) {
        Some(value) => value,
        None => { return Err(ParseError::InvalidNumber); },
    };

    let mut timestamp = month;
    proof {
        reveal_strlit(" ");
        assert(" "@ =~= seq![' ']);
    }
    timestamp.append(" ");
    timestamp.append(day.as_str());
    timestamp.append(" ");
    timestamp.append(time.as_str());
    let entry = LogEntry { timestamp, hostname, process_name, pid, message };
    let rest = slice_subrange(input, next, n);
    assert(rest@ =~= input@.skip(next as int));
    Ok((rest, entry))
}

/// A cursor into a byte buffer that hands out one record at a time.
pub struct LogEntriesParser<'a> {
    data: &'a [u8],
}

impl<'a> View for LogEntriesParser<'a> {
    type V = Seq<u8>;

    /// The bytes that are still to be parsed.
    closed spec fn view(&self) -> Seq<u8> {
        self.data@
    }
}

impl<'a> LogEntriesParser<'a> {
    /// A parser at the start of `data`.
    pub fn new(data: &'a [u8]) -> (parser: Self)
        ensures
            parser@ == data@,
    {
        Self { data }
    }

    /// The next record, `None` at the end of the buffer. After an error
    /// the parser stays where it was.
    pub fn next_entry(&mut self) -> (next: Option<Result<LogEntry, ParseError>>)
        ensures
            old(self)@.len() == 0 ==> next is None && final(self)@ == old(self)@,
            old(self)@.len() > 0 ==> match parse_record(old(self)@) {
                Ok((entry, taken)) => next matches Some(Ok(found)) && found@ == entry
                    && final(self)@ == old(self)@.skip(taken),
                Err(error) => next == Some(Err::<LogEntry, ParseError>(error)) && final(self)@
                    == old(self)@,
            },
    {
        if self.data.len() == 0 {
            return None;
        }
        match parse_log_entry(self.data) {
            Ok((rest, entry)) => {
                self.data = rest;
                Some(Ok(entry))
            },
            Err(error) => Some(Err(error)),
        }
    }
}

/// The records that a sequence of entries holds.
pub open spec fn records_of(entries: Seq<LogEntry>) -> Seq<LogEntryView> {
    Seq::new(entries.len(), |i: int| entries[i]@)
}

/// Whether `parsed` is what parsing `bytes` gives: its records, or the
/// error of the first record that cannot be parsed.
pub open spec fn is_parse_of(parsed: Result<Vec<LogEntry>, ParseError>, bytes: Seq<u8>) -> bool {
    match parsed {
        Ok(entries) => parse_all(bytes) == Ok::<Seq<LogEntryView>, ParseError>(
            records_of(entries@),
        ),
        Err(error) => parse_all(bytes) == Err::<Seq<LogEntryView>, ParseError>(error),
    }
}

/// Parsing the same bytes twice from the start gives the same records
/// twice, or the same error.
pub proof fn lemma_parse_is_repeatable(
    bytes: Seq<u8>,
    first: Result<Vec<LogEntry>, ParseError>,
    second: Result<Vec<LogEntry>, ParseError>,
)
    requires
        is_parse_of(first, bytes),
        is_parse_of(second, bytes),
    ensures
        match (first, second) {
            (Ok(a), Ok(b)) => records_of(a@) == records_of(b@),
            (Err(a), Err(b)) => a == b,
            _ => false,
        },
{
}

/// Parses a whole buffer into its records.
pub fn parse_entries(data: &[u8]) -> (parsed: Result<Vec<LogEntry>, ParseError>)
    ensures
        is_parse_of(parsed, data@),
{
    let mut parser = LogEntriesParser::new(data);
    let mut entries: Vec<LogEntry> = Vec::new();
    loop
        invariant
            parsed_so_far(data@, records_of(entries@), parser@),
        decreases parser@.len(),
    {
        let ghost before = parser@;
        let ghost found = records_of(entries@);
        match parser.next_entry() {
            None => {
                return Ok(entries);
            },
            Some(Err(error)) => {
                return Err(error);
            },
            Some(Ok(entry)) => {
                proof {
                    lemma_record_consumes(before);
                    match parse_all(parser@) {
                        Ok(more) => {
                            assert(found + (seq![entry@] + more) =~= found.push(entry@) + more);
                        },
                        Err(_) => {},
                    }
                }
                entries.push(entry);
                assert(records_of(entries@) =~= found.push(entries@[entries@.len() - 1]@));
            },
        }
    }
}

/// With `found` parsed and `rest` still to parse, the whole buffer parses
/// to `found` followed by the records of `rest`, and fails as `rest` does.
pub open spec fn parsed_so_far(bytes: Seq<u8>, found: Seq<LogEntryView>, rest: Seq<u8>) -> bool {
    parse_all(bytes) == match parse_all(rest) {
        Ok(more) => Ok::<Seq<LogEntryView>, ParseError>(found + more),
        Err(error) => Err(error),
    }
}

} // verus!
