use log_analyzer::scan::{scan, ByteClass};
use log_analyzer::{
    parse, parse_entries, parse_log_entry, parse_with, AnalysisError, LogEntriesParser, LogEntry,
    ParseError, StopwordList,
};

const LINE: &[u8] =
    b"Jul 1 09:00:55 calvisitor-10-105-160-95 kernel[43]: Alfa Bravo Charlie Delta Echo";

#[test]
fn parses_one_line() {
    let (rest, entry) = parse_log_entry(LINE).unwrap();
    assert!(rest.is_empty());
    assert_eq!(
        entry,
        LogEntry {
            timestamp: "Jul 1 09:00:55".into(),
            hostname: "calvisitor-10-105-160-95".into(),
            process_name: "kernel".into(),
            pid: 43,
            message: "Alfa Bravo Charlie Delta Echo".into(),
        }
    );
}

#[test]
fn timestamp_is_rejoined_with_single_spaces() {
    let (_, entry) = parse_log_entry(b"Jul  \t 1   09:00:55   host  proc[7]:    msg\n").unwrap();
    assert_eq!(entry.timestamp, "Jul 1 09:00:55");
    assert_eq!(entry.hostname, "host");
    assert_eq!(entry.process_name, "proc");
    assert_eq!(entry.pid, 7);
    assert_eq!(entry.message, "msg");
}

#[test]
fn rest_begins_behind_the_terminators() {
    let (rest, entry) =
        parse_log_entry(b"Jul 1 09:00:55 h p[1]: one\n\0\n\nJul 2 10:00:00 h q[2]: two").unwrap();
    assert_eq!(entry.message, "one");
    assert_eq!(rest, b"Jul 2 10:00:00 h q[2]: two");
}

#[test]
fn process_name_reaches_up_to_the_bracket() {
    let (_, entry) = parse_log_entry(b"Jul 1 09:00:55 host com.apple.x y[12]: m").unwrap();
    assert_eq!(entry.process_name, "com.apple.x y");
    assert_eq!(entry.pid, 12);
}

#[test]
fn message_may_be_empty_and_keeps_inner_text() {
    let (rest, entry) = parse_log_entry(b"Jul 1 09:00:55 h p[1]:\0").unwrap();
    assert_eq!(entry.message, "");
    assert!(rest.is_empty());
    let (_, entry) = parse_log_entry(b"Jul 1 09:00:55 h p[1]: a [b]: c  \n").unwrap();
    assert_eq!(entry.message, "a [b]: c  ");
    let (_, entry) = parse_log_entry("Jul 1 09:00:55 h p[1]: caf\u{e9} \u{1f600}".as_bytes()).unwrap();
    assert_eq!(entry.message, "caf\u{e9} \u{1f600}");
}

#[test]
fn pid_limits() {
    let (_, entry) = parse_log_entry(b"Jul 1 09:00:55 h p[4294967295]: m").unwrap();
    assert_eq!(entry.pid, 4294967295);
    let (_, entry) = parse_log_entry(b"Jul 1 09:00:55 h p[0000000000042]: m").unwrap();
    assert_eq!(entry.pid, 42);
    assert_eq!(
        parse_log_entry(b"Jul 1 09:00:55 h p[4294967296]: m").unwrap_err(),
        ParseError::InvalidNumber
    );
    assert_eq!(
        parse_log_entry(b"Jul 1 09:00:55 h p[99999999999999999999999]: m").unwrap_err(),
        ParseError::InvalidNumber
    );
    assert_eq!(
        parse_log_entry(b"Jul 1 09:00:55 h p[]: m").unwrap_err(),
        ParseError::InvalidNumber
    );
}

#[test]
fn day_needs_a_digit() {
    assert_eq!(
        parse_log_entry(b"Jul :00:55 h p[1]: m").unwrap_err(),
        ParseError::InvalidNumber
    );
    assert_eq!(
        parse_log_entry(b"Jul host p[1]: m").unwrap_err(),
        ParseError::InvalidNumber
    );
    let (_, entry) = parse_log_entry(b"Jul 09:00:55 h p[1]: m").unwrap();
    assert_eq!(entry.timestamp, "Jul 09 :00:55");
}

#[test]
fn missing_delimiters_are_malformed() {
    assert_eq!(
        parse_log_entry(b"Jul 1 09:00:55 host kernel: no pid here\n").unwrap_err(),
        ParseError::MalformedRecord
    );
    assert_eq!(
        parse_log_entry(b"Jul 1 09:00:55 host kernel[43: m\n").unwrap_err(),
        ParseError::MalformedRecord
    );
    assert_eq!(
        parse_log_entry(b"Jul 1 09:00:55 host kernel[43] m\n").unwrap_err(),
        ParseError::MalformedRecord
    );
    assert_eq!(
        parse_log_entry(b"Jul 1 09:00:55 host kernel[43]").unwrap_err(),
        ParseError::MalformedRecord
    );
    assert_eq!(
        parse_log_entry(b"Jul 1 09:00:55 host kernel[43").unwrap_err(),
        ParseError::MalformedRecord
    );
    assert_eq!(
        parse_log_entry(
            b"Jul 1 09:00:55 host kernel: no bracket\nJul 1 09:00:56 host sshd[5]: ok"
        )
        .unwrap_err(),
        ParseError::MalformedRecord
    );
    assert_eq!(
        parse_log_entry(b"Jul 1 09:00:55 host kernel\0[5]: ok").unwrap_err(),
        ParseError::MalformedRecord
    );
    assert_eq!(parse_log_entry(b"   ").unwrap_err(), ParseError::MalformedRecord);
    assert_eq!(parse_log_entry(b"").unwrap_err(), ParseError::MalformedRecord);
}

#[test]
fn bytes_that_are_no_text_are_rejected() {
    assert_eq!(
        parse_log_entry(b"Jul 1 09:00:55 h p[1]: bad \xff byte").unwrap_err(),
        ParseError::InvalidText
    );
    assert_eq!(
        parse_log_entry(b"Jul 1 09:00:55 h\xc3 p[1]: m").unwrap_err(),
        ParseError::InvalidText
    );
    assert_eq!(
        parse_log_entry(b"J\xe9l 1 09:00:55 h p[1]: m").unwrap_err(),
        ParseError::InvalidText
    );
    // A missing delimiter is reported before bad text, bad text before a
    // bad number.
    assert_eq!(
        parse_log_entry(b"Jul 1 09:00:55 h p[1] \xff").unwrap_err(),
        ParseError::MalformedRecord
    );
    assert_eq!(
        parse_log_entry(b"Jul 1 09:00:55 h p[]: \xff").unwrap_err(),
        ParseError::InvalidText
    );
}

#[test]
fn cursor_hands_out_records_in_order() {
    let data = b"Jul 1 09:00:55 h p[1]: one\nJul 2 10:00:00 h q[2]: two\0\0";
    let mut parser = LogEntriesParser::new(data);
    assert_eq!(parser.next_entry().unwrap().unwrap().message, "one");
    let second = parser.next_entry().unwrap().unwrap();
    assert_eq!(second.timestamp, "Jul 2 10:00:00");
    assert_eq!(second.process_name, "q");
    assert_eq!(second.pid, 2);
    assert!(parser.next_entry().is_none());
    assert!(parser.next_entry().is_none());
}

#[test]
fn cursor_stays_at_a_bad_record() {
    let data = b"Jul 1 09:00:55 h p[1]: one\nbroken line\n";
    let mut parser = LogEntriesParser::new(data);
    assert!(parser.next_entry().unwrap().is_ok());
    assert_eq!(parser.next_entry(), Some(Err(ParseError::MalformedRecord)));
    assert_eq!(parser.next_entry(), Some(Err(ParseError::MalformedRecord)));
}

#[test]
fn parsing_twice_gives_the_same_records() {
    let data = b"Jul 1 09:00:55 h p[1]: one\n\nJul 2 10:00:00 g q[2]: two\nJul 3 11:00:00 h p[3]: three\n";
    let first = parse_entries(data).unwrap();
    let second = parse_entries(data).unwrap();
    assert_eq!(first.len(), 3);
    assert_eq!(first, second);
    assert_eq!(first[1].hostname, "g");
    assert_eq!(first[2].message, "three");
    assert_eq!(parse_entries(b""), Ok(Vec::new()));
    assert_eq!(
        parse_entries(b"Jul 1 09:00:55 h p[1]: one\nrubbish"),
        Err(ParseError::MalformedRecord)
    );
}

#[test]
fn scan_finds_the_end_of_a_run() {
    assert_eq!(scan(b"abc 12", 0, ByteClass::Alphabetic), 3);
    assert_eq!(scan(b"abc 12", 3, ByteClass::Alphabetic), 3);
    assert_eq!(scan(b"abc \t\n12", 3, ByteClass::Space), 6);
    assert_eq!(scan(b"abc 12", 4, ByteClass::Digit), 6);
    assert_eq!(scan(b"12:30:59x", 0, ByteClass::TimeChar), 8);
    assert_eq!(scan(b"host-1 x", 0, ByteClass::NonSpace), 6);
    assert_eq!(scan(b"a b[1]", 0, ByteClass::ProcessName), 3);
    assert_eq!(scan(b"a b\nc[1]", 0, ByteClass::ProcessName), 3);
    assert_eq!(scan(b"a\0b[1]", 0, ByteClass::ProcessName), 1);
    assert_eq!(scan(b"ab\0\n\n\0cd", 2, ByteClass::Terminator), 6);
    assert_eq!(scan(b"ab\ncd", 0, ByteClass::NotTerminator), 2);
    assert_eq!(scan(b"ab", 2, ByteClass::Digit), 2);
    assert_eq!(scan(b"\xe9\xaa x", 0, ByteClass::Alphabetic), 2);
    assert_eq!(scan(b"\xa0\x85x", 0, ByteClass::Space), 2);
}

#[test]
fn whole_run_on_one_line() {
    let stats = parse(LINE).unwrap();
    assert_eq!(stats.total_entries, 1);
    assert_eq!(stats.by_process.len(), 1);
    assert_eq!(stats.by_process.get("kernel"), Some(1));
    assert_eq!(stats.by_hostname.len(), 1);
    assert_eq!(stats.by_hostname.get("calvisitor-10-105-160-95"), Some(1));
    assert_eq!(stats.most_frequent_process, "kernel");
    assert_eq!(stats.most_frequent_hostname, "calvisitor-10-105-160-95");
    assert_eq!(
        stats.top_keywords,
        vec!["alfa", "bravo", "charlie", "delta", "echo"]
    );
}

#[test]
fn whole_run_on_several_lines() {
    let data = b"Jul 1 09:00:55 hostname_1 process_1[1]: Alfa Charlie\n\
Jul 1 09:00:56 hostname_1 process_2[1]: Bravo Delta\0\
Jul 1 09:00:57 hostname_2 process_2[9]: the Delta of 42\n";
    let stats = parse(data).unwrap();
    assert_eq!(stats.total_entries, 3);
    assert_eq!(stats.by_process.get("process_1"), Some(1));
    assert_eq!(stats.by_process.get("process_2"), Some(2));
    assert_eq!(stats.by_hostname.get("hostname_1"), Some(2));
    assert_eq!(stats.by_hostname.get("hostname_2"), Some(1));
    assert_eq!(stats.most_frequent_process, "process_2");
    assert_eq!(stats.most_frequent_hostname, "hostname_1");
    assert_eq!(stats.top_keywords, vec!["delta", "alfa", "bravo", "charlie"]);
}

#[test]
fn whole_run_fails_on_a_bad_record() {
    let data = b"Jul 1 09:00:55 h p[1]: one\nJul 1 09:00:55 h p[x]: two\n";
    assert_eq!(
        parse(data).err(),
        Some(AnalysisError::Parse(ParseError::MalformedRecord))
    );
    assert_eq!(
        parse(b"Jul 1 09:00:55 h p[1]: \xff\n").err(),
        Some(AnalysisError::Parse(ParseError::InvalidText))
    );
    assert_eq!(
        parse(b"Jul 1 09:00:55 h p[]: m\n").err(),
        Some(AnalysisError::Parse(ParseError::InvalidNumber))
    );
}

#[test]
fn a_line_without_bracket_is_not_joined_to_the_next() {
    let data = b"Jul 1 09:00:55 host kernel: no bracket\nJul 1 09:00:56 host sshd[5]: ok\n";
    assert_eq!(parse_entries(data), Err(ParseError::MalformedRecord));
    assert_eq!(
        parse(data).err(),
        Some(AnalysisError::Parse(ParseError::MalformedRecord))
    );
}

#[test]
fn whole_run_counts_every_record_once() {
    let mut data: Vec<u8> = Vec::new();
    for i in 0..50 {
        data.extend_from_slice(
            format!("Jul 1 09:00:{:02} host{} proc{}[{}]: event number {}", i, i % 3, i % 7, i, i)
                .as_bytes(),
        );
        data.extend_from_slice(if i % 2 == 0 { b"\n" } else { b"\0\n\n" });
    }
    let stats = parse(&data).unwrap();
    assert_eq!(stats.total_entries, 50);
    assert_eq!(parse_entries(&data).unwrap().len(), 50);
    let by_process: u32 = (0..stats.by_process.len()).map(|i| stats.by_process.count_at(i)).sum();
    let by_hostname: u32 =
        (0..stats.by_hostname.len()).map(|i| stats.by_hostname.count_at(i)).sum();
    assert_eq!(by_process, 50);
    assert_eq!(by_hostname, 50);
    assert_eq!(stats.by_process.len(), 7);
    assert_eq!(stats.by_hostname.len(), 3);
    assert_eq!(stats.top_keywords, vec!["event", "number"]);
}

#[test]
fn whole_run_on_nothing() {
    let stats = parse(b"").unwrap();
    assert_eq!(stats.total_entries, 0);
    assert_eq!(stats.most_frequent_process, "");
    assert!(stats.top_keywords.is_empty());
}

#[test]
fn whole_run_with_own_stopwords() {
    let stopwords = StopwordList::Custom(vec!["alfa".to_string()]);
    let stats = parse_with(b"Jul 1 09:00:55 h p[1]: Alfa the Bravo", stopwords).unwrap();
    assert_eq!(stats.top_keywords, vec!["bravo", "the"]);
}
