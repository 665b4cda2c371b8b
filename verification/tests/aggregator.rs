use log_analyzer::keywords::{counts_as_keyword, message_keywords, message_words};
use log_analyzer::rank::{most_frequent, ranking, top_keywords};
use log_analyzer::{CountTable, LogEntry, LogStatsBuilder, StopwordList};

fn entry(hostname: &str, process_name: &str, pid: u32, message: &str) -> LogEntry {
    LogEntry {
        timestamp: "Jul 1 09:00:55".into(),
        hostname: hostname.into(),
        process_name: process_name.into(),
        pid,
        message: message.into(),
    }
}

fn table_of(keys: &[(&str, u32)]) -> CountTable {
    let mut table = CountTable::new();
    for (key, count) in keys {
        for _ in 0..*count {
            table.increment(key);
        }
    }
    table
}

#[test]
fn handle_one_log_entry() {
    let mut stats = LogStatsBuilder::new();
    stats.add_log_entry(LogEntry {
        timestamp: "Jul 1 09:00:55".into(),
        hostname: "calvisitor-10-105-160-95".into(),
        process_name: "kernel".into(),
        pid: 43,
        message: "Alfa Bravo Charlie Delta Echo".into(),
    });
    let stats = stats.build();

    assert_eq!(stats.total_entries, 1);
    assert_eq!(stats.by_process.get("kernel"), Some(1));
    assert_eq!(stats.by_hostname.get("calvisitor-10-105-160-95"), Some(1));
    assert_eq!(stats.most_frequent_process, "kernel");
    assert_eq!(stats.most_frequent_hostname, "calvisitor-10-105-160-95");
    assert_eq!(
        stats.top_keywords,
        vec!["alfa", "bravo", "charlie", "delta", "echo"]
    );

    let mut stats = LogStatsBuilder::new();
    stats.add_log_entry(LogEntry {
        timestamp: "Jul 1 09:00:55".into(),
        hostname: "home".into(),
        process_name: "netbiosd".into(),
        pid: 43,
        message: "Alfa Bravo Charlie Alfa Bravo".into(),
    });
    let stats = stats.build();

    assert_eq!(stats.total_entries, 1);
    assert_eq!(stats.by_process.get("netbiosd"), Some(1));
    assert_eq!(stats.by_hostname.get("home"), Some(1));
    assert_eq!(stats.most_frequent_process, "netbiosd");
    assert_eq!(stats.most_frequent_hostname, "home");
    // Fewer than eleven distinct keywords: all of them are listed, the
    // more frequent ones first.
    assert_eq!(stats.top_keywords, vec!["alfa", "bravo", "charlie"]);
}

#[test]
fn handle_two_entries() {
    let mut stats = LogStatsBuilder::new();
    stats.add_log_entry(LogEntry {
        timestamp: "Jul 1 09:00:55".into(),
        hostname: "hostname_1".into(),
        process_name: "process_1".into(),
        pid: 1,
        message: "Alfa Charlie".into(),
    });
    stats.add_log_entry(LogEntry {
        timestamp: "Jul 1 09:00:55".into(),
        hostname: "hostname_1".into(),
        process_name: "process_1".into(),
        pid: 1,
        message: "Alfa Bravo".into(),
    });
    let stats = stats.build();

    assert_eq!(stats.total_entries, 2);
    assert_eq!(stats.by_process.get("process_1"), Some(2));
    assert_eq!(stats.by_hostname.get("hostname_1"), Some(2));
    assert_eq!(stats.most_frequent_process, "process_1");
    assert_eq!(stats.most_frequent_hostname, "hostname_1");
    // Fewer than eleven distinct keywords: all of them are listed, the
    // more frequent ones first.
    assert_eq!(stats.top_keywords, vec!["alfa", "bravo", "charlie"]);

    let mut stats = LogStatsBuilder::new();
    stats.add_log_entry(LogEntry {
        timestamp: "Jul 1 09:00:55".into(),
        hostname: "hostname_1".into(),
        process_name: "process_1".into(),
        pid: 1,
        message: "Alfa Charlie".into(),
    });
    stats.add_log_entry(LogEntry {
        timestamp: "Jul 1 09:00:55".into(),
        hostname: "hostname_1".into(),
        process_name: "process_2".into(),
        pid: 1,
        message: "Bravo Delta".into(),
    });
    let stats = stats.build();

    assert_eq!(stats.total_entries, 2);
    assert_eq!(stats.by_process.get("process_1"), Some(1));
    assert_eq!(stats.by_process.get("process_2"), Some(1));
    assert_eq!(stats.by_hostname.get("hostname_1"), Some(2));
    assert_eq!(stats.most_frequent_process, "process_1");
    assert_eq!(stats.most_frequent_hostname, "hostname_1");
    assert_eq!(
        stats.top_keywords,
        vec!["alfa", "bravo", "charlie", "delta"]
    );
}

#[test]
fn empty_builder_gives_empty_summary() {
    let stats = LogStatsBuilder::new().build();
    assert_eq!(stats.total_entries, 0);
    assert_eq!(stats.by_process.len(), 0);
    assert_eq!(stats.by_hostname.len(), 0);
    assert_eq!(stats.most_frequent_process, "");
    assert_eq!(stats.most_frequent_hostname, "");
    assert!(stats.top_keywords.is_empty());
}

#[test]
fn counts_are_conserved() {
    let mut builder = LogStatsBuilder::new();
    let entries = [
        ("alpha", "sshd"),
        ("alpha", "kernel"),
        ("beta", "sshd"),
        ("gamma", "cron"),
        ("alpha", "sshd"),
    ];
    for (host, process) in entries {
        builder.add_log_entry(entry(host, process, 7, "session opened"));
    }
    assert_eq!(builder.total_entries(), 5);
    let stats = builder.build();
    let by_process: u32 = (0..stats.by_process.len()).map(|i| stats.by_process.count_at(i)).sum();
    let by_hostname: u32 = (0..stats.by_hostname.len()).map(|i| stats.by_hostname.count_at(i)).sum();
    assert_eq!(stats.total_entries, 5);
    assert_eq!(by_process, 5);
    assert_eq!(by_hostname, 5);
    assert_eq!(stats.by_process.get("sshd"), Some(3));
    assert_eq!(stats.by_hostname.get("alpha"), Some(3));
    assert_eq!(stats.most_frequent_process, "sshd");
    assert_eq!(stats.most_frequent_hostname, "alpha");
}

#[test]
fn most_frequent_tie_goes_to_the_smaller_key() {
    let table = table_of(&[("zeta", 2), ("beta", 2), ("alpha", 1), ("gamma", 2)]);
    assert_eq!(most_frequent(&table), "beta");
    let table = table_of(&[("b", 1), ("a", 1), ("ab", 1)]);
    assert_eq!(most_frequent(&table), "a");
}

#[test]
fn table_keeps_first_seen_order_and_counts() {
    let mut table = CountTable::new();
    assert_eq!(table.len(), 0);
    assert_eq!(table.get("x"), None);
    table.increment("x");
    table.increment("y");
    table.increment("x");
    assert_eq!(table.len(), 2);
    assert_eq!(table.key_at(0), "x");
    assert_eq!(table.count_at(0), 2);
    assert_eq!(table.key_at(1), "y");
    assert_eq!(table.count_at(1), 1);
    assert_eq!(table.get("x"), Some(2));
    assert_eq!(table.get("y"), Some(1));
    assert_eq!(table.get("z"), None);
}

#[test]
fn ranking_orders_by_count_then_key() {
    let table = table_of(&[("delta", 1), ("alpha", 3), ("charlie", 1), ("bravo", 3), ("b", 1)]);
    let order = ranking(&table);
    let keys: Vec<&str> = order.iter().map(|&i| table.key_at(i).as_str()).collect();
    assert_eq!(keys, vec!["alpha", "bravo", "b", "charlie", "delta"]);
}

#[test]
fn ranking_compares_texts_and_not_lengths() {
    let table = table_of(&[("ab", 1), ("b", 1), ("a", 1), ("B", 1), ("\u{e9}", 1)]);
    assert_eq!(top_keywords(&table), vec!["B", "a", "ab", "b", "\u{e9}"]);
}

#[test]
fn top_keywords_keep_the_tie_at_the_cutoff() {
    // Three keywords with count 5, nine with count 4 and one with count 3:
    // the eleventh place ties with the twelfth, so twelve are listed.
    let table = table_of(&[
        ("m", 3),
        ("l", 4),
        ("k", 4),
        ("j", 4),
        ("i", 4),
        ("h", 4),
        ("g", 4),
        ("f", 4),
        ("e", 4),
        ("d", 4),
        ("c", 5),
        ("b", 5),
        ("a", 5),
    ]);
    assert_eq!(
        top_keywords(&table),
        vec!["a", "b", "c", "d", "e", "f", "g", "h", "i", "j", "k", "l"]
    );
}

#[test]
fn top_keywords_stop_after_eleven_without_a_tie() {
    let table = table_of(&[
        ("a", 13),
        ("b", 12),
        ("c", 11),
        ("d", 10),
        ("e", 9),
        ("f", 8),
        ("g", 7),
        ("h", 6),
        ("i", 5),
        ("j", 4),
        ("k", 3),
        ("l", 2),
        ("m", 1),
    ]);
    assert_eq!(
        top_keywords(&table),
        vec!["a", "b", "c", "d", "e", "f", "g", "h", "i", "j", "k"]
    );
    let eleven = table_of(&[
        ("k", 1), ("j", 1), ("i", 1), ("h", 1), ("g", 1), ("f", 1),
        ("e", 1), ("d", 1), ("c", 1), ("b", 1), ("a", 1),
    ]);
    assert_eq!(top_keywords(&eleven).len(), 11);
    let all_tied = table_of(&[
        ("n", 2), ("m", 2), ("l", 2), ("k", 2), ("j", 2), ("i", 2), ("h", 2),
        ("g", 2), ("f", 2), ("e", 2), ("d", 2), ("c", 2), ("b", 2), ("a", 2),
    ]);
    assert_eq!(top_keywords(&all_tied).len(), 14);
}

#[test]
fn top_keywords_through_the_builder_with_tie() {
    let mut builder = LogStatsBuilder::new();
    let words = [
        ("alfa", 5), ("bravo", 5), ("charlie", 5), ("delta", 4), ("echo", 4),
        ("foxtrot", 4), ("golf", 4), ("hotel", 4), ("india", 4), ("juliett", 4),
        ("kilo", 4), ("lima", 4), ("mike", 3),
    ];
    for round in 0..5 {
        let message: Vec<&str> =
            words.iter().filter(|(_, count)| round < *count).map(|(word, _)| *word).collect();
        builder.add_log_entry(entry("host", "proc", 1, &message.join(" ")));
    }
    assert_eq!(builder.keyword_count("alfa"), Some(5));
    assert_eq!(builder.keyword_count("lima"), Some(4));
    assert_eq!(builder.keyword_count("mike"), Some(3));
    let stats = builder.build();
    assert_eq!(
        stats.top_keywords,
        vec![
            "alfa", "bravo", "charlie", "delta", "echo", "foxtrot", "golf", "hotel", "india",
            "juliett", "kilo", "lima"
        ]
    );
}

#[test]
fn words_are_runs_of_letters() {
    assert_eq!(message_words("Alfa Bravo"), vec!["Alfa", "Bravo"]);
    assert_eq!(message_words("  x1y--z9 "), vec!["x", "y", "z"]);
    assert_eq!(message_words("caf\u{e9}_na\u{ef}ve"), vec!["caf\u{e9}", "na\u{ef}ve"]);
    assert!(message_words("").is_empty());
    assert!(message_words("123 :: 456").is_empty());
    assert_eq!(message_words("end"), vec!["end"]);
}

#[test]
fn keywords_are_lowercased_and_leave_out_stopwords() {
    let english = StopwordList::NltkEnglish;
    assert_eq!(
        message_keywords("The quick brown Fox AND the lazy dog", &english),
        vec!["quick", "brown", "fox", "lazy", "dog"]
    );
    assert_eq!(message_keywords("it's ok, don't panic", &english), vec!["ok", "panic"]);
    assert_eq!(message_keywords("\u{c9}COLE \u{c9}cole", &english), vec!["\u{e9}cole", "\u{e9}cole"]);
    let custom = StopwordList::Custom(vec!["quick".to_string(), "dog".to_string()]);
    assert_eq!(
        message_keywords("The quick brown Dog", &custom),
        vec!["the", "brown"]
    );
}

#[test]
fn keyword_test_rejects_empty_blank_and_stopwords() {
    let english = StopwordList::NltkEnglish;
    assert!(counts_as_keyword(&"kernel".to_string(), &english));
    assert!(!counts_as_keyword(&"".to_string(), &english));
    assert!(!counts_as_keyword(&"  ".to_string(), &english));
    assert!(!counts_as_keyword(&"\t\u{a0}".to_string(), &english));
    assert!(!counts_as_keyword(&"the".to_string(), &english));
    assert!(counts_as_keyword(&" x ".to_string(), &english));
}

#[test]
fn stopword_lists_hold_their_words() {
    let english = StopwordList::NltkEnglish;
    assert!(english.contains(&"the".to_string()));
    assert!(english.contains(&"i".to_string()));
    assert!(english.contains(&"wouldn't".to_string()));
    assert!(!english.contains(&"The".to_string()));
    assert!(!english.contains(&"kernel".to_string()));
    assert!(!english.contains(&"".to_string()));
    let custom = StopwordList::Custom(vec!["foo".to_string(), "bar".to_string()]);
    assert!(custom.contains(&"bar".to_string()));
    assert!(!custom.contains(&"the".to_string()));
    assert!(!StopwordList::Custom(Vec::new()).contains(&"foo".to_string()));
}

#[test]
fn no_stopword_is_counted_or_listed() {
    let mut builder = LogStatsBuilder::new();
    builder.add_log_entry(entry("h", "p", 1, "THE The the and AND error Error"));
    assert_eq!(builder.keyword_count("the"), None);
    assert_eq!(builder.keyword_count("The"), None);
    assert_eq!(builder.keyword_count("THE"), None);
    assert_eq!(builder.keyword_count("and"), None);
    assert_eq!(builder.keyword_count("error"), Some(2));
    assert_eq!(builder.keyword_count("Error"), None);
    let stats = builder.build();
    assert_eq!(stats.top_keywords, vec!["error"]);
}

#[test]
fn more_occurrences_never_lower_a_count_nor_unlist_the_leader() {
    let mut builder = LogStatsBuilder::new();
    builder.add_log_entry(entry("h", "p", 1, "disk disk full"));
    assert_eq!(builder.keyword_count("disk"), Some(2));
    assert_eq!(builder.keyword_count("full"), Some(1));
    builder.add_log_entry(entry("h", "p", 1, "disk"));
    assert_eq!(builder.keyword_count("disk"), Some(3));
    assert_eq!(builder.keyword_count("full"), Some(1));
    builder.add_log_entry(entry("h", "p", 1, "a b c d e f g h i j k l m n o p q r s t u v w x y z disk"));
    assert_eq!(builder.keyword_count("disk"), Some(4));
    let stats = builder.build();
    assert_eq!(stats.top_keywords[0], "disk");
}

#[test]
fn try_add_counts_like_add() {
    let mut builder = LogStatsBuilder::with_stopwords(StopwordList::Custom(Vec::new()));
    assert!(builder.has_room_for(&entry("h", "p", 1, "the end")));
    assert!(builder.try_add_log_entry(entry("h", "p", 1, "the end")));
    assert_eq!(builder.total_entries(), 1);
    assert_eq!(builder.keyword_count("the"), Some(1));
    assert_eq!(builder.keyword_count("end"), Some(1));
}

#[test]
fn messages_without_words_leave_the_keywords_alone() {
    let mut builder = LogStatsBuilder::new();
    builder.add_log_entry(entry("h", "p", 1, "disk full"));
    assert!(builder.has_room_for(&entry("h", "p", 1, "")));
    builder.add_log_entry(entry("h", "p", 1, ""));
    builder.add_log_entry(entry("h", "q", 1, "12:30 -> 42% [#]"));
    builder.add_log_entry(entry("g", "q", 1, "the and of"));
    assert_eq!(builder.total_entries(), 4);
    assert_eq!(builder.keyword_count("disk"), Some(1));
    assert_eq!(builder.keyword_count("full"), Some(1));
    assert_eq!(builder.keyword_count(""), None);
    let stats = builder.build();
    assert_eq!(stats.by_process.get("p"), Some(2));
    assert_eq!(stats.by_process.get("q"), Some(2));
    assert_eq!(stats.by_hostname.get("h"), Some(3));
    assert_eq!(stats.by_hostname.get("g"), Some(1));
    assert_eq!(stats.top_keywords, vec!["disk", "full"]);
}

#[test]
fn one_record_raises_one_count_in_each_table() {
    let mut builder = LogStatsBuilder::new();
    builder.add_log_entry(entry("h", "p", 1, "alfa alfa bravo"));
    builder.add_log_entry(entry("g", "q", 1, "bravo"));
    builder.add_log_entry(entry("h", "q", 1, "Alfa ALFA charlie alfa"));
    assert_eq!(builder.total_entries(), 3);
    assert_eq!(builder.keyword_count("alfa"), Some(5));
    assert_eq!(builder.keyword_count("bravo"), Some(2));
    assert_eq!(builder.keyword_count("charlie"), Some(1));
    let stats = builder.build();
    assert_eq!(stats.by_process.get("p"), Some(1));
    assert_eq!(stats.by_process.get("q"), Some(2));
    assert_eq!(stats.by_hostname.get("h"), Some(2));
    assert_eq!(stats.by_hostname.get("g"), Some(1));
}
