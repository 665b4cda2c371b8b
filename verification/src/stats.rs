//! The aggregator: it folds log records into frequency tables and derives
//! the ranked summary from them.

use vstd::prelude::*;
use crate::entry::{LogEntry, LogEntryView};
use crate::keywords::{
    is_keyword,
    is_lowercase_form,
    keywords,
    lemma_keywords_are_keywords,
    message_keywords,
};
use crate::rank::{is_most_frequent, is_top_keywords, most_frequent, top_keywords};
use crate::stopword::StopwordList;
use crate::table::{
    CountTable,
    bumped,
    bumped_all,
    count_of,
    counts_in_range,
    has_key,
    keys_distinct,
    lemma_bumped,
    lemma_bumped_all,
    lemma_count_absent_or_present,
    lemma_count_in_range,
    lemma_occurrences_contains,
    lemma_occurrences_of_prefix,
    occurrences,
    total_of,
};
use crate::text::texts_of;

verus! {

/// What an accumulator holds, as plain values.
pub struct BuilderView {
    pub total_entries: nat,
    pub by_process: Seq<(Seq<char>, nat)>,
    pub by_hostname: Seq<(Seq<char>, nat)>,
    pub keyword_count: Seq<(Seq<char>, nat)>,
    pub stopwords: Set<Seq<char>>,
}

impl BuilderView {
    /// Every record was counted once under its process and once under its
    /// host.
    pub open spec fn conserves_counts(self) -> bool {
        total_of(self.by_process) == self.total_entries && total_of(self.by_hostname)
            == self.total_entries
    }

    /// Every counted keyword passes the keyword test, so none is empty or
    /// a stopword, and is the lowercase form of a word.
    pub open spec fn counts_keywords_only(self) -> bool {
        forall|key: Seq<char>| #[trigger]
            has_key(self.keyword_count, key) ==> is_keyword(key, self.stopwords)
                && is_lowercase_form(key)
    }

    /// Well-formedness: in each table no key occurs twice and every count
    /// is a positive number of 32 bits; the counts are conserved; only
    /// keywords are counted; the number of records fits the machine word.
    pub open spec fn wf(self) -> bool {
        &&& keys_distinct(self.by_process)
        &&& keys_distinct(self.by_hostname)
        &&& keys_distinct(self.keyword_count)
        &&& counts_in_range(self.by_process)
        &&& counts_in_range(self.by_hostname)
        &&& counts_in_range(self.keyword_count)
        &&& self.conserves_counts()
        &&& self.counts_keywords_only()
        &&& self.total_entries <= usize::MAX
    }

    /// Whether one more record can be counted without a counter leaving
    /// its range: the number of records stays within the machine word,
    /// and the counts of the record's process, of its host and of each of
    /// its keywords stay within 32 bits.
    pub open spec fn has_room_for(self, entry: LogEntryView) -> bool {
        &&& self.total_entries < usize::MAX
        &&& count_of(self.by_process, entry.process_name) < u32::MAX
        &&& count_of(self.by_hostname, entry.hostname) < u32::MAX
        &&& forall|key: Seq<char>|
            count_of(self.keyword_count, key) + #[trigger] occurrences(
                keywords(entry.message, self.stopwords),
                key,
            ) <= u32::MAX
    }

    /// The state after `entry` was counted.
    pub open spec fn with_entry(self, entry: LogEntryView) -> BuilderView {
        BuilderView {
            total_entries: self.total_entries + 1,
            by_process: bumped(self.by_process, entry.process_name),
            by_hostname: bumped(self.by_hostname, entry.hostname),
            keyword_count: bumped_all(
                self.keyword_count,
                keywords(entry.message, self.stopwords),
            ),
            stopwords: self.stopwords,
        }
    }
}

/// Whether `after` is `before` with `entry` counted once: one record
/// more; one more under the process and one more under the host of the
/// record, every other process and host as before; each keyword count
/// raised by the number of times the keyword occurs among the keywords of
/// the message, so that no count is lower and no key is lost.
pub open spec fn counts_once(before: BuilderView, after: BuilderView, entry: LogEntryView) -> bool {
    &&& after.stopwords == before.stopwords
    &&& after.total_entries == before.total_entries + 1
    &&& count_of(after.by_process, entry.process_name) == count_of(
        before.by_process,
        entry.process_name,
    ) + 1
    &&& count_of(after.by_hostname, entry.hostname) == count_of(
        before.by_hostname,
        entry.hostname,
    ) + 1
    &&& forall|other: Seq<char>|
        other != entry.process_name ==> #[trigger] count_of(after.by_process, other) == count_of(
            before.by_process,
            other,
        )
    &&& forall|other: Seq<char>|
        other != entry.hostname ==> #[trigger] count_of(after.by_hostname, other) == count_of(
            before.by_hostname,
            other,
        )
    &&& forall|key: Seq<char>| #[trigger]
        count_of(after.keyword_count, key) == count_of(before.keyword_count, key) + occurrences(
            keywords(entry.message, before.stopwords),
            key,
        )
    &&& forall|key: Seq<char>|
        has_key(before.keyword_count, key) ==> #[trigger] has_key(after.keyword_count, key)
}

/// Counting a record on a well-formed state counts it once: under its
/// process, under its host and for each occurrence of a keyword, and
/// nowhere else. The counts stay conserved, no stopword and no empty text
/// gets a count, and with room for the record the state stays well formed.
pub proof fn lemma_with_entry(counted: BuilderView, entry: LogEntryView)
    requires
        counted.wf(),
    ensures
        counts_once(counted, counted.with_entry(entry), entry),
        counted.with_entry(entry).conserves_counts(),
        counted.with_entry(entry).counts_keywords_only(),
        forall|key: Seq<char>| #[trigger]
            has_key(counted.with_entry(entry).keyword_count, key) ==> key.len() > 0
                && !counted.stopwords.contains(key),
        counted.has_room_for(entry) ==> counted.with_entry(entry).wf(),
{
    let found = keywords(entry.message, counted.stopwords);
    let after = counted.with_entry(entry);
    lemma_bumped(counted.by_process, entry.process_name);
    lemma_bumped(counted.by_hostname, entry.hostname);
    lemma_bumped_all(counted.keyword_count, found);
    assert forall|key: Seq<char>| #[trigger] has_key(after.keyword_count, key) implies is_keyword(
        key,
        counted.stopwords,
    ) && is_lowercase_form(key) by {
        if !has_key(counted.keyword_count, key) {
            lemma_keywords_are_keywords(entry.message, counted.stopwords, key);
        }
    }
}

/// The summary of a run.
pub struct LogStats {
    pub total_entries: usize,
    pub by_process: CountTable,
    pub by_hostname: CountTable,
    pub most_frequent_process: String,
    pub most_frequent_hostname: String,
    pub top_keywords: Vec<String>,
}

impl LogStats {
    /// Well-formedness: the tables are well formed, each of them sums up
    /// to the number of records, and the most frequent process and host
    /// are those of the tables.
    pub open spec fn wf(&self) -> bool {
        &&& self.by_process.wf()
        &&& self.by_hostname.wf()
        &&& self.by_process.total() == self.total_entries
        &&& self.by_hostname.total() == self.total_entries
        &&& is_most_frequent(self.most_frequent_process@, self.by_process@)
        &&& is_most_frequent(self.most_frequent_hostname@, self.by_hostname@)
    }
}

/// Whether `stats` is the summary of what an accumulator holds: the same
/// number of records and the same tables, the most frequent process and
/// host of those tables, and the top keywords of the keyword counts, none
/// of which is a stopword.
pub open spec fn summarizes(stats: LogStats, counted: BuilderView) -> bool {
    &&& stats.wf()
    &&& stats.total_entries == counted.total_entries
    &&& stats.by_process@ == counted.by_process
    &&& stats.by_hostname@ == counted.by_hostname
    &&& is_top_keywords(texts_of(stats.top_keywords@), counted.keyword_count)
    &&& forall|i: int|
        0 <= i < stats.top_keywords@.len() ==> !counted.stopwords.contains(
            #[trigger] texts_of(stats.top_keywords@)[i],
        )
}

/// The accumulator of the statistics.
pub struct LogStatsBuilder {
    total_entries: usize,
    by_process: CountTable,
    by_hostname: CountTable,
    keyword_count: CountTable,
    stopwords: StopwordList,
}

impl View for LogStatsBuilder {
    type V = BuilderView;

    closed spec fn view(&self) -> BuilderView {
        BuilderView {
            total_entries: self.total_entries as nat,
            by_process: self.by_process@,
            by_hostname: self.by_hostname@,
            keyword_count: self.keyword_count@,
            stopwords: self.stopwords@,
        }
    }
}

/// How often `word` occurs in `found`.
fn count_in(found: &Vec<String>, word: &String) -> (n: usize)
    ensures
        n == occurrences(texts_of(found@), word@),
{
    let ghost all = texts_of(found@);
    let mut n: usize = 0;
    let mut i: usize = 0;
    assert(all.take(0) =~= Seq::<Seq<char>>::empty());
    while i < found.len()
        invariant
            i <= found.len(),
            all == texts_of(found@),
            n == occurrences(all.take(i as int), word@),
            n <= i,
        decreases found.len() - i,
    {
        proof {
            assert(all.take(i + 1).drop_last() =~= all.take(i as int));
            assert(all.take(i + 1).last() == found@[i as int]@);
        }
        if found[i] == *word {
            n = n + 1;
        }
        i = i + 1;
    }
    assert(all.take(found.len() as int) =~= all);
    n
}

impl LogStatsBuilder {
    /// The hash index of each table agrees with the table.
    pub closed spec fn tables_wf(&self) -> bool {
        &&& self.by_process.wf()
        &&& self.by_hostname.wf()
        &&& self.keyword_count.wf()
    }

    /// Well-formedness: that of what the accumulator holds, and the
    /// agreement of the tables with their indexes.
    pub open spec fn wf(&self) -> bool {
        self.tables_wf() && self@.wf()
    }

    /// An empty accumulator that leaves out the English stopwords of NLTK.
    pub fn new() -> (builder: Self)
        ensures
            builder.wf(),
            builder@ == (BuilderView {
                total_entries: 0,
                by_process: Seq::empty(),
                by_hostname: Seq::empty(),
                keyword_count: Seq::empty(),
                stopwords: StopwordList::NltkEnglish@,
            }),
    {
        Self::with_stopwords(StopwordList::NltkEnglish)
    }

    /// An empty accumulator that leaves out the given stopwords.
    pub fn with_stopwords(stopwords: StopwordList) -> (builder: Self)
        ensures
            builder.wf(),
            builder@ == (BuilderView {
                total_entries: 0,
                by_process: Seq::empty(),
                by_hostname: Seq::empty(),
                keyword_count: Seq::empty(),
                stopwords: stopwords@,
            }),
    {
        LogStatsBuilder {
            total_entries: 0,
            by_process: CountTable::new(),
            by_hostname: CountTable::new(),
            keyword_count: CountTable::new(),
            stopwords,
        }
    }

    /// The number of records counted so far.
    pub fn total_entries(&self) -> (n: usize)
        ensures
            n == self@.total_entries,
    {
        self.total_entries
    }

    /// How often `keyword` was counted so far, if it ever was.
    pub fn keyword_count(&self, keyword: &str) -> (count: Option<u32>)
        requires
            self.wf(),
        ensures
            count is Some <==> has_key(self@.keyword_count, keyword@),
            count is Some ==> count->0 == count_of(self@.keyword_count, keyword@),
    {
        self.keyword_count.get(keyword)
    }

    /// Counts the given keywords, one occurrence each.
    fn count_keywords(&mut self, found: &Vec<String>)
        requires
            old(self).tables_wf(),
            forall|key: Seq<char>|
                count_of(old(self)@.keyword_count, key) + #[trigger] occurrences(
                    texts_of(found@),
                    key,
                ) <= u32::MAX,
        ensures
            final(self).tables_wf(),
            final(self)@ == (BuilderView {
                keyword_count: bumped_all(old(self)@.keyword_count, texts_of(found@)),
                ..old(self)@
            }),
    {
        let ghost start = self@;
        let ghost all = texts_of(found@);
        let mut i: usize = 0;
        assert(all.take(0) =~= Seq::<Seq<char>>::empty());
        while i < found.len()
            invariant
                i <= found.len(),
                all == texts_of(found@),
                forall|key: Seq<char>|
                    count_of(start.keyword_count, key) + #[trigger] occurrences(all, key)
                        <= u32::MAX,
                keys_distinct(start.keyword_count),
                self.tables_wf(),
                self@ == (BuilderView {
                    keyword_count: bumped_all(start.keyword_count, all.take(i as int)),
                    ..start
                }),
            decreases found.len() - i,
        {
            let ghost counted = all.take(i as int);
            let ghost key = all[i as int];
            proof {
                lemma_bumped_all(start.keyword_count, counted);
                lemma_occurrences_of_prefix(all, i + 1, key);
                assert(all.take(i + 1).drop_last() =~= counted);
                assert(all.take(i + 1).last() == key);
                assert(count_of(start.keyword_count, key) + occurrences(all, key) <= u32::MAX);
            }
            self.keyword_count.increment(found[i].as_str());
            i = i + 1;
        }
        assert(all.take(found.len() as int) =~= all);
    }

    /// Whether the counts of the given keywords stay within 32 bits when
    /// each occurrence in `found` is counted.
    fn keywords_fit(&self, found: &Vec<String>) -> (fits: bool)
        requires
            self.wf(),
        ensures
            fits == (forall|key: Seq<char>|
                count_of(self@.keyword_count, key) + #[trigger] occurrences(texts_of(found@), key)
                    <= u32::MAX),
    {
        let ghost all = texts_of(found@);
        let ghost counts = self@.keyword_count;
        let mut i: usize = 0;
        while i < found.len()
            invariant
                self.wf(),
                i <= found.len(),
                all == texts_of(found@),
                counts == self@.keyword_count,
                forall|j: int|
                    0 <= j < i ==> count_of(counts, all[j]) + occurrences(all, #[trigger] all[j])
                        <= u32::MAX,
            decreases found.len() - i,
        {
            let counted: u32 = match self.keyword_count.get(found[i].as_str()) {
                Some(count) => count,
                None => 0,
            };
            proof {
                lemma_count_absent_or_present(counts, all[i as int]);
                lemma_occurrences_of_prefix(all, 0, all[i as int]);
            }
            // Only a count that is nearly full needs the exact number of
            // occurrences.
            if found.len() > (u32::MAX - counted) as usize {
                let more: usize = count_in(found, &found[i]);
                if more > (u32::MAX - counted) as usize {
                    return false;
                }
            }
            i = i + 1;
        }
        proof {
            assert forall|key: Seq<char>|
                count_of(counts, key) + #[trigger] occurrences(all, key) <= u32::MAX by {
                lemma_occurrences_contains(all, key);
                if all.contains(key) {
                    let j = choose|j: int| 0 <= j < all.len() && all[j] == key;
                    assert(count_of(counts, all[j]) + occurrences(all, all[j]) <= u32::MAX);
                } else {
                    lemma_count_in_range(counts, key);
                }
            }
        }
        true
    }

    /// Whether one more record with the given keywords can be counted.
    fn fits(&self, log_entry: &LogEntry, found: &Vec<String>) -> (fits: bool)
        requires
            self.wf(),
            texts_of(found@) == keywords(log_entry@.message, self@.stopwords),
        ensures
            fits == self@.has_room_for(log_entry@),
    {
        proof {
            lemma_count_absent_or_present(self@.by_process, log_entry@.process_name);
            lemma_count_absent_or_present(self@.by_hostname, log_entry@.hostname);
        }
        let by_process: u32 = match self.by_process.get(log_entry.process_name.as_str()) {
            Some(count) => count,
            None => 0,
        };
        let by_hostname: u32 = match self.by_hostname.get(log_entry.hostname.as_str()) {
            Some(count) => count,
            None => 0,
        };
        self.total_entries < usize::MAX && by_process < u32::MAX && by_hostname < u32::MAX
            && self.keywords_fit(found)
    }

    /// Whether one more record can be counted: see `has_room_for` of the
    /// view.
    pub fn has_room_for(&self, log_entry: &LogEntry) -> (fits: bool)
        requires
            self.wf(),
        ensures
            fits == self@.has_room_for(log_entry@),
    {
        let found = message_keywords(log_entry.message.as_str(), &self.stopwords);
        self.fits(log_entry, &found)
    }

    /// Counts a record whose keywords are `found`.
    fn count_entry(&mut self, log_entry: LogEntry, found: &Vec<String>)
        requires
            old(self).wf(),
            old(self)@.has_room_for(log_entry@),
            texts_of(found@) == keywords(log_entry@.message, old(self)@.stopwords),
        ensures
            final(self).wf(),
            final(self)@ == old(self)@.with_entry(log_entry@),
            counts_once(old(self)@, final(self)@, log_entry@),
    {
        proof {
            lemma_with_entry(self@, log_entry@);
        }
        self.total_entries = self.total_entries + 1;
        self.by_process.increment(log_entry.process_name.as_str());
        self.by_hostname.increment(log_entry.hostname.as_str());
        self.count_keywords(found);
    }

    /// Counts one record: one more for its process, one more for its host,
    /// and one more for each occurrence of a keyword in its message. No
    /// other count changes, and no stopword gets a count.
    pub fn add_log_entry(&mut self, log_entry: LogEntry)
        requires
            old(self).wf(),
            old(self)@.has_room_for(log_entry@),
        ensures
            final(self).wf(),
            final(self)@ == old(self)@.with_entry(log_entry@),
            counts_once(old(self)@, final(self)@, log_entry@),
    {
        let found = message_keywords(log_entry.message.as_str(), &self.stopwords);
        self.count_entry(log_entry, &found);
    }

    /// Counts one record if there is room for it, and says whether it did.
    /// Without room the accumulator stays as it was.
    pub fn try_add_log_entry(&mut self, log_entry: LogEntry) -> (added: bool)
        requires
            old(self).wf(),
        ensures
            final(self).wf(),
            added == old(self)@.has_room_for(log_entry@),
            added ==> final(self)@ == old(self)@.with_entry(log_entry@) && counts_once(
                old(self)@,
                final(self)@,
                log_entry@,
            ),
            !added ==> final(self)@ == old(self)@,
    {
        let found = message_keywords(log_entry.message.as_str(), &self.stopwords);
        if self.fits(&log_entry, &found) {
            self.count_entry(log_entry, &found);
            true
        } else {
            false
        }
    }

    /// Ends the accumulation and derives the summary: the most frequent
    /// process and host, and the top keywords.
    pub fn build(self) -> (stats: LogStats)
        requires
            self.wf(),
        ensures
            summarizes(stats, self@),
    {
        let most_frequent_process = most_frequent(&self.by_process);
        let most_frequent_hostname = most_frequent(&self.by_hostname);
        let top_keywords = top_keywords(&self.keyword_count);
        LogStats {
            total_entries: self.total_entries,
            by_process: self.by_process,
            by_hostname: self.by_hostname,
            most_frequent_process,
            most_frequent_hostname,
            top_keywords,
        }
    }
}

} // verus!
