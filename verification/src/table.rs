//! Frequency tables: how often each text was counted, in the order in
//! which the texts were first seen.

use vstd::prelude::*;
use vstd::hash_map::StringHashMap;

verus! {

/// Whether `key` is one of the keys of `entries`.
pub open spec fn has_key(entries: Seq<(Seq<char>, nat)>, key: Seq<char>) -> bool {
    exists|i: int| 0 <= i < entries.len() && (#[trigger] entries[i]).0 == key
}

/// No key occurs twice.
pub open spec fn keys_distinct(entries: Seq<(Seq<char>, nat)>) -> bool {
    forall|i: int, j: int|
        0 <= i < j < entries.len() ==> (#[trigger] entries[i]).0 != (#[trigger] entries[j]).0
}

/// Every count is at least one and fits in 32 bits.
pub open spec fn counts_in_range(entries: Seq<(Seq<char>, nat)>) -> bool {
    forall|i: int| 0 <= i < entries.len() ==> 1 <= (#[trigger] entries[i]).1 <= u32::MAX
}

/// The count recorded for `key`, zero where the key is absent.
pub open spec fn count_of(entries: Seq<(Seq<char>, nat)>, key: Seq<char>) -> nat
    decreases entries.len(),
{
    if entries.len() == 0 {
        0
    } else if entries.last().0 == key {
        entries.last().1
    } else {
        count_of(entries.drop_last(), key)
    }
}

/// The sum of all counts.
pub open spec fn total_of(entries: Seq<(Seq<char>, nat)>) -> nat
    decreases entries.len(),
{
    if entries.len() == 0 {
        0
    } else {
        total_of(entries.drop_last()) + entries.last().1
    }
}

/// The position of `key` among the entries that hold it.
pub open spec fn position_of(entries: Seq<(Seq<char>, nat)>, key: Seq<char>) -> int {
    choose|i: int| 0 <= i < entries.len() && (#[trigger] entries[i]).0 == key
}

/// The entries after one more occurrence of `key` was counted: its count
/// grows by one where it is present, and a new key is appended with count
/// one.
pub open spec fn bumped(entries: Seq<(Seq<char>, nat)>, key: Seq<char>) -> Seq<(Seq<char>, nat)> {
    if has_key(entries, key) {
        let i = position_of(entries, key);
        entries.update(i, (key, entries[i].1 + 1))
    } else {
        entries.push((key, 1))
    }
}

/// A present key is found at one position only, and its count stands there.
pub proof fn lemma_count_at(entries: Seq<(Seq<char>, nat)>, i: int)
    requires
        keys_distinct(entries),
        0 <= i < entries.len(),
    ensures
        count_of(entries, entries[i].0) == entries[i].1,
        position_of(entries, entries[i].0) == i,
        has_key(entries, entries[i].0),
    decreases entries.len(),
{
    let key = entries[i].0;
    if i < entries.len() - 1 {
        let rest = entries.drop_last();
        assert(rest[i] == entries[i]);
        assert(entries.last() == entries[entries.len() - 1]);
        lemma_count_at(rest, i);
    }
    let p = position_of(entries, key);
    assert(entries[p].0 == key);
}

/// An absent key counts zero.
pub proof fn lemma_count_absent(entries: Seq<(Seq<char>, nat)>, key: Seq<char>)
    requires
        !has_key(entries, key),
    ensures
        count_of(entries, key) == 0,
    decreases entries.len(),
{
    if entries.len() > 0 {
        let rest = entries.drop_last();
        assert(entries.last() == entries[entries.len() - 1]);
        assert forall|i: int| 0 <= i < rest.len() implies (#[trigger] rest[i]).0 != key by {
            assert(rest[i] == entries[i]);
        }
        lemma_count_absent(rest, key);
    }
}

/// The count of a key is that of its entry, and zero where it has none.
pub proof fn lemma_count_absent_or_present(entries: Seq<(Seq<char>, nat)>, key: Seq<char>)
    requires
        keys_distinct(entries),
        counts_in_range(entries),
    ensures
        has_key(entries, key) ==> 1 <= count_of(entries, key) <= u32::MAX,
        !has_key(entries, key) ==> count_of(entries, key) == 0,
{
    if has_key(entries, key) {
        lemma_count_at(entries, position_of(entries, key));
    } else {
        lemma_count_absent(entries, key);
    }
}

/// Replacing one count changes the sum by the difference.
pub proof fn lemma_total_update(entries: Seq<(Seq<char>, nat)>, i: int, count: nat)
    requires
        0 <= i < entries.len(),
    ensures
        total_of(entries.update(i, (entries[i].0, count))) + entries[i].1 == total_of(entries)
            + count,
    decreases entries.len(),
{
    let updated = entries.update(i, (entries[i].0, count));
    if i == entries.len() - 1 {
        assert(updated.drop_last() =~= entries.drop_last());
    } else {
        assert(updated.drop_last() =~= entries.drop_last().update(i, (entries[i].0, count)));
        lemma_total_update(entries.drop_last(), i, count);
    }
}

/// Counting one more occurrence of a key adds one to its count and to the
/// sum, leaves every other count as it was, and keeps the keys distinct.
pub proof fn lemma_bumped(entries: Seq<(Seq<char>, nat)>, key: Seq<char>)
    requires
        keys_distinct(entries),
    ensures
        keys_distinct(bumped(entries, key)),
        total_of(bumped(entries, key)) == total_of(entries) + 1,
        count_of(bumped(entries, key), key) == count_of(entries, key) + 1,
        forall|other: Seq<char>|
            other != key ==> count_of(bumped(entries, key), other) == #[trigger] count_of(
                entries,
                other,
            ),
        forall|other: Seq<char>|
            #[trigger] has_key(bumped(entries, key), other) <==> (other == key || has_key(
                entries,
                other,
            )),
        counts_in_range(entries) && count_of(entries, key) < u32::MAX ==> counts_in_range(
            bumped(entries, key),
        ),
{
    let after = bumped(entries, key);
    if has_key(entries, key) {
        let i = position_of(entries, key);
        lemma_count_at(entries, i);
        lemma_total_update(entries, i, entries[i].1 + 1);
        assert(after.len() == entries.len());
        assert forall|a: int, b: int| 0 <= a < b < after.len() implies (#[trigger] after[a]).0 != (
        #[trigger] after[b]).0 by {
            assert(after[a].0 == entries[a].0);
            assert(after[b].0 == entries[b].0);
        }
        lemma_count_at(after, i);
        assert forall|other: Seq<char>| other != key implies count_of(after, other)
            == #[trigger] count_of(entries, other) by {
            lemma_count_same_keys(entries, after, other, i);
        }
        assert forall|other: Seq<char>| #[trigger]
            has_key(after, other) <==> (other == key || has_key(entries, other)) by {
            if has_key(after, other) {
                let p = position_of(after, other);
                assert(after[p].0 == entries[p].0);
            }
            if has_key(entries, other) {
                let p = position_of(entries, other);
                assert(after[p].0 == entries[p].0);
            }
            if other == key {
                assert(after[i].0 == key);
            }
        }
        if counts_in_range(entries) && count_of(entries, key) < u32::MAX {
            assert forall|a: int| 0 <= a < after.len() implies 1 <= (#[trigger] after[a]).1
                <= u32::MAX by {
                if a != i {
                    assert(after[a] == entries[a]);
                }
            }
        }
    } else {
        lemma_count_absent(entries, key);
        assert(after.drop_last() =~= entries);
        assert(after.last() == (key, 1nat));
        assert forall|a: int, b: int| 0 <= a < b < after.len() implies (#[trigger] after[a]).0 != (
        #[trigger] after[b]).0 by {
            if b == entries.len() {
                assert(after[a] == entries[a]);
            } else {
                assert(after[a] == entries[a]);
                assert(after[b] == entries[b]);
            }
        }
        assert forall|other: Seq<char>| #[trigger]
            has_key(after, other) <==> (other == key || has_key(entries, other)) by {
            if has_key(after, other) {
                let p = position_of(after, other);
                if p < entries.len() {
                    assert(after[p] == entries[p]);
                }
            }
            if has_key(entries, other) {
                let p = position_of(entries, other);
                assert(after[p] == entries[p]);
            }
            if other == key {
                assert(after[entries.len() as int].0 == key);
            }
        }
        if counts_in_range(entries) {
            assert forall|a: int| 0 <= a < after.len() implies 1 <= (#[trigger] after[a]).1
                <= u32::MAX by {
                if a < entries.len() {
                    assert(after[a] == entries[a]);
                }
            }
        }
    }
}

/// The entries after each of `keys` was counted once, in their order.
pub open spec fn bumped_all(
    entries: Seq<(Seq<char>, nat)>,
    keys: Seq<Seq<char>>,
) -> Seq<(Seq<char>, nat)>
    decreases keys.len(),
{
    if keys.len() == 0 {
        entries
    } else {
        bumped(bumped_all(entries, keys.drop_last()), keys.last())
    }
}

/// How often `key` occurs in `keys`.
pub open spec fn occurrences(keys: Seq<Seq<char>>, key: Seq<char>) -> nat
    decreases keys.len(),
{
    if keys.len() == 0 {
        0
    } else if keys.last() == key {
        occurrences(keys.drop_last(), key) + 1
    } else {
        occurrences(keys.drop_last(), key)
    }
}

/// A text occurs in a list exactly if it is counted there at least once.
pub proof fn lemma_occurrences_contains(keys: Seq<Seq<char>>, key: Seq<char>)
    ensures
        occurrences(keys, key) > 0 <==> keys.contains(key),
    decreases keys.len(),
{
    if keys.len() > 0 {
        let rest = keys.drop_last();
        lemma_occurrences_contains(rest, key);
        if keys.contains(key) {
            let i = choose|i: int| 0 <= i < keys.len() && keys[i] == key;
            if i < rest.len() {
                assert(rest[i] == key);
            }
        }
        if rest.contains(key) {
            let i = choose|i: int| 0 <= i < rest.len() && rest[i] == key;
            assert(keys[i] == key);
        }
        if keys.last() == key {
            assert(keys[keys.len() - 1] == key);
        }
    }
}

/// A key occurs in the first part of a list no more often than in the
/// whole list.
pub proof fn lemma_occurrences_of_prefix(keys: Seq<Seq<char>>, shorter: int, key: Seq<char>)
    requires
        0 <= shorter <= keys.len(),
    ensures
        occurrences(keys.take(shorter), key) <= occurrences(keys, key),
        occurrences(keys, key) <= keys.len(),
    decreases keys.len(),
{
    if keys.len() == 0 {
        assert(keys.take(shorter) =~= keys);
    } else if shorter < keys.len() {
        assert(keys.drop_last().take(shorter) =~= keys.take(shorter));
        lemma_occurrences_of_prefix(keys.drop_last(), shorter, key);
    } else {
        assert(keys.take(shorter) =~= keys);
        lemma_occurrences_of_prefix(keys.drop_last(), shorter - 1, key);
    }
}

/// No count of entries within range exceeds 32 bits, that of an absent
/// key included.
pub proof fn lemma_count_in_range(entries: Seq<(Seq<char>, nat)>, key: Seq<char>)
    requires
        counts_in_range(entries),
    ensures
        count_of(entries, key) <= u32::MAX,
    decreases entries.len(),
{
    if entries.len() > 0 {
        assert(entries.last() == entries[entries.len() - 1]);
        assert forall|i: int| 0 <= i < entries.drop_last().len() implies 1 <= (
        #[trigger] entries.drop_last()[i]).1 <= u32::MAX by {
            assert(entries.drop_last()[i] == entries[i]);
        }
        lemma_count_in_range(entries.drop_last(), key);
    }
}

/// Counting a list of keys adds to each count the number of times the key
/// occurs in the list, adds the length of the list to the sum, and keeps
/// the keys distinct.
pub proof fn lemma_bumped_all(entries: Seq<(Seq<char>, nat)>, keys: Seq<Seq<char>>)
    requires
        keys_distinct(entries),
    ensures
        keys_distinct(bumped_all(entries, keys)),
        total_of(bumped_all(entries, keys)) == total_of(entries) + keys.len(),
        forall|key: Seq<char>| #[trigger]
            count_of(bumped_all(entries, keys), key) == count_of(entries, key) + occurrences(
                keys,
                key,
            ),
        forall|key: Seq<char>| #[trigger]
            has_key(bumped_all(entries, keys), key) <==> (has_key(entries, key) || keys.contains(
                key,
            )),
        counts_in_range(entries) && (forall|key: Seq<char>|
            count_of(entries, key) + #[trigger] occurrences(keys, key) <= u32::MAX)
            ==> counts_in_range(bumped_all(entries, keys)),
    decreases keys.len(),
{
    if keys.len() > 0 {
        let rest = keys.drop_last();
        let last = keys.last();
        let before = bumped_all(entries, rest);
        lemma_bumped_all(entries, rest);
        lemma_bumped(before, last);
        if counts_in_range(entries) && (forall|key: Seq<char>|
            count_of(entries, key) + #[trigger] occurrences(keys, key) <= u32::MAX) {
            assert forall|key: Seq<char>|
                count_of(entries, key) + #[trigger] occurrences(rest, key) <= u32::MAX by {
                assert(occurrences(rest, key) <= occurrences(keys, key));
            }
            assert(count_of(before, last) == count_of(entries, last) + occurrences(rest, last));
            assert(occurrences(keys, last) == occurrences(rest, last) + 1);
        }
        assert forall|key: Seq<char>| #[trigger]
            count_of(bumped_all(entries, keys), key) == count_of(entries, key) + occurrences(
                keys,
                key,
            ) by {
            assert(count_of(before, key) == count_of(entries, key) + occurrences(rest, key));
            if key != last {
                assert(count_of(bumped(before, last), key) == count_of(before, key));
            }
        }
        assert forall|key: Seq<char>| #[trigger]
            has_key(bumped_all(entries, keys), key) <==> (has_key(entries, key) || keys.contains(
                key,
            )) by {
            lemma_occurrences_contains(keys, key);
            lemma_occurrences_contains(rest, key);
            assert(has_key(before, key) <==> (has_key(entries, key) || rest.contains(key)));
            assert(has_key(bumped(before, last), key) <==> (key == last || has_key(before, key)));
        }
    } else {
        assert forall|key: Seq<char>| !keys.contains(key) by {}
    }
}

/// A frequency table over texts. Keys are kept in the order in which they
/// were first counted; a hash index finds the position of a key.
pub struct CountTable {
    keys: Vec<String>,
    counts: Vec<u32>,
    index: StringHashMap<usize>,
}

impl View for CountTable {
    type V = Seq<(Seq<char>, nat)>;

    /// The keys with their counts, in the order of first occurrence.
    closed spec fn view(&self) -> Seq<(Seq<char>, nat)> {
        Seq::new(self.keys@.len(), |i: int| (self.keys@[i]@, self.counts@[i] as nat))
    }
}

impl CountTable {
    /// The index and the two columns describe the same table.
    pub closed spec fn index_agrees(&self) -> bool {
        &&& self.keys@.len() == self.counts@.len()
        &&& forall|i: int|
            0 <= i < self.keys@.len() ==> self.index@.contains_key(#[trigger] self.keys@[i]@)
                && self.index@[self.keys@[i]@] == i
        &&& forall|k: Seq<char>| #[trigger]
            self.index@.contains_key(k) ==> self.index@[k] < self.keys@.len()
                && self.keys@[self.index@[k] as int]@ == k
    }

    /// Well-formedness: keys are distinct, counts are at least one, and the
    /// index agrees with the columns.
    pub open spec fn wf(&self) -> bool {
        &&& self.index_agrees()
        &&& keys_distinct(self@)
        &&& counts_in_range(self@)
    }

    /// The sum of all counts of the table.
    pub open spec fn total(&self) -> nat {
        total_of(self@)
    }

    /// An empty table.
    pub fn new() -> (table: Self)
        ensures
            table.wf(),
            table@ == Seq::<(Seq<char>, nat)>::empty(),
    {
        let table = CountTable { keys: Vec::new(), counts: Vec::new(), index: StringHashMap::new() };
        assert(table@ =~= Seq::<(Seq<char>, nat)>::empty());
        table
    }

    /// The number of distinct keys.
    pub fn len(&self) -> (n: usize)
        requires
            self.wf(),
        ensures
            n == self@.len(),
    {
        self.keys.len()
    }

    /// The key at position `i`.
    pub fn key_at(&self, i: usize) -> (key: &String)
        requires
            self.wf(),
            i < self@.len(),
        ensures
            key@ == self@[i as int].0,
    {
        &self.keys[i]
    }

    /// The count at position `i`.
    pub fn count_at(&self, i: usize) -> (count: u32)
        requires
            self.wf(),
            i < self@.len(),
        ensures
            count == self@[i as int].1,
    {
        self.counts[i]
    }

    /// The count recorded for `key`, if the key was ever counted.
    pub fn get(&self, key: &str) -> (count: Option<u32>)
        requires
            self.wf(),
        ensures
            count is Some <==> has_key(self@, key@),
            count is Some ==> count->0 == count_of(self@, key@),
    {
        match self.index.get(key) {
            Some(i) => {
                proof {
                    lemma_count_at(self@, *i as int);
                }
                Some(self.counts[*i])
            },
            None => {
                assert(!has_key(self@, key@)) by {
                    if has_key(self@, key@) {
                        let p = position_of(self@, key@);
                        assert(self.keys@[p]@ == key@);
                    }
                }
                None
            },
        }
    }

    /// Counts one more occurrence of `key`.
    pub fn increment(&mut self, key: &str)
        requires
            old(self).wf(),
            count_of(old(self)@, key@) < u32::MAX,
        ensures
            final(self).wf(),
            final(self)@ == bumped(old(self)@, key@),
    {
        let ghost before = self@;
        proof {
            lemma_bumped(before, key@);
        }
        let found: Option<usize> = match self.index.get(key) {
            Some(i) => Some(*i),
            None => None,
        };
        match found {
            Some(i) => {
                proof {
                    lemma_count_at(before, i as int);
                }
                let count: u32 = self.counts[i];
                self.counts.set(i, count + 1);
                assert(self@ =~= bumped(before, key@));
            },
            None => {
                assert(!has_key(before, key@)) by {
                    if has_key(before, key@) {
                        let p = position_of(before, key@);
                        assert(self.keys@[p]@ == key@);
                    }
                }
                let position: usize = self.keys.len();
                self.keys.push(key.to_owned());
                self.counts.push(1);
                self.index.insert(key.to_owned(), position);
                assert(self@ =~= bumped(before, key@));
                assert(self.index_agrees());
            },
        }
    }
}

/// Two sequences that differ only in the count at `i` agree on the count
/// of every key but the one at `i`.
proof fn lemma_count_same_keys(
    before: Seq<(Seq<char>, nat)>,
    after: Seq<(Seq<char>, nat)>,
    other: Seq<char>,
    i: int,
)
    requires
        0 <= i < before.len(),
        before.len() == after.len(),
        forall|j: int| 0 <= j < before.len() && j != i ==> before[j] == after[j],
        before[i].0 == after[i].0,
        other != before[i].0,
    ensures
        count_of(after, other) == count_of(before, other),
    decreases before.len(),
{
    let n = before.len() - 1;
    if i == n {
        assert(before.drop_last() =~= after.drop_last());
    } else {
        assert(before.last() == after.last());
        if before.last().0 != other {
            let b = before.drop_last();
            let a = after.drop_last();
            assert forall|j: int| 0 <= j < b.len() && j != i implies b[j] == a[j] by {
                assert(b[j] == before[j]);
                assert(a[j] == after[j]);
            }
            lemma_count_same_keys(b, a, other, i);
        }
    }
}

} // verus!
