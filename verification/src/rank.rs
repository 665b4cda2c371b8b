//! Ranking of a frequency table: higher counts first, equal counts by the
//! lexicographic order of their keys.

use vstd::prelude::*;
use crate::table::{
    CountTable,
    bumped_all,
    count_of,
    has_key,
    keys_distinct,
    lemma_bumped_all,
    lemma_count_at,
    occurrences,
    position_of,
};
use crate::text::{
    lemma_lex_lt_irreflexive,
    lemma_lex_lt_total,
    lemma_lex_lt_transitive,
    lex_lt,
    text_lt,
    texts_of,
};

verus! {

/// How many of the best ranked keys are always listed.
pub const TOP_COUNT: usize = 11;

/// Whether entry `a` ranks strictly before entry `b`: by the higher count,
/// and among equal counts by the smaller key.
pub open spec fn ranks_before(a: (Seq<char>, nat), b: (Seq<char>, nat)) -> bool {
    a.1 > b.1 || (a.1 == b.1 && lex_lt(a.0, b.0))
}

/// No entry ranks before itself.
pub proof fn lemma_ranks_before_irreflexive(a: (Seq<char>, nat))
    ensures
        !ranks_before(a, a),
{
    lemma_lex_lt_irreflexive(a.0);
}

/// Ranking is transitive.
pub proof fn lemma_ranks_before_transitive(
    a: (Seq<char>, nat),
    b: (Seq<char>, nat),
    c: (Seq<char>, nat),
)
    requires
        ranks_before(a, b),
        ranks_before(b, c),
    ensures
        ranks_before(a, c),
{
    if a.1 == b.1 && b.1 == c.1 {
        lemma_lex_lt_transitive(a.0, b.0, c.0);
    }
}

/// Of two entries with different keys one ranks before the other.
pub proof fn lemma_ranks_before_total(a: (Seq<char>, nat), b: (Seq<char>, nat))
    requires
        a.0 != b.0,
    ensures
        ranks_before(a, b) || ranks_before(b, a),
{
    lemma_lex_lt_total(a.0, b.0);
}

/// Whether position `i` occurs in `order`.
pub open spec fn lists(order: Seq<usize>, i: int) -> bool {
    exists|p: int| 0 <= p < order.len() && #[trigger] order[p] == i
}

/// `order` lists every position from `lo` up to `hi` once, best ranked first.
pub open spec fn ranks_range(
    order: Seq<usize>,
    entries: Seq<(Seq<char>, nat)>,
    lo: int,
    hi: int,
) -> bool {
    &&& order.len() == hi - lo
    &&& forall|p: int| 0 <= p < order.len() ==> lo <= (#[trigger] order[p]) < hi
    &&& forall|p: int, q: int|
        0 <= p < q < order.len() ==> ranks_before(
            entries[(#[trigger] order[p]) as int],
            entries[(#[trigger] order[q]) as int],
        )
    &&& forall|i: int| lo <= i < hi ==> #[trigger] lists(order, i)
}

/// `order` lists every position of `entries` once, best ranked first.
pub open spec fn is_ranking(order: Seq<usize>, entries: Seq<(Seq<char>, nat)>) -> bool {
    ranks_range(order, entries, 0, entries.len() as int)
}

/// A key together with the count that the entries record for it.
pub open spec fn entry_of(entries: Seq<(Seq<char>, nat)>, key: Seq<char>) -> (Seq<char>, nat) {
    (key, count_of(entries, key))
}

/// Whether `top` is the list of top keys of `entries`: the best ranked
/// keys in ranking order, the first `TOP_COUNT` of them in any case, and
/// after those every key whose count ties with that of the last of them.
pub open spec fn is_top_keywords(top: Seq<Seq<char>>, entries: Seq<(Seq<char>, nat)>) -> bool {
    &&& forall|i: int| 0 <= i < top.len() ==> has_key(entries, #[trigger] top[i])
    &&& forall|i: int, j: int|
        0 <= i < j < top.len() ==> ranks_before(
            entry_of(entries, #[trigger] top[i]),
            entry_of(entries, #[trigger] top[j]),
        )
    &&& forall|key: Seq<char>, i: int|
        #[trigger] has_key(entries, key) && !top.contains(key) && 0 <= i < top.len()
            ==> ranks_before(entry_of(entries, #[trigger] top[i]), entry_of(entries, key))
    &&& top.len() < TOP_COUNT ==> forall|key: Seq<char>| #[trigger]
        has_key(entries, key) ==> top.contains(key)
    &&& forall|i: int|
        TOP_COUNT <= i < top.len() ==> count_of(entries, #[trigger] top[i]) == count_of(
            entries,
            top[TOP_COUNT - 1],
        )
    &&& top.len() >= TOP_COUNT ==> forall|key: Seq<char>| #[trigger]
        has_key(entries, key) && !top.contains(key) ==> count_of(entries, key) < count_of(
            entries,
            top[TOP_COUNT - 1],
        )
}

/// Whether `name` is the most frequent key of `entries`: the key that
/// ranks before every other, so the smallest among those with the highest
/// count; the empty text where there is no key at all.
pub open spec fn is_most_frequent(name: Seq<char>, entries: Seq<(Seq<char>, nat)>) -> bool {
    if entries.len() == 0 {
        name == Seq::<char>::empty()
    } else {
        &&& has_key(entries, name)
        &&& forall|key: Seq<char>| #[trigger]
            has_key(entries, key) && key != name ==> ranks_before(
                entry_of(entries, name),
                entry_of(entries, key),
            )
    }
}

/// A key whose count no other key exceeds is among the top keys, however
/// many keys share that count.
pub proof fn lemma_most_counted_is_listed(
    top: Seq<Seq<char>>,
    entries: Seq<(Seq<char>, nat)>,
    key: Seq<char>,
)
    requires
        is_top_keywords(top, entries),
        has_key(entries, key),
        forall|other: Seq<char>| #[trigger]
            has_key(entries, other) ==> count_of(entries, other) <= count_of(entries, key),
    ensures
        top.contains(key),
{
    if !top.contains(key) {
        assert(top.len() >= TOP_COUNT);
        assert(has_key(entries, top[TOP_COUNT - 1]));
    }
}

/// Further occurrences of a key never lower a count, and a key whose
/// count no other key exceeded is still among the top keys after more
/// occurrences of it were counted.
pub proof fn lemma_more_occurrences_keep_leader_listed(
    entries: Seq<(Seq<char>, nat)>,
    key: Seq<char>,
    more: Seq<Seq<char>>,
    top_after: Seq<Seq<char>>,
)
    requires
        keys_distinct(entries),
        has_key(entries, key),
        forall|other: Seq<char>| #[trigger]
            has_key(entries, other) ==> count_of(entries, other) <= count_of(entries, key),
        forall|i: int| 0 <= i < more.len() ==> #[trigger] more[i] == key,
        is_top_keywords(top_after, bumped_all(entries, more)),
    ensures
        forall|other: Seq<char>|
            count_of(entries, other) <= #[trigger] count_of(bumped_all(entries, more), other),
        top_after.contains(key),
{
    let after = bumped_all(entries, more);
    lemma_bumped_all(entries, more);
    assert forall|other: Seq<char>| #[trigger] has_key(after, other) implies count_of(after, other)
        <= count_of(after, key) by {
        if other != key {
            lemma_occurrences_of_others(more, key, other);
        }
    }
    lemma_most_counted_is_listed(top_after, after, key);
}

/// Two entries cannot rank before each other.
pub proof fn lemma_ranks_before_asymmetric(a: (Seq<char>, nat), b: (Seq<char>, nat))
    requires
        ranks_before(a, b),
    ensures
        !ranks_before(b, a),
{
    if ranks_before(b, a) {
        lemma_ranks_before_transitive(a, b, a);
        lemma_ranks_before_irreflexive(a);
    }
}

/// A table has one most frequent key only.
pub proof fn lemma_most_frequent_unique(
    first: Seq<char>,
    second: Seq<char>,
    entries: Seq<(Seq<char>, nat)>,
)
    requires
        is_most_frequent(first, entries),
        is_most_frequent(second, entries),
    ensures
        first == second,
{
    if entries.len() > 0 && first != second {
        lemma_ranks_before_asymmetric(entry_of(entries, first), entry_of(entries, second));
    }
}

/// Two lists of top keys that agree before place `i` cannot differ at
/// place `i` with the key of the first ranking before that of the second.
proof fn lemma_top_keys_agree_at(
    first: Seq<Seq<char>>,
    second: Seq<Seq<char>>,
    entries: Seq<(Seq<char>, nat)>,
    i: int,
)
    requires
        is_top_keywords(first, entries),
        is_top_keywords(second, entries),
        0 <= i < first.len(),
        i < second.len(),
        forall|j: int| 0 <= j < i ==> first[j] == second[j],
    ensures
        !ranks_before(entry_of(entries, first[i]), entry_of(entries, second[i])),
{
    let mine = entry_of(entries, first[i]);
    let theirs = entry_of(entries, second[i]);
    if ranks_before(mine, theirs) {
        lemma_ranks_before_asymmetric(mine, theirs);
        if second.contains(first[i]) {
            let j = choose|j: int| 0 <= j < second.len() && second[j] == first[i];
            if j < i {
                assert(first[j] == second[j]);
                assert(ranks_before(entry_of(entries, first[j]), entry_of(entries, first[i])));
                lemma_ranks_before_irreflexive(mine);
            } else if j == i {
                lemma_ranks_before_irreflexive(mine);
            } else {
                assert(ranks_before(entry_of(entries, second[i]), entry_of(entries, second[j])));
            }
        } else {
            assert(has_key(entries, first[i]));
            assert(ranks_before(entry_of(entries, second[i]), entry_of(entries, first[i])));
        }
    }
}

/// Two lists of top keys of the same entries hold the same key at every
/// place that both have.
proof fn lemma_top_keys_common_prefix(
    first: Seq<Seq<char>>,
    second: Seq<Seq<char>>,
    entries: Seq<(Seq<char>, nat)>,
    i: int,
)
    requires
        is_top_keywords(first, entries),
        is_top_keywords(second, entries),
        0 <= i < first.len(),
        i < second.len(),
    ensures
        first[i] == second[i],
    decreases i,
{
    assert forall|j: int| 0 <= j < i implies first[j] == second[j] by {
        lemma_top_keys_common_prefix(first, second, entries, j);
    }
    lemma_top_keys_agree_at(first, second, entries, i);
    lemma_top_keys_agree_at(second, first, entries, i);
    if first[i] != second[i] {
        lemma_ranks_before_total(entry_of(entries, first[i]), entry_of(entries, second[i]));
    }
}

/// Of two lists of top keys of the same entries the first is not shorter.
proof fn lemma_top_keys_not_shorter(
    first: Seq<Seq<char>>,
    second: Seq<Seq<char>>,
    entries: Seq<(Seq<char>, nat)>,
)
    requires
        is_top_keywords(first, entries),
        is_top_keywords(second, entries),
    ensures
        first.len() >= second.len(),
{
    let m = first.len() as int;
    if m < second.len() {
        let key = second[m];
        assert(has_key(entries, key));
        if first.contains(key) {
            let j = choose|j: int| 0 <= j < first.len() && first[j] == key;
            lemma_top_keys_common_prefix(first, second, entries, j);
            assert(ranks_before(entry_of(entries, second[j]), entry_of(entries, second[m])));
            lemma_ranks_before_irreflexive(entry_of(entries, key));
        } else {
            assert(m >= TOP_COUNT);
            lemma_top_keys_common_prefix(first, second, entries, TOP_COUNT - 1);
            assert(count_of(entries, second[m]) == count_of(entries, second[TOP_COUNT - 1]));
        }
    }
}

/// The entries decide their top keys: two lists that both are the top
/// keys of the same entries are the same list.
pub proof fn lemma_top_keywords_unique(
    first: Seq<Seq<char>>,
    second: Seq<Seq<char>>,
    entries: Seq<(Seq<char>, nat)>,
)
    requires
        is_top_keywords(first, entries),
        is_top_keywords(second, entries),
    ensures
        first == second,
{
    lemma_top_keys_not_shorter(first, second, entries);
    lemma_top_keys_not_shorter(second, first, entries);
    assert forall|i: int| 0 <= i < first.len() implies first[i] == second[i] by {
        lemma_top_keys_common_prefix(first, second, entries, i);
    }
    assert(first =~= second);
}

/// A list that repeats one key holds no occurrence of another.
proof fn lemma_occurrences_of_others(keys: Seq<Seq<char>>, key: Seq<char>, other: Seq<char>)
    requires
        forall|i: int| 0 <= i < keys.len() ==> #[trigger] keys[i] == key,
        other != key,
    ensures
        occurrences(keys, other) == 0,
    decreases keys.len(),
{
    if keys.len() > 0 {
        assert(keys.last() == keys[keys.len() - 1]);
        assert forall|i: int| 0 <= i < keys.drop_last().len() implies #[trigger] keys.drop_last()[i]
            == key by {
            assert(keys.drop_last()[i] == keys[i]);
        }
        lemma_occurrences_of_others(keys.drop_last(), key, other);
    }
}

/// Whether the entry at position `a` of the table ranks before the one at `b`.
pub fn position_ranks_before(table: &CountTable, a: usize, b: usize) -> (r: bool)
    requires
        table.wf(),
        a < table@.len(),
        b < table@.len(),
    ensures
        r == ranks_before(table@[a as int], table@[b as int]),
{
    let count_a: u32 = table.count_at(a);
    let count_b: u32 = table.count_at(b);
    if count_a != count_b {
        count_a > count_b
    } else {
        text_lt(table.key_at(a).as_str(), table.key_at(b).as_str())
    }
}

/// Merges the rankings of two adjacent ranges of positions into one.
fn merge_ranked(
    table: &CountTable,
    left: Vec<usize>,
    right: Vec<usize>,
    Ghost(lo): Ghost<int>,
    Ghost(mid): Ghost<int>,
    Ghost(hi): Ghost<int>,
) -> (out: Vec<usize>)
    requires
        table.wf(),
        0 <= lo <= mid <= hi <= table@.len(),
        ranks_range(left@, table@, lo, mid),
        ranks_range(right@, table@, mid, hi),
    ensures
        ranks_range(out@, table@, lo, hi),
{
    let ghost e = table@;
    let mut out: Vec<usize> = Vec::new();
    let mut a: usize = 0;
    let mut b: usize = 0;
    while a < left.len() || b < right.len()
        invariant
            table.wf(),
            e == table@,
            0 <= lo <= mid <= hi <= e.len(),
            ranks_range(left@, e, lo, mid),
            ranks_range(right@, e, mid, hi),
            a <= left.len(),
            b <= right.len(),
            out.len() == a + b,
            forall|p: int| 0 <= p < out.len() ==> lo <= (#[trigger] out[p]) < hi,
            forall|p: int, q: int|
                0 <= p < q < out.len() ==> ranks_before(
                    e[(#[trigger] out[p]) as int],
                    e[(#[trigger] out[q]) as int],
                ),
            forall|p: int, q: int|
                0 <= p < out.len() && a <= q < left.len() ==> ranks_before(
                    e[(#[trigger] out[p]) as int],
                    e[(#[trigger] left[q]) as int],
                ),
            forall|p: int, q: int|
                0 <= p < out.len() && b <= q < right.len() ==> ranks_before(
                    e[(#[trigger] out[p]) as int],
                    e[(#[trigger] right[q]) as int],
                ),
            forall|q: int| 0 <= q < a ==> lists(out@, (#[trigger] left[q]) as int),
            forall|q: int| 0 <= q < b ==> lists(out@, (#[trigger] right[q]) as int),
        decreases left.len() - a + right.len() - b,
    {
        let ghost before = out@;
        let take_left: bool = if b >= right.len() {
            true
        } else if a >= left.len() {
            false
        } else {
            !position_ranks_before(table, right[b], left[a])
        };
        if take_left {
            let chosen: usize = left[a];
            proof {
                if b < right.len() {
                    assert(e[chosen as int].0 != e[right[b as int] as int].0);
                    lemma_ranks_before_total(e[chosen as int], e[right[b as int] as int]);
                    assert forall|q: int| b < q < right.len() implies ranks_before(
                        e[chosen as int],
                        e[(#[trigger] right[q]) as int],
                    ) by {
                        lemma_ranks_before_transitive(
                            e[chosen as int],
                            e[right[b as int] as int],
                            e[right[q] as int],
                        );
                    }
                }
            }
            out.push(chosen);
            a = a + 1;
            assert(out@[out.len() - 1] == chosen);
        } else {
            let chosen: usize = right[b];
            proof {
                if a < left.len() {
                    assert forall|q: int| a < q < left.len() implies ranks_before(
                        e[chosen as int],
                        e[(#[trigger] left[q]) as int],
                    ) by {
                        lemma_ranks_before_transitive(
                            e[chosen as int],
                            e[left[a as int] as int],
                            e[left[q] as int],
                        );
                    }
                }
            }
            out.push(chosen);
            b = b + 1;
            assert(out@[out.len() - 1] == chosen);
        }
        proof {
            assert forall|i: int| lists(before, i) implies lists(out@, i) by {
                let p = choose|p: int| 0 <= p < before.len() && #[trigger] before[p] == i;
                assert(out@[p] == i);
            }
        }
    }
    proof {
        assert forall|i: int| lo <= i < hi implies #[trigger] lists(out@, i) by {
            if i < mid {
                assert(lists(left@, i));
                let q = choose|q: int| 0 <= q < left@.len() && #[trigger] left@[q] == i;
                assert(lists(out@, left[q] as int));
            } else {
                assert(lists(right@, i));
                let q = choose|q: int| 0 <= q < right@.len() && #[trigger] right@[q] == i;
                assert(lists(out@, right[q] as int));
            }
        }
    }
    out
}

/// Ranks the positions from `lo` up to `hi` by merging the rankings of the
/// two halves.
fn rank_range(table: &CountTable, lo: usize, hi: usize) -> (out: Vec<usize>)
    requires
        table.wf(),
        lo <= hi <= table@.len(),
    ensures
        ranks_range(out@, table@, lo as int, hi as int),
    decreases hi - lo,
{
    if hi - lo == 0 {
        Vec::new()
    } else if hi - lo == 1 {
        let mut out: Vec<usize> = Vec::new();
        out.push(lo);
        assert(lists(out@, lo as int)) by {
            assert(out@[0] == lo);
        }
        out
    } else {
        let mid: usize = lo + (hi - lo) / 2;
        let left = rank_range(table, lo, mid);
        let right = rank_range(table, mid, hi);
        merge_ranked(table, left, right, Ghost(lo as int), Ghost(mid as int), Ghost(hi as int))
    }
}

/// The positions of the table's entries, best ranked first.
pub fn ranking(table: &CountTable) -> (order: Vec<usize>)
    requires
        table.wf(),
    ensures
        is_ranking(order@, table@),
{
    rank_range(table, 0, table.len())
}

/// The keys at the first `top.len()` places of a ranking are the top keys,
/// provided the list stops at a count below that of place `TOP_COUNT` or
/// at the end of the ranking, and no listed count past that place differs
/// from it.
proof fn lemma_ranked_prefix_is_top(
    order: Seq<usize>,
    entries: Seq<(Seq<char>, nat)>,
    top: Seq<Seq<char>>,
)
    requires
        keys_distinct(entries),
        is_ranking(order, entries),
        top.len() <= order.len(),
        forall|p: int| 0 <= p < top.len() ==> #[trigger] top[p] == entries[order[p] as int].0,
        top.len() < order.len() ==> top.len() >= TOP_COUNT && entries[order[top.len() as int] as int].1
            != entries[order[TOP_COUNT - 1] as int].1,
        forall|p: int|
            TOP_COUNT <= p < top.len() ==> (#[trigger] entries[order[p] as int]).1
                == entries[order[TOP_COUNT - 1] as int].1,
    ensures
        is_top_keywords(top, entries),
{
    let m = top.len() as int;
    assert forall|p: int| 0 <= p < m implies entry_of(entries, #[trigger] top[p])
        == entries[order[p] as int] && has_key(entries, top[p]) by {
        lemma_count_at(entries, order[p] as int);
    }
    assert forall|key: Seq<char>| #[trigger] has_key(entries, key) && !top.contains(key) implies {
        let q = choose|q: int| 0 <= q < order.len() && #[trigger] order[q] == position_of(entries, key);
        &&& m <= q < order.len()
        &&& entry_of(entries, key) == entries[order[q] as int]
    } by {
        let j = position_of(entries, key);
        lemma_count_at(entries, j);
        assert(lists(order, j));
        let q = choose|q: int| 0 <= q < order.len() && #[trigger] order[q] == j;
        if q < m {
            assert(top[q] == key);
        }
    }
    assert forall|key: Seq<char>, i: int| #[trigger]
        has_key(entries, key) && !top.contains(key) && 0 <= i < top.len() implies ranks_before(
        entry_of(entries, #[trigger] top[i]),
        entry_of(entries, key),
    ) by {
        let q = choose|q: int| 0 <= q < order.len() && #[trigger] order[q] == position_of(entries, key);
        assert(ranks_before(entries[order[i] as int], entries[order[q] as int]));
    }
    if m >= TOP_COUNT {
        assert forall|key: Seq<char>| #[trigger]
            has_key(entries, key) && !top.contains(key) implies count_of(entries, key) < count_of(
            entries,
            top[TOP_COUNT - 1],
        ) by {
            let q = choose|q: int|
                0 <= q < order.len() && #[trigger] order[q] == position_of(entries, key);
            let last = TOP_COUNT - 1;
            assert(entry_of(entries, top[last]) == entries[order[last] as int]);
            assert(ranks_before(entries[order[last] as int], entries[order[m] as int]));
            if q > m {
                assert(ranks_before(entries[order[m] as int], entries[order[q] as int]));
            }
        }
    }
}

/// The top keys of the table: its keys in ranking order, cut after the
/// first `TOP_COUNT` and the keys that tie with the last of those.
pub fn top_keywords(table: &CountTable) -> (top: Vec<String>)
    requires
        table.wf(),
    ensures
        is_top_keywords(texts_of(top@), table@),
{
    let order = ranking(table);
    let ghost e = table@;
    let n: usize = order.len();
    let mut top: Vec<String> = Vec::new();
    let mut i: usize = 0;
    while i < n && (i < TOP_COUNT || table.count_at(order[i]) == table.count_at(order[TOP_COUNT - 1]))
        invariant
            table.wf(),
            e == table@,
            is_ranking(order@, e),
            n == order.len(),
            i <= n,
            top.len() == i,
            forall|p: int| 0 <= p < i ==> (#[trigger] top@[p])@ == e[order[p] as int].0,
            forall|p: int|
                TOP_COUNT <= p < i ==> (#[trigger] e[order[p] as int]).1 == e[order[TOP_COUNT
                    - 1] as int].1,
        decreases n - i,
    {
        top.push(table.key_at(order[i]).clone());
        i = i + 1;
    }
    proof {
        lemma_ranked_prefix_is_top(order@, e, texts_of(top@));
    }
    top
}

/// The most frequent key of the table, the empty string for an empty table.
pub fn most_frequent(table: &CountTable) -> (name: String)
    requires
        table.wf(),
    ensures
        is_most_frequent(name@, table@),
{
    let n: usize = table.len();
    if n == 0 {
        return String::new();
    }
    let ghost e = table@;
    let mut best: usize = 0;
    let mut i: usize = 1;
    while i < n
        invariant
            table.wf(),
            e == table@,
            n == e.len(),
            1 <= i <= n,
            best < i,
            forall|j: int| 0 <= j < i && j != best ==> ranks_before(e[best as int], #[trigger] e[j]),
        decreases n - i,
    {
        if position_ranks_before(table, i, best) {
            proof {
                assert forall|j: int| 0 <= j < i + 1 && j != i implies ranks_before(
                    e[i as int],
                    #[trigger] e[j],
                ) by {
                    if j != best {
                        lemma_ranks_before_transitive(e[i as int], e[best as int], e[j]);
                    }
                }
            }
            best = i;
        } else {
            proof {
                assert(e[i as int].0 != e[best as int].0);
                lemma_ranks_before_total(e[i as int], e[best as int]);
            }
        }
        i = i + 1;
    }
    let name = table.key_at(best).clone();
    proof {
        lemma_count_at(e, best as int);
        assert forall|key: Seq<char>| #[trigger] has_key(e, key) && key != name@ implies ranks_before(
            entry_of(e, name@),
            entry_of(e, key),
        ) by {
            let j = position_of(e, key);
            lemma_count_at(e, j);
            assert(entry_of(e, key) == e[j]);
            assert(entry_of(e, name@) == e[best as int]);
        }
    }
    name
}

} // verus!
