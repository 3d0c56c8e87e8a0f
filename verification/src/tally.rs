//! Frequency counting over string keys: a small association table in
//! first-seen key order, with a verified link between table counts and the
//! number of occurrences in the tallied item sequence.

use vstd::prelude::*;

use crate::strops::str_eq;
use vstd::pervasive::VecAdditionalExecFns;

verus! {

/// One key with its running count.
pub struct Entry {
    pub key: String,
    pub count: u64,
}

/// Ghost view of an entry.
#[verifier::ext_equal]
pub ghost struct EntryV {
    pub key: Seq<char>,
    pub count: int,
}

impl DeepView for Entry {
    type V = EntryV;

    open spec fn deep_view(&self) -> EntryV {
        EntryV { key: self.key@, count: self.count as int }
    }
}

/// Number of occurrences of `k` in `items`.
pub open spec fn occ(items: Seq<Seq<char>>, k: Seq<char>) -> int
    decreases items.len(),
{
    if items.len() == 0 {
        0
    } else {
        occ(items.drop_last(), k) + if items.last() == k {
            1int
        } else {
            0int
        }
    }
}

/// The table holds the key.
pub open spec fn has_key(t: Seq<EntryV>, k: Seq<char>) -> bool {
    exists|i: int| 0 <= i < t.len() && t[i].key == k
}

/// The index of the key's entry (unique when keys are distinct).
pub open spec fn key_index(t: Seq<EntryV>, k: Seq<char>) -> int {
    choose|i: int| 0 <= i < t.len() && t[i].key == k
}

/// The key's count in the table; absent keys count zero.
pub open spec fn count_of(t: Seq<EntryV>, k: Seq<char>) -> int {
    if has_key(t, k) {
        t[key_index(t, k)].count
    } else {
        0
    }
}

/// No key appears twice.
pub open spec fn distinct_keys(t: Seq<EntryV>) -> bool {
    forall|i: int, j: int| 0 <= i < j < t.len() ==> t[i].key != t[j].key
}

/// One tallying step: bump the key's count, or append it with count one.
/// New keys land at the end, so the table is in first-seen key order.
pub open spec fn bump(t: Seq<EntryV>, k: Seq<char>) -> Seq<EntryV> {
    if has_key(t, k) {
        t.update(key_index(t, k), EntryV { key: k, count: t[key_index(t, k)].count + 1 })
    } else {
        t.push(EntryV { key: k, count: 1 })
    }
}

/// The frequency table of an item sequence.
pub open spec fn tally(items: Seq<Seq<char>>) -> Seq<EntryV>
    decreases items.len(),
{
    if items.len() == 0 {
        Seq::empty()
    } else {
        bump(tally(items.drop_last()), items.last())
    }
}

/// The frequency table has distinct keys, holds exactly the keys that occur,
/// and counts each key's occurrences.
pub proof fn lemma_tally_props(items: Seq<Seq<char>>)
    ensures
        distinct_keys(tally(items)),
        forall|k: Seq<char>| #[trigger] has_key(tally(items), k) <==> items.contains(k),
        forall|k: Seq<char>| #[trigger] count_of(tally(items), k) == occ(items, k),
        tally(items).len() <= items.len(),
        forall|i: int|
            0 <= i < tally(items).len() ==> #[trigger] tally(items)[i].count == occ(
                items,
                tally(items)[i].key,
            ),
    decreases items.len(),
{
    if items.len() == 0 {
        assert forall|k: Seq<char>| #[trigger] has_key(tally(items), k) implies items.contains(
            k,
        ) by {}
        assert forall|k: Seq<char>| items.contains(k) implies #[trigger] has_key(
            tally(items),
            k,
        ) by {}
    } else {
        let front = items.drop_last();
        let x = items.last();
        lemma_tally_props(front);
        let t = tally(front);
        let t2 = tally(items);
        assert(t2 == bump(t, x));
        // occurrence counts in `items` versus `front`
        assert forall|k: Seq<char>| #[trigger] occ(items, k) == occ(front, k) + (if k == x {
            1int
        } else {
            0int
        }) by {}
        if has_key(t, x) {
            let w = key_index(t, x);
            assert(0 <= w < t.len() && t[w].key == x);
            assert(t2 =~= t.update(w, EntryV { key: x, count: t[w].count + 1 }));
            assert(distinct_keys(t2));
            assert forall|k: Seq<char>| #[trigger] has_key(t2, k) implies items.contains(k) by {
                let i = choose|i: int| 0 <= i < t2.len() && t2[i].key == k;
                assert(t[i].key == k);
                assert(has_key(t, k));
                assert(front.contains(k));
                let j = choose|j: int| 0 <= j < front.len() && front[j] == k;
                assert(items[j] == k);
            }
            assert forall|k: Seq<char>| items.contains(k) implies #[trigger] has_key(t2, k) by {
                if k == x {
                    assert(t2[w].key == x);
                } else {
                    let j = choose|j: int| 0 <= j < items.len() && items[j] == k;
                    assert(front[j] == k);
                    assert(front.contains(k));
                    assert(has_key(t, k));
                    let i = key_index(t, k);
                    assert(0 <= i < t.len() && t[i].key == k);
                    assert(t2[i].key == k);
                }
            }
            assert forall|k: Seq<char>| #[trigger] count_of(t2, k) == occ(items, k) by {
                if has_key(t2, k) {
                    let i = key_index(t2, k);
                    assert(0 <= i < t2.len() && t2[i].key == k);
                    if i == w {
                        assert(k == x);
                        assert(count_of(t2, k) == t[w].count + 1);
                        assert(count_of(t, x) == t[w].count);
                    } else {
                        assert(t2[i] == t[i]);
                        assert(k != x);
                        assert(has_key(t, k));
                        assert(key_index(t, k) == i);
                        assert(count_of(t2, k) == count_of(t, k));
                    }
                } else {
                    assert(!has_key(t, k));
                    assert(!front.contains(k));
                    assert(k != x);
                    assert(!items.contains(k));
                    lemma_occ_absent(items, k);
                }
            }
        } else {
            assert(t2 =~= t.push(EntryV { key: x, count: 1 }));
            assert forall|i: int, j: int| 0 <= i < j < t2.len() implies t2[i].key != t2[j].key by {
                if j == t.len() {
                    assert(t2[i] == t[i]);
                    assert(!has_key(t, x));
                }
            }
            assert forall|k: Seq<char>| #[trigger] has_key(t2, k) implies items.contains(k) by {
                let i = choose|i: int| 0 <= i < t2.len() && t2[i].key == k;
                if i == t.len() {
                    assert(items.last() == k);
                } else {
                    assert(has_key(t, k));
                    assert(front.contains(k));
                    let j = choose|j: int| 0 <= j < front.len() && front[j] == k;
                    assert(items[j] == k);
                }
            }
            assert forall|k: Seq<char>| items.contains(k) implies #[trigger] has_key(t2, k) by {
                if k == x {
                    assert(t2[t.len() as int].key == x);
                } else {
                    let j = choose|j: int| 0 <= j < items.len() && items[j] == k;
                    assert(front[j] == k);
                    assert(front.contains(k));
                    assert(has_key(t, k));
                    let i = key_index(t, k);
                    assert(0 <= i < t.len() && t[i].key == k);
                    assert(t2[i].key == k);
                }
            }
            assert forall|k: Seq<char>| #[trigger] count_of(t2, k) == occ(items, k) by {
                if has_key(t2, k) {
                    let i = key_index(t2, k);
                    assert(0 <= i < t2.len() && t2[i].key == k);
                    if i == t.len() {
                        assert(k == x);
                        assert(!front.contains(k));
                        lemma_occ_absent(front, k);
                        assert(count_of(t2, k) == 1);
                    } else {
                        assert(t2[i] == t[i]);
                        assert(has_key(t, k));
                        assert(key_index(t, k) == i);
                        if k == x {
                            assert(has_key(t, x));
                            assert(false);
                        }
                        assert(count_of(t2, k) == count_of(t, k));
                    }
                } else {
                    assert(!has_key(t, k));
                    assert(!front.contains(k));
                    if k == x {
                        assert(t2[t.len() as int].key == x);
                        assert(false);
                    }
                    assert(!items.contains(k));
                    lemma_occ_absent(items, k);
                }
            }
        }
        assert forall|i: int| 0 <= i < t2.len() implies #[trigger] t2[i].count == occ(
            items,
            t2[i].key,
        ) by {
            assert(has_key(t2, i_to_key(t2, i)));
            let k = t2[i].key;
            assert(t2[key_index(t2, k)].key == k);
            assert(key_index(t2, k) == i);
            assert(count_of(t2, k) == t2[i].count);
        }
    }
}

/// Helper naming a table index's key, to steer quantifier instantiation.
pub open spec fn i_to_key(t: Seq<EntryV>, i: int) -> Seq<char> {
    t[i].key
}

/// A key that does not occur has no occurrences.
pub proof fn lemma_occ_absent(items: Seq<Seq<char>>, k: Seq<char>)
    requires
        !items.contains(k),
    ensures
        occ(items, k) == 0,
    decreases items.len(),
{
    if items.len() > 0 {
        assert forall|j: int| 0 <= j < items.drop_last().len() implies items.drop_last()[j]
            != k by {
            assert(items[j] == items.drop_last()[j]);
        }
        assert(!items.drop_last().contains(k));
        lemma_occ_absent(items.drop_last(), k);
    }
}

/// Occurrence counts never exceed the item count.
pub proof fn lemma_occ_le_len(items: Seq<Seq<char>>, k: Seq<char>)
    ensures
        0 <= occ(items, k) <= items.len(),
    decreases items.len(),
{
    if items.len() > 0 {
        lemma_occ_le_len(items.drop_last(), k);
    }
}

/// The index of the first occurrence of `k` in `items` (meaningful only
/// when `k` occurs).
pub open spec fn first_occ(items: Seq<Seq<char>>, k: Seq<char>) -> int
    decreases items.len(),
{
    if items.len() == 0 {
        0
    } else if items.first() == k {
        0
    } else {
        1 + first_occ(items.drop_first(), k)
    }
}

/// The first occurrence is one: in range, carrying the key, with nothing
/// equal before it.
pub proof fn lemma_first_occ_props(items: Seq<Seq<char>>, k: Seq<char>)
    requires
        items.contains(k),
    ensures
        0 <= first_occ(items, k) < items.len(),
        items[first_occ(items, k)] == k,
        forall|j: int| 0 <= j < first_occ(items, k) ==> items[j] != k,
    decreases items.len(),
{
    if items.first() != k {
        let w = choose|w: int| 0 <= w < items.len() && items[w] == k;
        assert(items.drop_first()[w - 1] == k);
        assert(items.drop_first().contains(k));
        lemma_first_occ_props(items.drop_first(), k);
        assert forall|j: int| 0 <= j < first_occ(items, k) implies items[j] != k by {
            if j > 0 {
                assert(items.drop_first()[j - 1] == items[j]);
            }
        }
    }
}

/// Appending an item moves no earlier first occurrence, and a fresh key
/// first occurs at the end.
proof fn lemma_first_occ_push(items: Seq<Seq<char>>, x: Seq<char>, k: Seq<char>)
    ensures
        items.contains(k) ==> first_occ(items.push(x), k) == first_occ(items, k),
        !items.contains(k) && k == x ==> first_occ(items.push(x), k) == items.len(),
    decreases items.len(),
{
    if items.len() == 0 {
        assert(items.push(x).first() == x);
        if k == x {
            assert(first_occ(items.push(x), k) == 0);
        }
    } else {
        assert(items.push(x).first() == items.first());
        assert(items.push(x).drop_first() =~= items.drop_first().push(x));
        if items.first() != k {
            if items.contains(k) {
                let w = choose|w: int| 0 <= w < items.len() && items[w] == k;
                assert(items.drop_first()[w - 1] == k);
                assert(items.drop_first().contains(k));
            } else {
                assert forall|j: int| 0 <= j < items.drop_first().len() implies items.drop_first()[j]
                    != k by {
                    assert(items.drop_first()[j] == items[j + 1]);
                }
                assert(!items.drop_first().contains(k));
            }
            lemma_first_occ_push(items.drop_first(), x, k);
        }
    }
}

/// The frequency table lists keys in first-seen order.
pub proof fn lemma_tally_first_seen(items: Seq<Seq<char>>)
    ensures
        forall|a: int, b: int|
            0 <= a < b < tally(items).len() ==> first_occ(items, #[trigger] tally(items)[a].key)
                < first_occ(items, #[trigger] tally(items)[b].key),
    decreases items.len(),
{
    if items.len() > 0 {
        let front = items.drop_last();
        let x = items.last();
        lemma_tally_first_seen(front);
        lemma_tally_props(front);
        let t = tally(front);
        let t2 = tally(items);
        assert(front.push(x) =~= items);
        // keys already tabled keep their first occurrence
        assert forall|i: int| 0 <= i < t.len() implies first_occ(items, #[trigger] t[i].key)
            == first_occ(front, t[i].key) by {
            assert(has_key(t, i_to_key(t, i)));
            assert(front.contains(t[i].key));
            lemma_first_occ_push(front, x, t[i].key);
        }
        if has_key(t, x) {
            let w = key_index(t, x);
            assert(t2 == t.update(w, EntryV { key: x, count: t[w].count + 1 }));
            assert forall|i: int| 0 <= i < t2.len() implies #[trigger] t2[i].key == t[i].key by {}
        } else {
            assert(t2 == t.push(EntryV { key: x, count: 1 }));
            assert(!front.contains(x));
            lemma_first_occ_push(front, x, x);
            assert(first_occ(items, x) == front.len());
            assert forall|a: int, b: int|
                0 <= a < b < t2.len() implies first_occ(items, #[trigger] t2[a].key) < first_occ(
                items,
                #[trigger] t2[b].key,
            ) by {
                if b == t.len() {
                    assert(t2[a].key == t[a].key);
                    assert(has_key(t, i_to_key(t, a)));
                    assert(front.contains(t[a].key));
                    lemma_first_occ_props(front, t[a].key);
                }
            }
        }
    }
}

/// A frequency table under construction.
pub struct CountTable {
    entries: Vec<Entry>,
    items: Ghost<Seq<Seq<char>>>,
}

impl CountTable {
    /// The items tallied so far.
    pub closed spec fn items(&self) -> Seq<Seq<char>> {
        self.items@
    }

    /// The table contents.
    pub closed spec fn table(&self) -> Seq<EntryV> {
        self.entries.deep_view()
    }

    /// The table is the frequency table of the tallied items.
    pub open spec fn wf(&self) -> bool {
        self.table() == tally(self.items())
    }

    /// An empty table.
    pub fn new() -> (r: CountTable)
        ensures
            r.wf(),
            r.items() == Seq::<Seq<char>>::empty(),
    {
        let r = CountTable { entries: Vec::new(), items: Ghost(Seq::empty()) };
        proof {
            assert(r.entries.deep_view() =~= Seq::<EntryV>::empty());
        }
        r
    }

    /// Tallies one item and reports its updated count.
    pub fn add(&mut self, k: &str) -> (c: u64)
        requires
            old(self).wf(),
            old(self).items().len() < u64::MAX,
        ensures
            final(self).wf(),
            final(self).items() == old(self).items().push(k@),
            c as int == occ(final(self).items(), k@),
    {
        broadcast use crate::model::lemma_vec_deep_view;

        proof {
            lemma_tally_props(self.items());
        }
        let ghost t = self.table();
        let ghost items0 = self.items();
        let n = self.entries.len();
        let mut i: usize = 0;
        while i < n && !str_eq(self.entries[i].key.as_str(), k)
            invariant
                n == self.entries@.len(),
                t == self.table(),
                i <= n,
                forall|j: int| 0 <= j < i ==> t[j].key != k@,
            decreases n - i,
        {
            proof {
                assert(t[i as int] == self.entries@[i as int].deep_view());
            }
            i = i + 1;
        }
        let ghost items1 = items0.push(k@);
        self.items = Ghost(items1);
        proof {
            assert(items1.drop_last() =~= items0);
            assert(tally(items1) == bump(t, k@));
        }
        if i < n {
            // found: bump the entry's count
            proof {
                assert(t[i as int] == self.entries@[i as int].deep_view());
                assert(has_key(t, k@));
                let w = key_index(t, k@);
                assert(0 <= w < t.len() && t[w].key == k@);
                assert(distinct_keys(t));
                assert(w == i as int);
                assert(count_of(t, k@) == t[i as int].count);
                assert(occ(items0, k@) == count_of(t, k@));
                lemma_occ_le_len(items0, k@);
            }
            let c0 = self.entries[i].count;
            let key2 = self.entries[i].key.clone();
            let ghost pvec = self.entries@;
            let ghost pv = self.entries.deep_view();
            self.entries.set(i, Entry { key: key2, count: c0 + 1 });
            proof {
                assert forall|j: int| 0 <= j < self.entries@.len() implies self.entries.deep_view()[j]
                    == bump(t, k@)[j] by {
                    assert(self.entries.deep_view()[j] == self.entries@[j].deep_view());
                    if j != i as int {
                        assert(self.entries@[j] == pvec[j]);
                        assert(pv[j] == pvec[j].deep_view());
                    }
                }
                assert(self.entries.deep_view() =~= bump(t, k@));
            }
            c0 + 1
        } else {
            // not found: append a fresh entry
            proof {
                assert(!has_key(t, k@));
                assert(occ(items0, k@) == count_of(t, k@));
            }
            let ghost pvec = self.entries@;
            let ghost pv = self.entries.deep_view();
            self.entries.push(Entry { key: k.to_owned(), count: 1 });
            proof {
                assert forall|j: int| 0 <= j < self.entries@.len() implies self.entries.deep_view()[j]
                    == bump(t, k@)[j] by {
                    assert(self.entries.deep_view()[j] == self.entries@[j].deep_view());
                    if j < pvec.len() {
                        assert(self.entries@[j] == pvec[j]);
                        assert(pv[j] == pvec[j].deep_view());
                    }
                }
                assert(self.entries.deep_view() =~= bump(t, k@));
            }
            1
        }
    }

    /// Hands the finished table out.
    pub fn into_entries(self) -> (r: Vec<Entry>)
        ensures
            r.deep_view() == self.table(),
    {
        self.entries
    }
}

} // verus!
