//! Word frequency analysis: tokenize extracted text into unicode
//! letter/digit runs, normalize to lowercase, drop short tokens and
//! stop-words, count the rest, and rank by descending count with ties broken
//! by ascending lexicographic order.

use vstd::prelude::*;

use crate::model::{DataPreparer, Message, MsgV, msg_text};
use crate::seq_util::lemma_take_full;
use crate::strops::{lemma_lex_lt_antisym, lemma_lex_lt_total, lemma_lex_lt_trans, lex_lt, str_eq,
    str_lt};
use crate::tally::{CountTable, Entry, EntryV, distinct_keys, occ, tally, lemma_tally_props};
use crate::unicode::{is_word_char, lower_of, lowercase, word_char};
use vstd::multiset::Multiset;

verus! {

// ---------------------------------------------------------------------------
// Tokenization
// ---------------------------------------------------------------------------

/// One step of the token scan: a letter/digit extends the current run, any
/// other character closes it.
pub open spec fn tok_step(acc: (Seq<Seq<char>>, Seq<char>), c: char) -> (Seq<Seq<char>>, Seq<char>) {
    if word_char(c) {
        (acc.0, acc.1.push(c))
    } else if acc.1.len() > 0 {
        (acc.0.push(acc.1), Seq::empty())
    } else {
        acc
    }
}

/// The token scan over a text: the closed tokens and the still-open run.
pub open spec fn tok_scan(t: Seq<char>) -> (Seq<Seq<char>>, Seq<char>)
    decreases t.len(),
{
    if t.len() == 0 {
        (Seq::empty(), Seq::empty())
    } else {
        tok_step(tok_scan(t.drop_last()), t.last())
    }
}

/// The maximal letter/digit runs of a text, in order.
pub open spec fn tokens_of(t: Seq<char>) -> Seq<Seq<char>> {
    let acc = tok_scan(t);
    if acc.1.len() > 0 {
        acc.0.push(acc.1)
    } else {
        acc.0
    }
}

/// A normalized token is kept when it has at least two characters and is not
/// a stop-word.
pub open spec fn keep_word(w: Seq<char>, stop: Seq<Seq<char>>) -> bool {
    w.len() >= 2 && !stop.contains(w)
}

/// Lowercases each token and keeps the interesting ones.
pub open spec fn refine(toks: Seq<Seq<char>>, stop: Seq<Seq<char>>) -> Seq<Seq<char>> {
    toks.map_values(|tok: Seq<char>| lower_of(tok)).filter(|w: Seq<char>| keep_word(w, stop))
}

/// The countable word items of one text.
pub open spec fn word_items(t: Seq<char>, stop: Seq<Seq<char>>) -> Seq<Seq<char>> {
    refine(tokens_of(t), stop)
}

/// The countable word items over a message sequence.
pub open spec fn all_word_items(s: Seq<MsgV>, stop: Seq<Seq<char>>) -> Seq<Seq<char>>
    decreases s.len(),
{
    if s.len() == 0 {
        Seq::empty()
    } else {
        all_word_items(s.drop_last(), stop) + word_items(msg_text(s.last()), stop)
    }
}

/// The scan of a one-longer prefix is one step further.
proof fn lemma_tok_scan_take_step(t: Seq<char>, i: int)
    requires
        0 <= i < t.len(),
    ensures
        tok_scan(t.take(i + 1)) == tok_step(tok_scan(t.take(i)), t[i]),
{
    assert(t.take(i + 1).drop_last() =~= t.take(i));
    assert(t.take(i + 1).last() == t[i]);
}

/// Refining one more token appends its lowercase form when it is kept.
proof fn lemma_refine_push(toks: Seq<Seq<char>>, x: Seq<char>, stop: Seq<Seq<char>>)
    ensures
        refine(toks.push(x), stop) == if keep_word(lower_of(x), stop) {
            refine(toks, stop).push(lower_of(x))
        } else {
            refine(toks, stop)
        },
{
    reveal(Seq::filter);
    let f = |tok: Seq<char>| lower_of(tok);
    let m1 = toks.push(x).map_values(f);
    assert(m1.drop_last() =~= toks.map_values(f));
    assert(m1.last() == lower_of(x));
    assert(m1 =~= toks.map_values(f).push(lower_of(x)));
}

/// Refined scans only grow as the text prefix grows.
proof fn lemma_refine_len_mono(t: Seq<char>, stop: Seq<Seq<char>>, i: int)
    requires
        0 <= i <= t.len(),
    ensures
        refine(tok_scan(t.take(i)).0, stop).len() <= word_items(t, stop).len(),
    decreases t.len() - i,
{
    if i == t.len() {
        lemma_take_full(t);
        let acc = tok_scan(t);
        if acc.1.len() > 0 {
            lemma_refine_push(acc.0, acc.1, stop);
        }
    } else {
        lemma_tok_scan_take_step(t, i);
        let acc = tok_scan(t.take(i));
        if !word_char(t[i]) && acc.1.len() > 0 {
            lemma_refine_push(acc.0, acc.1, stop);
        }
        lemma_refine_len_mono(t, stop, i + 1);
    }
}

/// How the word-item stream grows with the message prefix.
proof fn lemma_all_word_items_take_step(s: Seq<MsgV>, stop: Seq<Seq<char>>, i: int)
    requires
        0 <= i < s.len(),
    ensures
        all_word_items(s.take(i + 1), stop) == all_word_items(s.take(i), stop) + word_items(
            msg_text(s[i]),
            stop,
        ),
{
    assert(s.take(i + 1).drop_last() =~= s.take(i));
    assert(s.take(i + 1).last() == s[i]);
}

/// A message prefix contributes no more word items than the whole.
proof fn lemma_all_word_items_take_le(s: Seq<MsgV>, stop: Seq<Seq<char>>, i: int)
    requires
        0 <= i <= s.len(),
    ensures
        all_word_items(s.take(i), stop).len() <= all_word_items(s, stop).len(),
    decreases s.len() - i,
{
    if i == s.len() {
        lemma_take_full(s);
    } else {
        lemma_all_word_items_take_step(s, stop, i);
        lemma_all_word_items_take_le(s, stop, i + 1);
    }
}

// ---------------------------------------------------------------------------
// Ranking
// ---------------------------------------------------------------------------

/// The ranking order: larger counts first, ties by ascending lexicographic
/// key order.
pub open spec fn rank_before(a: EntryV, b: EntryV) -> bool {
    a.count > b.count || (a.count == b.count && lex_lt(a.key, b.key))
}

/// Strictly ranked from best to worst.
pub open spec fn sorted_rank(t: Seq<EntryV>) -> bool {
    forall|i: int, j: int| 0 <= i < j < t.len() ==> rank_before(t[i], t[j])
}

/// Entries with distinct keys always compare one way or the other.
proof fn lemma_rank_total(a: EntryV, b: EntryV)
    requires
        a.key != b.key,
    ensures
        rank_before(a, b) || rank_before(b, a),
{
    lemma_lex_lt_total(a.key, b.key);
}

/// The ranking is strict.
proof fn lemma_rank_antisym(a: EntryV, b: EntryV)
    requires
        rank_before(a, b),
    ensures
        !rank_before(b, a),
{
    if a.count == b.count {
        lemma_lex_lt_antisym(a.key, b.key);
    }
}

/// The ranking is transitive.
proof fn lemma_rank_trans(a: EntryV, b: EntryV, c: EntryV)
    requires
        rank_before(a, b),
        rank_before(b, c),
    ensures
        rank_before(a, c),
{
    if a.count == b.count && b.count == c.count {
        lemma_lex_lt_trans(a.key, b.key, c.key);
    }
}

/// Insertion into a ranked sequence, after every better-ranked entry.
pub open spec fn insert_ranked(s: Seq<EntryV>, x: EntryV) -> Seq<EntryV>
    decreases s.len(),
{
    if s.len() == 0 {
        seq![x]
    } else if rank_before(s.last(), x) {
        s.push(x)
    } else {
        insert_ranked(s.drop_last(), x).push(s.last())
    }
}

/// Sorting by repeated ranked insertion.
pub open spec fn sort_ranked(s: Seq<EntryV>) -> Seq<EntryV>
    decreases s.len(),
{
    if s.len() == 0 {
        s
    } else {
        insert_ranked(sort_ranked(s.drop_last()), s.last())
    }
}

/// Each element of a ranked insertion is the new entry or came from the
/// input.
proof fn lemma_insert_ranked_elems(s: Seq<EntryV>, x: EntryV, i: int)
    requires
        0 <= i < insert_ranked(s, x).len(),
    ensures
        insert_ranked(s, x)[i] == x || s.contains(insert_ranked(s, x)[i]),
    decreases s.len(),
{
    if s.len() == 0 {
    } else if rank_before(s.last(), x) {
        if i < s.len() {
            assert(s.contains(s[i]));
        }
    } else {
        let t = insert_ranked(s.drop_last(), x);
        if i < t.len() {
            lemma_insert_ranked_elems(s.drop_last(), x, i);
            if t[i] != x {
                let w = choose|w: int| 0 <= w < s.drop_last().len() && s.drop_last()[w] == t[i];
                assert(s[w] == t[i]);
            }
        } else {
            assert(insert_ranked(s, x)[i] == s.last());
            assert(s.contains(s.last()));
        }
    }
}

/// Ranked insertion keeps the order and adds exactly the new entry.
proof fn lemma_insert_ranked_props(s: Seq<EntryV>, x: EntryV)
    requires
        sorted_rank(s),
        forall|i: int| 0 <= i < s.len() ==> (#[trigger] s[i]).key != x.key,
    ensures
        insert_ranked(s, x).len() == s.len() + 1,
        sorted_rank(insert_ranked(s, x)),
        insert_ranked(s, x).to_multiset() == s.to_multiset().insert(x),
    decreases s.len(),
{
    broadcast use vstd::seq_lib::group_to_multiset_ensures;

    if s.len() == 0 {
        assert(seq![x] =~= Seq::<EntryV>::empty().push(x));
        assert(Seq::<EntryV>::empty().to_multiset() =~= Multiset::<EntryV>::empty());
    } else if rank_before(s.last(), x) {
        assert forall|i: int, j: int|
            0 <= i < j < s.push(x).len() implies rank_before(s.push(x)[i], s.push(x)[j]) by {
            if j == s.len() && i < s.len() - 1 {
                lemma_rank_trans(s[i], s.last(), x);
            }
        }
    } else {
        let front = s.drop_last();
        assert(sorted_rank(front));
        assert forall|i: int| 0 <= i < front.len() implies (#[trigger] front[i]).key != x.key by {
            assert(front[i] == s[i]);
        }
        lemma_insert_ranked_props(front, x);
        let t = insert_ranked(front, x);
        lemma_rank_total(s.last(), x);
        assert(rank_before(x, s.last()));
        assert forall|i: int, j: int|
            0 <= i < j < t.push(s.last()).len() implies rank_before(
            t.push(s.last())[i],
            t.push(s.last())[j],
        ) by {
            if j == t.len() {
                lemma_insert_ranked_elems(front, x, i);
                if t[i] != x {
                    let w = choose|w: int| 0 <= w < front.len() && front[w] == t[i];
                    assert(s[w] == t[i]);
                }
            }
        }
        assert(front.push(s.last()) =~= s);
        assert(front.push(s.last()).to_multiset() == front.to_multiset().insert(s.last()));
        assert(s.to_multiset().insert(x) =~= front.to_multiset().insert(s.last()).insert(x));
        assert(front.to_multiset().insert(x).insert(s.last()) =~= front.to_multiset().insert(
            s.last(),
        ).insert(x));
    }
}

/// Sorting by rank keeps the length and the entries.
pub proof fn lemma_sort_ranked_props(s: Seq<EntryV>)
    requires
        distinct_keys(s),
    ensures
        sort_ranked(s).len() == s.len(),
        sorted_rank(sort_ranked(s)),
        sort_ranked(s).to_multiset() == s.to_multiset(),
        forall|i: int| 0 <= i < sort_ranked(s).len() ==> s.contains(#[trigger] sort_ranked(s)[i]),
    decreases s.len(),
{
    broadcast use vstd::seq_lib::group_to_multiset_ensures;

    if s.len() > 0 {
        let front = s.drop_last();
        assert(distinct_keys(front));
        lemma_sort_ranked_props(front);
        let sf = sort_ranked(front);
        assert forall|i: int| 0 <= i < sf.len() implies (#[trigger] sf[i]).key != s.last().key by {
            assert(front.contains(sf[i]));
            let w = choose|w: int| 0 <= w < front.len() && front[w] == sf[i];
            assert(s[w] == sf[i]);
        }
        lemma_insert_ranked_props(sf, s.last());
        assert(front.push(s.last()) =~= s);
        assert(front.push(s.last()).to_multiset() == front.to_multiset().insert(s.last()));
        assert forall|i: int| 0 <= i < sort_ranked(s).len() implies s.contains(
            #[trigger] sort_ranked(s)[i],
        ) by {
            lemma_insert_ranked_elems(sf, s.last(), i);
            let e = sort_ranked(s)[i];
            if e == s.last() {
                assert(s[s.len() - 1] == e);
            } else {
                let w = choose|w: int| 0 <= w < sf.len() && sf[w] == e;
                assert(front.contains(e));
                let v = choose|v: int| 0 <= v < front.len() && front[v] == e;
                assert(s[v] == e);
            }
        }
    }
}

/// A ranked sequence with the new entry inserted at the first position
/// ranking after it equals the ranked insertion.
proof fn lemma_insert_ranked_at(s: Seq<EntryV>, x: EntryV, pos: int)
    requires
        sorted_rank(s),
        0 <= pos <= s.len(),
        forall|j: int| 0 <= j < pos ==> rank_before(#[trigger] s[j], x),
        pos < s.len() ==> rank_before(x, s[pos]),
    ensures
        insert_ranked(s, x) == s.insert(pos, x),
    decreases s.len(),
{
    if pos == s.len() {
        if s.len() == 0 {
            assert(seq![x] =~= s.insert(0, x));
        } else {
            assert(insert_ranked(s, x) == s.push(x));
            assert(s.push(x) =~= s.insert(pos, x));
        }
    } else {
        if pos < s.len() - 1 {
            lemma_rank_trans(x, s[pos], s.last());
        }
        lemma_rank_antisym(x, s.last());
        let front = s.drop_last();
        assert(sorted_rank(front));
        assert forall|j: int| 0 <= j < pos implies rank_before(#[trigger] front[j], x) by {
            assert(front[j] == s[j]);
        }
        lemma_insert_ranked_at(front, x, pos);
        front.insert_ensures(pos, x);
        s.insert_ensures(pos, x);
        assert(front.insert(pos, x).push(s.last()) =~= s.insert(pos, x));
    }
}

// ---------------------------------------------------------------------------
// Executable pieces
// ---------------------------------------------------------------------------

/// What `top_words` returns for `s`: the first `limit` entries of the full
/// ranking of the frequency table.
pub open spec fn top_words_ok(
    r: Seq<EntryV>,
    s: Seq<MsgV>,
    stop: Seq<Seq<char>>,
    limit: int,
) -> bool {
    let ranked = sort_ranked(tally(all_word_items(s, stop)));
    &&& r == ranked.take(
        if limit <= ranked.len() {
            limit
        } else {
            ranked.len() as int
        },
    )
    &&& sorted_rank(r)
}

/// Every entry of the ranking reports exactly its word's number of
/// occurrences among the countable word items.
pub proof fn lemma_top_words_counts(r: Seq<EntryV>, s: Seq<MsgV>, stop: Seq<Seq<char>>, limit: int)
    requires
        limit >= 0,
        top_words_ok(r, s, stop, limit),
    ensures
        forall|i: int|
            0 <= i < r.len() ==> (#[trigger] r[i]).count == occ(all_word_items(s, stop), r[i].key),
{
    let items = all_word_items(s, stop);
    let t = tally(items);
    lemma_tally_props(items);
    lemma_sort_ranked_props(t);
    let ranked = sort_ranked(t);
    let cut = if limit <= ranked.len() {
        limit
    } else {
        ranked.len() as int
    };
    assert(r.len() == cut);
    assert forall|i: int|
        0 <= i < r.len() implies (#[trigger] r[i]).count == occ(items, r[i].key) by {
        assert(i < ranked.len());
        assert(r[i] == ranked[i]);
        assert(t.contains(ranked[i]));
        let w = choose|w: int| 0 <= w < t.len() && t[w] == ranked[i];
        assert(t[w].count == occ(items, t[w].key));
    }
}

/// One ranked word with its count.
pub struct WordCount {
    pub word: String,
    pub count: u64,
}

impl DeepView for WordCount {
    type V = EntryV;

    open spec fn deep_view(&self) -> EntryV {
        EntryV { key: self.word@, count: self.count as int }
    }
}

/// The executable ranking comparison.
fn rank_lt(a: &Entry, b: &Entry) -> (r: bool)
    ensures
        r == rank_before(a.deep_view(), b.deep_view()),
{
    if a.count > b.count {
        true
    } else if a.count == b.count {
        str_lt(a.key.as_str(), b.key.as_str())
    } else {
        false
    }
}

/// Membership in a word list, character by character.
fn contains_str(words: &Vec<String>, w: &str) -> (r: bool)
    ensures
        r == words.deep_view().contains(w@),
{
    broadcast use crate::model::lemma_vec_deep_view;

    let n = words.len();
    let mut i: usize = 0;
    while i < n
        invariant
            n == words@.len(),
            i <= n,
            forall|j: int| 0 <= j < i ==> words.deep_view()[j] != w@,
        decreases n - i,
    {
        if str_eq(words[i].as_str(), w) {
            proof {
                assert(words.deep_view()[i as int] == w@);
            }
            return true;
        }
        proof {
            assert(words.deep_view()[i as int] == words@[i as int].deep_view());
        }
        i = i + 1;
    }
    proof {
        if words.deep_view().contains(w@) {
            let j = choose|j: int|
                0 <= j < words.deep_view().len() && words.deep_view()[j] == w@;
        }
    }
    false
}

/// Inserts a copy of the entry at `pos`.
fn insert_entry_clone(v: &mut Vec<Entry>, pos: usize, e: &Entry)
    requires
        pos <= old(v).len(),
    ensures
        final(v).deep_view() == old(v).deep_view().insert(pos as int, e.deep_view()),
{
    let ghost pv = v.deep_view();
    let ghost pvec = v@;
    let c = Entry { key: e.key.clone(), count: e.count };
    let ghost cv = c.deep_view();
    v.insert(pos, c);
    proof {
        pv.insert_ensures(pos as int, e.deep_view());
        pvec.insert_ensures(pos as int, c);
        assert forall|j: int| 0 <= j < v@.len() implies v.deep_view()[j] == pv.insert(
            pos as int,
            e.deep_view(),
        )[j] by {
            assert(v.deep_view()[j] == v@[j].deep_view());
            if j < pos {
                assert(v@[j] == pvec[j]);
                assert(pv[j] == pvec[j].deep_view());
            } else if j == pos {
                assert(v@[j] == c);
            } else {
                assert(v@[j] == pvec[j - 1]);
                assert(pv[j - 1] == pvec[j - 1].deep_view());
            }
        }
        assert(v.deep_view() =~= pv.insert(pos as int, e.deep_view()));
    }
}

impl DataPreparer {
    /// The `limit` best-ranked words over all messages: tokens are maximal
    /// unicode letter/digit runs, lowercased; tokens shorter than two
    /// characters and stop-words are discarded; the rest are ranked by
    /// descending count, ties by ascending lexicographic order.
    #[verifier::loop_isolation(false)]
    #[verifier::rlimit(100)]
    pub fn top_words(msgs: &Vec<Message>, stop_words: &Vec<String>, limit: usize) -> (r: Vec<
        WordCount,
    >)
        requires
            all_word_items(msgs.deep_view(), stop_words.deep_view()).len() <= u64::MAX,
        ensures
            top_words_ok(r.deep_view(), msgs.deep_view(), stop_words.deep_view(), limit as int),
    {
        broadcast use crate::model::lemma_vec_deep_view;

        let ghost s = msgs.deep_view();
        let ghost stop = stop_words.deep_view();
        let mut ct = CountTable::new();
        let mn = msgs.len();
        proof {
            assert(s.take(0) =~= Seq::<MsgV>::empty());
        }
        for mi in 0..mn
            invariant
                ct.wf(),
                ct.items() == all_word_items(s.take(mi as int), stop),
        {
            proof {
                assert(s[mi as int] == msgs@[mi as int].deep_view());
                lemma_all_word_items_take_step(s, stop, mi as int);
                lemma_all_word_items_take_le(s, stop, mi + 1);
            }
            let text = DataPreparer::message_text_to_string(&msgs[mi].text);
            let ghost t = msg_text(s[mi as int]);
            let ghost base = all_word_items(s.take(mi as int), stop);
            let n = text.as_str().unicode_len();
            let mut i: usize = 0;
            let mut run_start: usize = 0;
            let mut in_run = false;
            proof {
                assert(t.take(0) =~= Seq::<char>::empty());
            }
            while i < n
                invariant
                    n == t.len(),
                    t == text@,
                    i <= n,
                    in_run ==> run_start < i,
                    tok_scan(t.take(i as int)).1 == if in_run {
                        t.subrange(run_start as int, i as int)
                    } else {
                        Seq::<char>::empty()
                    },
                    ct.wf(),
                    ct.items() == base + refine(tok_scan(t.take(i as int)).0, stop),
                decreases n - i,
            {
                proof {
                    lemma_tok_scan_take_step(t, i as int);
                }
                let c = text.as_str().get_char(i);
                if is_word_char(c) {
                    if !in_run {
                        run_start = i;
                        in_run = true;
                    }
                    proof {
                        assert(t.subrange(run_start as int, i as int).push(t[i as int])
                            =~= t.subrange(run_start as int, i + 1));
                        assert(Seq::<char>::empty().push(t[i as int]) =~= t.subrange(
                            i as int,
                            i + 1,
                        ));
                    }
                } else if in_run {
                    // the run [run_start, i) closes: lowercase, filter, count
                    let ghost cur = t.subrange(run_start as int, i as int);
                    proof {
                        lemma_refine_push(tok_scan(t.take(i as int)).0, cur, stop);
                        lemma_refine_len_mono(t, stop, i + 1);
                    }
                    let token = text.as_str().substring_char(run_start, i);
                    let low = lowercase(token);
                    if low.as_str().unicode_len() >= 2 && !contains_str(stop_words, low.as_str()) {
                        proof {
                            assert(keep_word(lower_of(cur), stop));
                            assert((base + refine(tok_scan(t.take(i as int)).0, stop)).push(
                                low@,
                            ) =~= base + refine(tok_scan(t.take(i + 1)).0, stop));
                        }
                        let _ = ct.add(low.as_str());
                    } else {
                        proof {
                            assert(!keep_word(lower_of(cur), stop));
                        }
                    }
                    in_run = false;
                }
                i = i + 1;
            }
            // the final open run closes at the end of the text
            if in_run {
                let ghost cur = t.subrange(run_start as int, n as int);
                proof {
                    lemma_take_full(t);
                    lemma_refine_push(tok_scan(t).0, cur, stop);
                }
                let token = text.as_str().substring_char(run_start, n);
                let low = lowercase(token);
                if low.as_str().unicode_len() >= 2 && !contains_str(stop_words, low.as_str()) {
                    proof {
                        assert(keep_word(lower_of(cur), stop));
                        assert((base + refine(tok_scan(t).0, stop)).push(low@) =~= base
                            + word_items(t, stop));
                    }
                    let _ = ct.add(low.as_str());
                } else {
                    proof {
                        assert(!keep_word(lower_of(cur), stop));
                        assert(base + refine(tok_scan(t).0, stop) =~= base + word_items(t, stop));
                    }
                }
            } else {
                proof {
                    lemma_take_full(t);
                    assert(base + refine(tok_scan(t).0, stop) =~= base + word_items(t, stop));
                }
            }
        }
        proof {
            lemma_take_full(s);
        }
        let ghost items = all_word_items(s, stop);
        let ghost tdv = tally(items);
        proof {
            lemma_tally_props(items);
        }
        let entries = ct.into_entries();
        // rank the table by repeated insertion
        let mut ranked_entries: Vec<Entry> = Vec::new();
        let en = entries.len();
        proof {
            assert(ranked_entries.deep_view() =~= Seq::<EntryV>::empty());
            assert(tdv.take(0) =~= Seq::<EntryV>::empty());
        }
        for i in 0..en
            invariant
                en == entries@.len(),
                tdv == entries.deep_view(),
                ranked_entries.deep_view() == sort_ranked(tdv.take(i as int)),
            decreases en - i,
        {
            proof {
                assert(distinct_keys(tdv.take(i as int)));
                lemma_sort_ranked_props(tdv.take(i as int));
                assert(tdv[i as int] == entries@[i as int].deep_view());
            }
            let ghost dv = ranked_entries.deep_view();
            let ghost x = tdv[i as int];
            proof {
                assert forall|j: int| 0 <= j < dv.len() implies (#[trigger] dv[j]).key != x.key by {
                    assert(tdv.take(i as int).contains(dv[j]));
                    let w = choose|w: int|
                        0 <= w < tdv.take(i as int).len() && tdv.take(i as int)[w] == dv[j];
                    assert(tdv[w] == dv[j]);
                }
            }
            let sn = ranked_entries.len();
            let mut pos: usize = 0;
            while pos < sn && rank_lt(&ranked_entries[pos], &entries[i])
                invariant
                    sn == ranked_entries@.len(),
                    pos <= sn,
                    forall|j: int| 0 <= j < pos ==> rank_before(#[trigger] dv[j], x),
                decreases sn - pos,
            {
                proof {
                    assert(dv[pos as int] == ranked_entries@[pos as int].deep_view());
                }
                pos = pos + 1;
            }
            proof {
                if pos < sn {
                    assert(dv[pos as int] == ranked_entries@[pos as int].deep_view());
                    assert(!rank_before(dv[pos as int], x));
                    assert(dv[pos as int].key != x.key);
                    lemma_rank_total(dv[pos as int], x);
                    assert(rank_before(x, dv[pos as int]));
                }
                lemma_insert_ranked_at(dv, x, pos as int);
                assert(tdv.take(i + 1).drop_last() =~= tdv.take(i as int));
            }
            insert_entry_clone(&mut ranked_entries, pos, &entries[i]);
        }
        proof {
            lemma_take_full(tdv);
            lemma_sort_ranked_props(tdv);
        }
        let ghost full = sort_ranked(tdv);
        // truncate to the limit and hand out word/count pairs
        let rn = ranked_entries.len();
        let cut = if limit < rn {
            limit
        } else {
            rn
        };
        let mut out: Vec<WordCount> = Vec::new();
        proof {
            assert(out.deep_view() =~= full.take(0));
        }
        let mut k: usize = 0;
        while k < cut
            invariant
                rn == ranked_entries@.len(),
                full == ranked_entries.deep_view(),
                cut <= rn,
                k <= cut,
                out.deep_view() == full.take(k as int),
            decreases cut - k,
        {
            let ghost pv = out.deep_view();
            let ghost pvec = out@;
            proof {
                assert(full[k as int] == ranked_entries@[k as int].deep_view());
            }
            let wc = WordCount {
                word: ranked_entries[k].key.clone(),
                count: ranked_entries[k].count,
            };
            out.push(wc);
            proof {
                assert forall|j: int| 0 <= j < out@.len() implies out.deep_view()[j] == full.take(
                    k + 1,
                )[j] by {
                    assert(out.deep_view()[j] == out@[j].deep_view());
                    if j < pvec.len() {
                        assert(out@[j] == pvec[j]);
                        assert(pv[j] == pvec[j].deep_view());
                    }
                }
                assert(out.deep_view() =~= full.take(k + 1));
            }
            k = k + 1;
        }
        out
    }
}

} // verus!
