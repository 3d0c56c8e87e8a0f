//! Emoji frequency analysis: classify characters by unicode emoji block,
//! extract emoji tokens (an emoji base plus an optional variation selector),
//! and report the most frequent one.

use vstd::prelude::*;

use crate::model::{DataPreparer, Message, MsgV, msg_text};
use crate::seq_util::lemma_take_full;
use crate::tally::{CountTable, EntryV, count_of, first_occ, has_key, key_index, occ, tally,
    lemma_occ_le_len, lemma_tally_first_seen, lemma_tally_props};

verus! {

/// The variation selector that may follow an emoji base character.
pub open spec fn variation_selector() -> char {
    '\u{FE0F}'
}

/// Whether a code point falls within one of the emoji blocks the analyzer
/// recognizes: regional indicators, pictographs, emoticons, transport and map
/// symbols, supplemental symbols, dingbats and miscellaneous symbols.
pub open spec fn is_emoji_code(c: char) -> bool {
    let u = c as u32;
    ||| (0x1F1E6 <= u && u <= 0x1F1FF)
    ||| (0x1F300 <= u && u <= 0x1F5FF)
    ||| (0x1F600 <= u && u <= 0x1F64F)
    ||| (0x1F680 <= u && u <= 0x1F6FF)
    ||| (0x1F700 <= u && u <= 0x1F77F)
    ||| (0x1F780 <= u && u <= 0x1F7FF)
    ||| (0x1F800 <= u && u <= 0x1F8FF)
    ||| (0x1F900 <= u && u <= 0x1F9FF)
    ||| (0x1FA00 <= u && u <= 0x1FAFF)
    ||| (0x2600 <= u && u <= 0x26FF)
    ||| (0x2700 <= u && u <= 0x27BF)
}

/// The emoji tokens of a text, in order: each emoji base becomes a token,
/// together with an immediately following variation selector if present.
/// Longer multi-codepoint sequences are deliberately not merged.
pub open spec fn emojis_of(t: Seq<char>) -> Seq<Seq<char>>
    decreases t.len(),
{
    if t.len() == 0 {
        Seq::empty()
    } else if is_emoji_code(t[0]) {
        if t.len() >= 2 && t[1] == variation_selector() {
            seq![t.take(2)] + emojis_of(t.skip(2))
        } else {
            seq![t.take(1)] + emojis_of(t.skip(1))
        }
    } else {
        emojis_of(t.skip(1))
    }
}

/// All emoji tokens over a message sequence, message by message.
pub open spec fn all_emojis(s: Seq<MsgV>) -> Seq<Seq<char>>
    decreases s.len(),
{
    if s.len() == 0 {
        Seq::empty()
    } else {
        all_emojis(s.drop_last()) + emojis_of(msg_text(s.last()))
    }
}

/// How the emoji token stream grows with the message prefix.
pub proof fn lemma_all_emojis_take_step(s: Seq<MsgV>, i: int)
    requires
        0 <= i < s.len(),
    ensures
        all_emojis(s.take(i + 1)) == all_emojis(s.take(i)) + emojis_of(msg_text(s[i])),
{
    assert(s.take(i + 1).drop_last() =~= s.take(i));
    assert(s.take(i + 1).last() == s[i]);
}

/// A message prefix contributes no more emoji tokens than the whole.
pub proof fn lemma_all_emojis_take_le(s: Seq<MsgV>, i: int)
    requires
        0 <= i <= s.len(),
    ensures
        all_emojis(s.take(i)).len() <= all_emojis(s).len(),
    decreases s.len() - i,
{
    if i == s.len() {
        lemma_take_full(s);
    } else {
        lemma_all_emojis_take_step(s, i);
        lemma_all_emojis_take_le(s, i + 1);
    }
}

/// Every occurring key has at least one occurrence.
proof fn lemma_occ_contains_pos(items: Seq<Seq<char>>, k: Seq<char>)
    requires
        items.contains(k),
    ensures
        occ(items, k) >= 1,
    decreases items.len(),
{
    if items.last() == k {
        lemma_occ_le_len(items.drop_last(), k);
    } else {
        let j = choose|j: int| 0 <= j < items.len() && items[j] == k;
        assert(items.drop_last()[j] == k);
        assert(items.drop_last().contains(k));
        lemma_occ_contains_pos(items.drop_last(), k);
    }
}

/// `t[w]` carries the table's maximal count `c`, and every entry before it
/// counts strictly less: `w` is the first maximum.
pub open spec fn first_max_in_table(t: Seq<EntryV>, w: int, c: int) -> bool {
    &&& 0 <= w < t.len()
    &&& t[w].count == c
    &&& forall|j: int| 0 <= j < t.len() ==> t[j].count <= c
    &&& forall|j: int| 0 <= j < w ==> t[j].count < c
}

/// What `top_emoji` returns for `s`: the count of the most frequent emoji
/// token and, when any exists, a token reaching that count whose entry
/// entered the frequency table first.
pub open spec fn top_emoji_ok(e: Option<String>, count: u64, s: Seq<MsgV>) -> bool {
    let items = all_emojis(s);
    match e {
        None => items.len() == 0 && count == 0,
        Some(tok) => {
            &&& occ(items, tok@) == count as int
            &&& forall|k: Seq<char>| items.contains(k) ==> #[trigger] occ(items, k) <= count as int
            &&& exists|w: int|
                #[trigger] first_max_in_table(tally(items), w, count as int) && tally(
                    items,
                )[w].key == tok@
        },
    }
}

/// Ties go to the emoji seen first: every token that occurs as often as the
/// reported top emoji first occurs no earlier than it does.
pub proof fn lemma_top_emoji_tie_break(e: String, count: u64, s: Seq<MsgV>)
    requires
        top_emoji_ok(Some(e), count, s),
    ensures
        forall|k: Seq<char>|
            all_emojis(s).contains(k) && occ(all_emojis(s), k) == count as int ==> first_occ(
                all_emojis(s),
                e@,
            ) <= #[trigger] first_occ(all_emojis(s), k),
{
    let items = all_emojis(s);
    let t = tally(items);
    lemma_tally_props(items);
    lemma_tally_first_seen(items);
    let w = choose|w: int| #[trigger] first_max_in_table(t, w, count as int) && t[w].key == e@;
    assert forall|k: Seq<char>|
        items.contains(k) && occ(items, k) == count as int implies first_occ(items, e@)
        <= #[trigger] first_occ(items, k) by {
        assert(has_key(t, k));
        let w2 = key_index(t, k);
        assert(0 <= w2 < t.len() && t[w2].key == k);
        assert(count_of(t, k) == t[w2].count);
        assert(t[w2].count == count as int);
        if w2 < w {
            assert(t[w2].count < count as int);
        }
        if w < w2 {
            assert(first_occ(items, t[w].key) < first_occ(items, t[w2].key));
        }
    }
}

impl DataPreparer {
    /// Whether the character's code point falls in one of the recognized
    /// unicode emoji blocks.
    pub fn is_emoji_char(ch: char) -> (r: bool)
        ensures
            r == is_emoji_code(ch),
    {
        let u = ch as u32;
        (0x1F1E6 <= u && u <= 0x1F1FF) || (0x1F300 <= u && u <= 0x1F5FF) || (0x1F600 <= u && u
            <= 0x1F64F) || (0x1F680 <= u && u <= 0x1F6FF) || (0x1F700 <= u && u <= 0x1F77F) || (
        0x1F780 <= u && u <= 0x1F7FF) || (0x1F800 <= u && u <= 0x1F8FF) || (0x1F900 <= u && u
            <= 0x1F9FF) || (0x1FA00 <= u && u <= 0x1FAFF) || (0x2600 <= u && u <= 0x26FF) || (0x2700
            <= u && u <= 0x27BF)
    }

    /// The emoji tokens of a text, in order: each emoji base character, with
    /// an immediately following variation selector appended to its token.
    pub fn extract_emojis(text: &str) -> (r: Vec<String>)
        ensures
            r.deep_view() == emojis_of(text@),
    {
        let ghost t = text@;
        let n = text.unicode_len();
        let mut out: Vec<String> = Vec::new();
        let mut i: usize = 0;
        proof {
            assert(t.skip(0) =~= t);
            assert(out.deep_view() =~= Seq::<Seq<char>>::empty());
        }
        while i < n
            invariant
                n == t.len(),
                t == text@,
                i <= n,
                emojis_of(t) == out.deep_view() + emojis_of(t.skip(i as int)),
            decreases n - i,
        {
            let ghost rest = t.skip(i as int);
            let c = text.get_char(i);
            proof {
                assert(rest[0] == t[i as int]);
            }
            if DataPreparer::is_emoji_char(c) {
                let mut end = i + 1;
                if i + 1 < n {
                    let c2 = text.get_char(i + 1);
                    proof {
                        assert(rest[1] == t[i + 1]);
                    }
                    if c2 == '\u{FE0F}' {
                        end = i + 2;
                    }
                }
                let token = text.substring_char(i, end).to_owned();
                proof {
                    if end == i + 2 {
                        assert(rest.take(2) =~= t.subrange(i as int, end as int));
                        assert(rest.skip(2) =~= t.skip(end as int));
                    } else {
                        assert(rest.take(1) =~= t.subrange(i as int, end as int));
                        assert(rest.skip(1) =~= t.skip(end as int));
                        assert(rest.len() >= 2 ==> rest[1] == t[i + 1]);
                    }
                    assert(emojis_of(rest) == seq![token@] + emojis_of(t.skip(end as int)));
                }
                let ghost pv = out.deep_view();
                let ghost pvec = out@;
                let ghost tokv = token@;
                out.push(token);
                proof {
                    assert forall|j: int| 0 <= j < out@.len() implies out.deep_view()[j] == pv.push(
                        tokv,
                    )[j] by {
                        assert(out.deep_view()[j] == out@[j].deep_view());
                        if j < pvec.len() {
                            assert(out@[j] == pvec[j]);
                            assert(pv[j] == pvec[j].deep_view());
                        }
                    }
                    assert(out.deep_view() =~= pv.push(tokv));
                    assert(pv + (seq![tokv] + emojis_of(t.skip(end as int))) =~= pv.push(tokv)
                        + emojis_of(t.skip(end as int)));
                }
                i = end;
            } else {
                proof {
                    assert(rest.skip(1) =~= t.skip(i + 1));
                }
                i = i + 1;
            }
        }
        proof {
            assert(t.skip(n as int) =~= Seq::<char>::empty());
            assert(out.deep_view() + Seq::<Seq<char>>::empty() =~= out.deep_view());
        }
        out
    }

    /// The most frequent emoji token over all messages and its count. Ties
    /// keep the token whose entry entered the frequency table first. The
    /// token is absent exactly when no message carries an emoji, and then the
    /// count is zero.
    pub fn top_emoji(msgs: &Vec<Message>) -> (r: (Option<String>, u64))
        requires
            all_emojis(msgs.deep_view()).len() <= u64::MAX,
        ensures
            top_emoji_ok(r.0, r.1, msgs.deep_view()),
    {
        broadcast use crate::model::lemma_vec_deep_view;

        let ghost s = msgs.deep_view();
        let mut ct = CountTable::new();
        let n = msgs.len();
        for i in 0..n
            invariant
                n == msgs@.len(),
                s == msgs.deep_view(),
                all_emojis(s).len() <= u64::MAX,
                ct.wf(),
                ct.items() == all_emojis(s.take(i as int)),
        {
            proof {
                lemma_all_emojis_take_step(s, i as int);
                lemma_all_emojis_take_le(s, i + 1);
                assert(s[i as int] == msgs@[i as int].deep_view());
            }
            let text = DataPreparer::message_text_to_string(&msgs[i].text);
            let emojis = DataPreparer::extract_emojis(text.as_str());
            let ghost per_msg = emojis_of(msg_text(s[i as int]));
            let en = emojis.len();
            let mut j: usize = 0;
            while j < en
                invariant
                    en == emojis@.len(),
                    per_msg == emojis.deep_view(),
                    per_msg.len() + all_emojis(s.take(i as int)).len() <= all_emojis(s).len(),
                    all_emojis(s).len() <= u64::MAX,
                    j <= en,
                    ct.wf(),
                    ct.items() == all_emojis(s.take(i as int)) + per_msg.take(j as int),
                decreases en - j,
            {
                proof {
                    assert(per_msg[j as int] == emojis@[j as int].deep_view());
                }
                let _ = ct.add(emojis[j].as_str());
                proof {
                    assert((all_emojis(s.take(i as int)) + per_msg.take(j as int)).push(
                        per_msg[j as int],
                    ) =~= all_emojis(s.take(i as int)) + per_msg.take(j + 1));
                }
                j = j + 1;
            }
            proof {
                assert(per_msg.take(en as int) =~= per_msg);
            }
        }
        proof {
            lemma_take_full(s);
        }
        let ghost items = all_emojis(s);
        let ghost t = tally(items);
        proof {
            lemma_tally_props(items);
        }
        let entries = ct.into_entries();
        let en = entries.len();
        if en == 0 {
            proof {
                if items.len() > 0 {
                    assert(items.contains(items.last()));
                    assert(has_key(t, items.last()));
                    assert(t.len() > 0);
                }
            }
            return (None, 0);
        }
        // start from the first entry and keep the first maximum
        let mut best: usize = 0;
        let mut bc: u64 = entries[0].count;
        let mut i: usize = 1;
        proof {
            assert(t[0] == entries@[0int].deep_view());
            assert forall|j: int| 0 <= j < t.len() implies t[j].count >= 1 by {
                assert(t[j].count == occ(items, t[j].key));
                assert(has_key(t, crate::tally::i_to_key(t, j)));
                assert(items.contains(t[j].key));
                lemma_occ_contains_pos(items, t[j].key);
            }
        }
        while i < en
            invariant
                en == entries@.len(),
                t == entries.deep_view(),
                best < i <= en,
                t[best as int].count == bc as int,
                forall|j: int| 0 <= j < i ==> t[j].count <= bc as int,
                forall|j: int| 0 <= j < best ==> t[j].count < bc as int,
            decreases en - i,
        {
            proof {
                assert(t[i as int] == entries@[i as int].deep_view());
            }
            if entries[i].count > bc {
                best = i;
                bc = entries[i].count;
            }
            i = i + 1;
        }
        proof {
            assert(first_max_in_table(t, best as int, bc as int));
            assert(t[best as int].count == occ(items, t[best as int].key));
            assert forall|k: Seq<char>| items.contains(k) implies occ(items, k) <= bc as int by {
                assert(has_key(t, k));
                let w = key_index(t, k);
                assert(0 <= w < t.len() && t[w].key == k);
                assert(count_of(t, k) == occ(items, k));
            }
        }
        let e = entries[best].key.clone();
        (Some(e), bc)
    }
}

} // verus!
