//! Basic aggregators: participant classification, first/last message,
//! character counts, and call-duration summaries. Each runs in a single pass
//! over a read-only message sequence.

use vstd::prelude::*;

use crate::errors::DataPreparerError;
use crate::model::{DataPreparer, Message, MinimalMessage, MsgV, minimal_of, msg_char_count};
use crate::seq_util::lemma_take_full;
use crate::strops::str_eq;

verus! {

// ---------------------------------------------------------------------------
// Participant classifier
// ---------------------------------------------------------------------------

/// Which side of the owner/member split a filter selects.
#[derive(Clone, Copy, PartialEq, Eq, Structural, Debug)]
pub enum Party {
    Owner,
    Member,
}

/// The message was sent by the configured owner.
pub open spec fn is_owner(m: MsgV, owner: Seq<char>) -> bool {
    m.from_id == Some(owner)
}

/// The message has a sender who is not the configured owner.
pub open spec fn is_member(m: MsgV, owner: Seq<char>) -> bool {
    m.from_id is Some && m.from_id != Some(owner)
}

/// The message has any sender at all; service messages have none and are
/// excluded from both sides of the split.
pub open spec fn has_sender(m: MsgV) -> bool {
    m.from_id is Some
}

/// Whether a message falls on the given side of the owner/member split.
pub open spec fn party_matches(party: Party, m: MsgV, owner: Seq<char>) -> bool {
    match party {
        Party::Owner => is_owner(m, owner),
        Party::Member => is_member(m, owner),
    }
}

impl DataPreparer {
    /// Classifies one message against the configured owner identifier.
    pub fn matches_party(m: &Message, owner_id: &str, party: Party) -> (r: bool)
        ensures
            r == party_matches(party, m.deep_view(), owner_id@),
    {
        match &m.from_id {
            None => false,
            Some(id) => {
                let same = str_eq(id.as_str(), owner_id);
                match party {
                    Party::Owner => same,
                    Party::Member => !same,
                }
            }
        }
    }
}

// ---------------------------------------------------------------------------
// First and last message
// ---------------------------------------------------------------------------

/// `i` is where the earliest message stands: no message is earlier, and
/// among equal timestamps it is the first in input order.
pub open spec fn first_at(s: Seq<MsgV>, i: int) -> bool {
    &&& 0 <= i < s.len()
    &&& forall|j: int| 0 <= j < s.len() ==> s[i].date_ts <= #[trigger] s[j].date_ts
    &&& forall|j: int| 0 <= j < i ==> s[i].date_ts < #[trigger] s[j].date_ts
}

/// `i` is where the latest message stands: no message is later, and among
/// equal timestamps it is the last in input order.
pub open spec fn last_at(s: Seq<MsgV>, i: int) -> bool {
    &&& 0 <= i < s.len()
    &&& forall|j: int| 0 <= j < s.len() ==> #[trigger] s[j].date_ts <= s[i].date_ts
    &&& forall|j: int| i < j < s.len() ==> #[trigger] s[j].date_ts < s[i].date_ts
}

impl DataPreparer {
    /// The index of the earliest message; among equal timestamps the first
    /// one in input order. `None` exactly when the input is empty.
    pub fn first_message(msgs: &Vec<Message>) -> (r: Option<usize>)
        ensures
            match r {
                None => msgs@.len() == 0,
                Some(i) => first_at(msgs.deep_view(), i as int),
            },
    {
        broadcast use crate::model::lemma_vec_deep_view;

        if msgs.len() == 0 {
            return None;
        }
        let mut best: usize = 0;
        let mut i: usize = 1;
        while i < msgs.len()
            invariant
                msgs@.len() > 0,
                best < i <= msgs@.len(),
                forall|j: int| 0 <= j < i ==> msgs.deep_view()[best as int].date_ts
                    <= msgs.deep_view()[j].date_ts,
                forall|j: int| 0 <= j < best ==> msgs.deep_view()[best as int].date_ts
                    < msgs.deep_view()[j].date_ts,
            decreases msgs@.len() - i,
        {
            if msgs[i].date_ts < msgs[best].date_ts {
                best = i;
            }
            i = i + 1;
        }
        Some(best)
    }

    /// The index of the latest message; among equal timestamps the last one
    /// in input order. `None` exactly when the input is empty.
    pub fn last_message(msgs: &Vec<Message>) -> (r: Option<usize>)
        ensures
            match r {
                None => msgs@.len() == 0,
                Some(i) => last_at(msgs.deep_view(), i as int),
            },
    {
        broadcast use crate::model::lemma_vec_deep_view;

        if msgs.len() == 0 {
            return None;
        }
        let mut best: usize = 0;
        let mut i: usize = 1;
        while i < msgs.len()
            invariant
                msgs@.len() > 0,
                best < i <= msgs@.len(),
                forall|j: int| 0 <= j < i ==> msgs.deep_view()[j].date_ts
                    <= msgs.deep_view()[best as int].date_ts,
                forall|j: int| best < j < i ==> msgs.deep_view()[j].date_ts
                    < msgs.deep_view()[best as int].date_ts,
            decreases msgs@.len() - i,
        {
            if msgs[i].date_ts >= msgs[best].date_ts {
                best = i;
            }
            i = i + 1;
        }
        Some(best)
    }
}

// ---------------------------------------------------------------------------
// Character counts
// ---------------------------------------------------------------------------

/// Total number of unicode characters over a message sequence.
pub open spec fn total_chars(s: Seq<MsgV>) -> nat
    decreases s.len(),
{
    if s.len() == 0 {
        0
    } else {
        total_chars(s.drop_last()) + msg_char_count(s.last())
    }
}

/// How the running character total grows with the prefix.
pub proof fn lemma_total_chars_take_step(s: Seq<MsgV>, i: int)
    requires
        0 <= i < s.len(),
    ensures
        total_chars(s.take(i + 1)) == total_chars(s.take(i)) + msg_char_count(s[i]),
{
    assert(s.take(i + 1).drop_last() =~= s.take(i));
    assert(s.take(i + 1).last() == s[i]);
}

/// Every prefix's character total is bounded by the whole sequence's.
pub proof fn lemma_total_chars_take_le(s: Seq<MsgV>, i: int)
    requires
        0 <= i <= s.len(),
    ensures
        total_chars(s.take(i)) <= total_chars(s),
    decreases s.len() - i,
{
    if i == s.len() {
        lemma_take_full(s);
    } else {
        lemma_total_chars_take_step(s, i);
        lemma_total_chars_take_le(s, i + 1);
    }
}

/// A filtered sequence never counts more characters than the whole.
pub proof fn lemma_total_chars_filter_le(s: Seq<MsgV>, p: spec_fn(MsgV) -> bool)
    ensures
        total_chars(s.filter(p)) <= total_chars(s),
    decreases s.len(),
{
    reveal(Seq::filter);
    if s.len() > 0 {
        lemma_total_chars_filter_le(s.drop_last(), p);
        if p(s.last()) {
            let f = s.drop_last().filter(p);
            assert(f.push(s.last()).drop_last() =~= f);
            assert(total_chars(f.push(s.last())) == total_chars(f) + msg_char_count(s.last()));
        }
    }
}

impl DataPreparer {
    /// The total number of unicode characters over all messages' extracted
    /// texts. Counts characters, not bytes, so multi-byte scripts count each
    /// letter once.
    pub fn character_count(msgs: &Vec<Message>) -> (r: Result<usize, DataPreparerError>)
        requires
            total_chars(msgs.deep_view()) <= usize::MAX,
        ensures
            r == Ok::<usize, DataPreparerError>(total_chars(msgs.deep_view()) as usize),
    {
        broadcast use crate::model::lemma_vec_deep_view;

        let ghost s = msgs.deep_view();
        let mut total: usize = 0;
        let n = msgs.len();
        for i in 0..n
            invariant
                n == msgs@.len(),
                s == msgs.deep_view(),
                total_chars(s) <= usize::MAX,
                total == total_chars(s.take(i as int)),
        {
            let text = DataPreparer::message_text_to_string(&msgs[i].text);
            proof {
                lemma_total_chars_take_step(s, i as int);
                lemma_total_chars_take_le(s, i + 1);
            }
            total = total + text.as_str().unicode_len();
        }
        proof {
            lemma_take_full(s);
        }
        Ok(total)
    }

    /// `character_count` restricted to one side of the owner/member split.
    pub fn character_count_filtered(msgs: &Vec<Message>, owner_id: &str, party: Party) -> (r:
        Result<usize, DataPreparerError>)
        requires
            total_chars(
                msgs.deep_view().filter(|m: MsgV| party_matches(party, m, owner_id@)),
            ) <= usize::MAX,
        ensures
            r == Ok::<usize, DataPreparerError>(
                total_chars(
                    msgs.deep_view().filter(|m: MsgV| party_matches(party, m, owner_id@)),
                ) as usize,
            ),
    {
        broadcast use crate::model::lemma_vec_deep_view;

        let ghost s = msgs.deep_view();
        let ghost p = |m: MsgV| party_matches(party, m, owner_id@);
        let mut total: usize = 0;
        let n = msgs.len();
        for i in 0..n
            invariant
                n == msgs@.len(),
                s == msgs.deep_view(),
                total_chars(s.filter(p)) <= usize::MAX,
                p == (|m: MsgV| party_matches(party, m, owner_id@)),
                total == total_chars(s.take(i as int).filter(p)),
        {
            proof {
                crate::seq_util::lemma_filter_take_step(s, p, i as int);
            }
            if DataPreparer::matches_party(&msgs[i], owner_id, party) {
                let text = DataPreparer::message_text_to_string(&msgs[i].text);
                proof {
                    let pref = s.take(i as int).filter(p);
                    assert(s.take(i + 1).filter(p).drop_last() =~= pref);
                    assert(total_chars(s.take(i + 1).filter(p)) == total_chars(pref)
                        + msg_char_count(s[i as int]));
                    lemma_filter_prefix_le(s, p, i + 1);
                }
                total = total + text.as_str().unicode_len();
            }
        }
        proof {
            lemma_take_full(s);
        }
        Ok(total)
    }
}

/// A filtered prefix's character total is bounded by the filtered whole.
proof fn lemma_filter_prefix_le(s: Seq<MsgV>, p: spec_fn(MsgV) -> bool, i: int)
    requires
        0 <= i <= s.len(),
    ensures
        total_chars(s.take(i).filter(p)) <= total_chars(s.filter(p)),
    decreases s.len() - i,
{
    if i == s.len() {
        lemma_take_full(s);
    } else {
        crate::seq_util::lemma_filter_take_step(s, p, i);
        if p(s[i]) {
            let pref = s.take(i).filter(p);
            assert(s.take(i + 1).filter(p).drop_last() =~= pref);
            assert(total_chars(s.take(i + 1).filter(p)) == total_chars(pref)
                + msg_char_count(s[i]));
        }
        lemma_filter_prefix_le(s, p, i + 1);
    }
}

// ---------------------------------------------------------------------------
// Call durations
// ---------------------------------------------------------------------------

/// A message's duration in seconds; absent is treated as zero.
pub open spec fn dur_of(m: MsgV) -> int {
    match m.duration_seconds {
        None => 0,
        Some(d) => d as int,
    }
}

/// Total duration in seconds over a message sequence.
pub open spec fn total_duration(s: Seq<MsgV>) -> int
    decreases s.len(),
{
    if s.len() == 0 {
        0
    } else {
        total_duration(s.drop_last()) + dur_of(s.last())
    }
}

/// How the running duration total grows with the prefix.
pub proof fn lemma_total_duration_take_step(s: Seq<MsgV>, i: int)
    requires
        0 <= i < s.len(),
    ensures
        total_duration(s.take(i + 1)) == total_duration(s.take(i)) + dur_of(s[i]),
{
    assert(s.take(i + 1).drop_last() =~= s.take(i));
    assert(s.take(i + 1).last() == s[i]);
}

/// Duration totals are nonnegative and grow with the prefix.
pub proof fn lemma_total_duration_take_le(s: Seq<MsgV>, i: int)
    requires
        0 <= i <= s.len(),
    ensures
        0 <= total_duration(s.take(i)) <= total_duration(s),
    decreases s.len() - i,
{
    lemma_nonneg(s, i);
    if i == s.len() {
        lemma_take_full(s);
    } else {
        lemma_total_duration_take_step(s, i);
        lemma_total_duration_take_le(s, i + 1);
    }
}

/// A duration total over any suffix-complement shape is nonnegative.
proof fn lemma_nonneg(s: Seq<MsgV>, i: int)
    requires
        0 <= i <= s.len(),
    ensures
        total_duration(s.take(i)) >= 0,
    decreases i,
{
    if i == 0 {
        assert(s.take(0) =~= Seq::<MsgV>::empty());
    } else {
        lemma_total_duration_take_step(s, i - 1);
        lemma_nonneg(s, i - 1);
    }
}

/// `w` holds the message with the greatest duration (absent durations count
/// as zero), first among ties in input order.
pub open spec fn longest_call_at(s: Seq<MsgV>, w: int, mm: MinimalMessage) -> bool {
    &&& 0 <= w < s.len()
    &&& mm.deep_view() == minimal_of(s[w])
    &&& forall|j: int| 0 <= j < s.len() ==> #[trigger] dur_of(s[j]) <= dur_of(s[w])
    &&& forall|j: int| 0 <= j < w ==> #[trigger] dur_of(s[j]) < dur_of(s[w])
}

/// What `longest_call` returns for `s`: absent exactly when there are no
/// messages, else the first message attaining the maximal duration.
pub open spec fn longest_call_ok(r: Option<MinimalMessage>, s: Seq<MsgV>) -> bool {
    match r {
        None => s.len() == 0,
        Some(mm) => exists|w: int| #[trigger] longest_call_at(s, w, mm),
    }
}

impl DataPreparer {
    /// The summed duration of all messages, in seconds; messages without a
    /// duration contribute zero.
    pub fn calls_durations(msgs: &Vec<Message>) -> (r: Result<u32, DataPreparerError>)
        requires
            total_duration(msgs.deep_view()) <= u32::MAX,
        ensures
            r == Ok::<u32, DataPreparerError>(total_duration(msgs.deep_view()) as u32),
    {
        broadcast use crate::model::lemma_vec_deep_view;

        let ghost s = msgs.deep_view();
        let mut total: u32 = 0;
        let n = msgs.len();
        for i in 0..n
            invariant
                n == msgs@.len(),
                s == msgs.deep_view(),
                total_duration(s) <= u32::MAX,
                total == total_duration(s.take(i as int)),
        {
            proof {
                lemma_total_duration_take_step(s, i as int);
                lemma_total_duration_take_le(s, i + 1);
                lemma_nonneg(s, i as int);
            }
            match msgs[i].duration_seconds {
                Some(d) => {
                    total = total + d;
                }
                None => {}
            }
        }
        proof {
            lemma_take_full(s);
        }
        Ok(total)
    }

    /// The message with the greatest duration, as a reporting snapshot; an
    /// absent duration counts as zero, and ties keep the first such message
    /// in input order. Absent exactly when there are no messages.
    pub fn longest_call(msgs: &Vec<Message>) -> (r: Option<MinimalMessage>)
        ensures
            longest_call_ok(r, msgs.deep_view()),
    {
        broadcast use crate::model::lemma_vec_deep_view;

        let ghost s = msgs.deep_view();
        let n = msgs.len();
        if n == 0 {
            return None;
        }
        proof {
            assert(s[0] == msgs@[0int].deep_view());
        }
        let mut best = MinimalMessage::snapshot(&msgs[0]);
        let mut max_duration: u32 = match msgs[0].duration_seconds {
            Some(d) => d,
            None => 0,
        };
        let ghost mut widx: int = 0;
        let mut i: usize = 1;
        while i < n
            invariant
                n == msgs@.len(),
                s == msgs.deep_view(),
                1 <= i <= n,
                0 <= widx < i,
                best.deep_view() == minimal_of(s[widx]),
                dur_of(s[widx]) == max_duration as int,
                forall|j: int| 0 <= j < i ==> #[trigger] dur_of(s[j]) <= max_duration as int,
                forall|j: int| 0 <= j < widx ==> #[trigger] dur_of(s[j]) < max_duration as int,
            decreases n - i,
        {
            proof {
                assert(s[i as int] == msgs@[i as int].deep_view());
            }
            let d = match msgs[i].duration_seconds {
                Some(d) => d,
                None => 0,
            };
            if d > max_duration {
                best = MinimalMessage::snapshot(&msgs[i]);
                max_duration = d;
                proof {
                    widx = i as int;
                }
            }
            i = i + 1;
        }
        proof {
            assert(longest_call_at(s, widx, best));
        }
        Some(best)
    }
}

} // verus!
