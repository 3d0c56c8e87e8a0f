//! Message selection on a chat: the date-range filter-and-sort step that
//! precedes aggregation, pattern-occurrence and call filters, and the
//! conversation windower.

use vstd::prelude::*;

use crate::model::{Chat, DataPreparer, Message, MsgV, insert_clone, msg_text, push_clone};
use vstd::multiset::Multiset;
use crate::pattern::{SearchPattern, pattern_matches};
use crate::seq_util::{lemma_filter_take_step, lemma_take_full};
use crate::strops::str_eq;

verus! {

/// The action label that marks a message as a call.
pub open spec fn call_action() -> Seq<char> {
    "phone_call"@
}

/// The message is a call: its action equals the call sentinel.
pub open spec fn is_call(m: MsgV) -> bool {
    m.action == Some(call_action())
}

/// The message's extracted text matches the pattern.
pub open spec fn is_occurrence(m: MsgV, pattern: Seq<char>) -> bool {
    pattern_matches(pattern, msg_text(m))
}

/// The message's timestamp lies in the inclusive range.
pub open spec fn in_range(m: MsgV, start: u64, end: u64) -> bool {
    start <= m.date_ts <= end
}

/// The sequence is sorted by timestamp (chronological order).
pub open spec fn sorted_by_ts(s: Seq<MsgV>) -> bool {
    forall|i: int, j: int| 0 <= i <= j < s.len() ==> s[i].date_ts <= s[j].date_ts
}

/// Consecutive messages of `s` from `a + 1` up to `b` all follow their
/// predecessor by strictly less than `gap` seconds: `[a, b]` is part of one
/// conversation burst.
pub open spec fn cohesive(s: Seq<MsgV>, a: int, b: int, gap: u64) -> bool {
    forall|k: int| a < k <= b ==> #[trigger] s[k].date_ts - s[k - 1].date_ts < gap
}

/// Stable insertion into a timestamp-sorted sequence: the new message lands
/// after every message with an equal or earlier timestamp.
pub open spec fn insert_sorted(s: Seq<MsgV>, m: MsgV) -> Seq<MsgV>
    decreases s.len(),
{
    if s.len() == 0 {
        seq![m]
    } else if s.last().date_ts <= m.date_ts {
        s.push(m)
    } else {
        insert_sorted(s.drop_last(), m).push(s.last())
    }
}

/// Stable sort by timestamp: messages with equal timestamps keep their
/// input order.
pub open spec fn sort_by_ts(s: Seq<MsgV>) -> Seq<MsgV>
    decreases s.len(),
{
    if s.len() == 0 {
        s
    } else {
        insert_sorted(sort_by_ts(s.drop_last()), s.last())
    }
}

/// Stable insertion keeps the sequence sorted and adds exactly the new
/// message.
pub proof fn lemma_insert_sorted_props(s: Seq<MsgV>, m: MsgV)
    requires
        sorted_by_ts(s),
    ensures
        insert_sorted(s, m).len() == s.len() + 1,
        sorted_by_ts(insert_sorted(s, m)),
        insert_sorted(s, m).to_multiset() == s.to_multiset().insert(m),
    decreases s.len(),
{
    broadcast use vstd::seq_lib::group_to_multiset_ensures;

    if s.len() == 0 {
        assert(seq![m] =~= Seq::<MsgV>::empty().push(m));
        assert(Seq::<MsgV>::empty().to_multiset() =~= Multiset::<MsgV>::empty());
    } else if s.last().date_ts <= m.date_ts {
        assert(sorted_by_ts(s.push(m)));
    } else {
        let front = s.drop_last();
        assert(sorted_by_ts(front));
        lemma_insert_sorted_props(front, m);
        let t = insert_sorted(front, m);
        // every element of t is either m or an element of front
        assert forall|i: int, j: int|
            0 <= i <= j < t.push(s.last()).len() implies t.push(s.last())[i].date_ts
            <= t.push(s.last())[j].date_ts by {
            if j < t.len() {
            } else {
                if i < t.len() {
                    lemma_insert_sorted_elems(front, m, i);
                }
            }
        }
        assert(front.push(s.last()) =~= s);
        assert(front.push(s.last()).to_multiset() == front.to_multiset().insert(s.last()));
        assert(s.to_multiset().insert(m) =~= front.to_multiset().insert(s.last()).insert(m));
        assert(front.to_multiset().insert(m).insert(s.last()) =~= front.to_multiset().insert(
            s.last(),
        ).insert(m));
    }
}

/// Each element of a stable insertion is the new message or came from the
/// input.
proof fn lemma_insert_sorted_elems(s: Seq<MsgV>, m: MsgV, i: int)
    requires
        0 <= i < insert_sorted(s, m).len(),
    ensures
        insert_sorted(s, m)[i] == m || s.contains(insert_sorted(s, m)[i]),
    decreases s.len(),
{
    if s.len() == 0 {
    } else if s.last().date_ts <= m.date_ts {
        if i < s.len() {
            assert(s.contains(s[i]));
        }
    } else {
        let t = insert_sorted(s.drop_last(), m);
        if i < t.len() {
            lemma_insert_sorted_elems(s.drop_last(), m, i);
            if t[i] != m {
                let w = choose|w: int| 0 <= w < s.drop_last().len() && s.drop_last()[w] == t[i];
                assert(s[w] == t[i]);
            }
        } else {
            assert(insert_sorted(s, m)[i] == s.last());
            assert(s.contains(s.last()));
        }
    }
}

/// The stable sort sorts, keeps the length, and keeps the multiset of
/// messages.
pub proof fn lemma_sort_by_ts_props(s: Seq<MsgV>)
    ensures
        sort_by_ts(s).len() == s.len(),
        sorted_by_ts(sort_by_ts(s)),
        sort_by_ts(s).to_multiset() == s.to_multiset(),
    decreases s.len(),
{
    broadcast use vstd::seq_lib::group_to_multiset_ensures;

    if s.len() == 0 {
    } else {
        lemma_sort_by_ts_props(s.drop_last());
        lemma_insert_sorted_props(sort_by_ts(s.drop_last()), s.last());
        assert(s.drop_last().push(s.last()) =~= s);
    }
}

/// A sorted sequence with the new message inserted at the first position
/// whose timestamp is later equals the stable insertion.
proof fn lemma_insert_sorted_at(s: Seq<MsgV>, m: MsgV, pos: int)
    requires
        sorted_by_ts(s),
        0 <= pos <= s.len(),
        forall|j: int| 0 <= j < pos ==> s[j].date_ts <= m.date_ts,
        pos < s.len() ==> s[pos].date_ts > m.date_ts,
    ensures
        insert_sorted(s, m) == s.insert(pos, m),
    decreases s.len(),
{
    if pos == s.len() {
        if s.len() == 0 {
            assert(seq![m] =~= s.insert(0, m));
        } else {
            assert(insert_sorted(s, m) == s.push(m));
            assert(s.push(m) =~= s.insert(pos, m));
        }
    } else {
        assert(s.last().date_ts >= s[pos].date_ts);
        let front = s.drop_last();
        assert(sorted_by_ts(front));
        lemma_insert_sorted_at(front, m, pos);
        front.insert_ensures(pos, m);
        s.insert_ensures(pos, m);
        assert(front.insert(pos, m).push(s.last()) =~= s.insert(pos, m));
    }
}

/// `out` is the burst of `s` starting at index `a`: a maximal cohesive run,
/// no cohesive run anywhere in `s` is longer, and every equally long one
/// starts at `a` or later.
pub open spec fn longest_burst_at(s: Seq<MsgV>, out: Seq<MsgV>, a: int, gap: u64) -> bool {
    let n = out.len() as int;
    &&& 0 <= a
    &&& a + n <= s.len()
    &&& n >= 1
    &&& out == s.subrange(a, a + n)
    &&& cohesive(s, a, a + n - 1, gap)
    &&& (a == 0 || s[a].date_ts - s[a - 1].date_ts >= gap)
    &&& (a + n == s.len() || s[a + n].date_ts - s[a + n - 1].date_ts >= gap)
    &&& forall|x: int, y: int|
        0 <= x <= y < s.len() && cohesive(s, x, y, gap) ==> y - x + 1 <= n
    &&& forall|x: int, y: int|
        0 <= x <= y < s.len() && cohesive(s, x, y, gap) && y - x + 1 == n ==> x >= a
}

impl Chat {
    /// The destructive pre-filtering step that precedes aggregation: keeps
    /// only messages whose timestamp lies in the inclusive range, then sorts
    /// them chronologically; the sort is stable, so messages with equal
    /// timestamps keep their input order.
    #[verifier::loop_isolation(false)]
    pub fn retain_by_date(&mut self, start: u64, end: u64)
        ensures
            final(self).messages.deep_view() == sort_by_ts(
                old(self).messages.deep_view().filter(|m: MsgV| in_range(m, start, end)),
            ),
            sorted_by_ts(final(self).messages.deep_view()),
            final(self).messages.deep_view().to_multiset() == old(self).messages.deep_view()
                .filter(|m: MsgV| in_range(m, start, end)).to_multiset(),
            final(self).id == old(self).id,
            final(self).name == old(self).name,
            final(self).kind == old(self).kind,
    {
        broadcast use crate::model::lemma_vec_deep_view;

        let ghost s0 = self.messages.deep_view();
        let ghost p = |m: MsgV| in_range(m, start, end);
        let mut kept: Vec<Message> = Vec::new();
        let n = self.messages.len();
        for i in 0..n
            invariant
                kept.deep_view() == s0.take(i as int).filter(p),
        {
            proof {
                lemma_filter_take_step(s0, p, i as int);
                assert(s0[i as int] == self.messages@[i as int].deep_view());
            }
            if self.messages[i].date_ts >= start && self.messages[i].date_ts <= end {
                push_clone(&mut kept, &self.messages[i]);
            }
        }
        proof {
            lemma_take_full(s0);
        }
        let ghost f = s0.filter(p);
        let mut sorted_msgs: Vec<Message> = Vec::new();
        let kn = kept.len();
        for i in 0..kn
            invariant
                kn == kept@.len(),
                f == kept.deep_view(),
                sorted_msgs.deep_view() == sort_by_ts(f.take(i as int)),
        {
            proof {
                lemma_sort_by_ts_props(f.take(i as int));
                assert(f[i as int] == kept@[i as int].deep_view());
            }
            let ghost dv = sorted_msgs.deep_view();
            let m_ts = kept[i].date_ts;
            let sn = sorted_msgs.len();
            let mut pos: usize = 0;
            while pos < sn && sorted_msgs[pos].date_ts <= m_ts
                invariant
                    sn == sorted_msgs@.len(),
                    pos <= sn,
                    forall|j: int| 0 <= j < pos ==> dv[j].date_ts <= m_ts,
                decreases sn - pos,
            {
                proof {
                    assert(dv[pos as int] == sorted_msgs@[pos as int].deep_view());
                }
                pos = pos + 1;
            }
            proof {
                if pos < sn {
                    assert(dv[pos as int] == sorted_msgs@[pos as int].deep_view());
                }
                lemma_insert_sorted_at(dv, f[i as int], pos as int);
                assert(f.take(i + 1).drop_last() =~= f.take(i as int));
            }
            insert_clone(&mut sorted_msgs, pos, &kept[i]);
        }
        proof {
            lemma_take_full(f);
            lemma_sort_by_ts_props(f);
        }
        self.messages = sorted_msgs;
    }

    /// All messages whose extracted text matches the pattern, in input order.
    pub fn occurrences(&self, search: &SearchPattern) -> (r: Vec<Message>)
        ensures
            r.deep_view() == self.messages.deep_view().filter(
                |m: MsgV| is_occurrence(m, search.pattern()),
            ),
    {
        broadcast use crate::model::lemma_vec_deep_view;

        let ghost s = self.messages.deep_view();
        let ghost p = |m: MsgV| is_occurrence(m, search.pattern());
        let mut out: Vec<Message> = Vec::new();
        let n = self.messages.len();
        for i in 0..n
            invariant
                n == self.messages@.len(),
                s == self.messages.deep_view(),
                p == (|m: MsgV| is_occurrence(m, search.pattern())),
                out.deep_view() == s.take(i as int).filter(p),
        {
            proof {
                lemma_filter_take_step(s, p, i as int);
            }
            let text = DataPreparer::message_text_to_string(&self.messages[i].text);
            if search.is_match(text.as_str()) {
                push_clone(&mut out, &self.messages[i]);
            }
        }
        proof {
            lemma_take_full(s);
        }
        out
    }

    /// All call messages (action equal to the call sentinel), in input order.
    pub fn calls(&self) -> (r: Vec<Message>)
        ensures
            r.deep_view() == self.messages.deep_view().filter(|m: MsgV| is_call(m)),
    {
        broadcast use crate::model::lemma_vec_deep_view;

        let ghost s = self.messages.deep_view();
        let ghost p = |m: MsgV| is_call(m);
        let mut out: Vec<Message> = Vec::new();
        let n = self.messages.len();
        for i in 0..n
            invariant
                n == self.messages@.len(),
                s == self.messages.deep_view(),
                p == (|m: MsgV| is_call(m)),
                out.deep_view() == s.take(i as int).filter(p),
        {
            proof {
                lemma_filter_take_step(s, p, i as int);
            }
            let matches_action = match &self.messages[i].action {
                Some(a) => str_eq(a.as_str(), "phone_call"),
                None => false,
            };
            if matches_action {
                push_clone(&mut out, &self.messages[i]);
            }
        }
        proof {
            lemma_take_full(s);
        }
        out
    }

    /// The longest conversation burst: the longest run of messages in which
    /// each message follows its predecessor by strictly less than
    /// `gap_seconds`. Requires chronologically sorted input. Ties by length
    /// keep the earliest burst; the final open burst takes part in the
    /// comparison like any closed one.
    #[verifier::rlimit(100)]
    pub fn longest_conversation(&self, gap_seconds: u64) -> (r: Vec<Message>)
        requires
            sorted_by_ts(self.messages.deep_view()),
        ensures
            self.messages.deep_view().len() == 0 ==> r.deep_view().len() == 0,
            self.messages.deep_view().len() > 0 ==> exists|a: int|
                longest_burst_at(self.messages.deep_view(), r.deep_view(), a, gap_seconds),
    {
        broadcast use crate::model::lemma_vec_deep_view;

        let ghost s = self.messages.deep_view();
        let n = self.messages.len();
        let mut out: Vec<Message> = Vec::new();
        if n == 0 {
            return out;
        }
        // Scan for burst boundaries; cs is the open burst's start, [bs, bs+bn)
        // the best closed burst so far.
        let mut cs: usize = 0;
        let mut bs: usize = 0;
        let mut bn: usize = 0;
        let mut i: usize = 1;
        while i < n
            invariant
                n == self.messages@.len(),
                s == self.messages.deep_view(),
                sorted_by_ts(s),
                1 <= i <= n,
                cs < i,
                cs == 0 || s[cs as int].date_ts - s[cs - 1].date_ts >= gap_seconds,
                cohesive(s, cs as int, i - 1, gap_seconds),
                bn == 0 ==> cs == 0,
                bn > 0 ==> {
                    &&& bs + bn <= cs
                    &&& cohesive(s, bs as int, bs + bn - 1, gap_seconds)
                    &&& (bs == 0 || s[bs as int].date_ts - s[bs - 1].date_ts >= gap_seconds)
                    &&& s[bs + bn].date_ts - s[bs + bn - 1].date_ts >= gap_seconds
                },
                forall|x: int, y: int|
                    0 <= x <= y < cs && cohesive(s, x, y, gap_seconds) ==> y - x + 1 <= bn as int,
                forall|x: int, y: int|
                    0 <= x <= y < cs && cohesive(s, x, y, gap_seconds) && y - x + 1 == bn as int
                        ==> x >= bs as int,
                forall|x: int, y: int|
                    0 <= x <= y < s.len() && cohesive(s, x, y, gap_seconds) && x < cs ==> y < cs,
            decreases n - i,
        {
            proof {
                assert(s[i as int] == self.messages@[i as int].deep_view());
                assert(s[i - 1] == self.messages@[i - 1].deep_view());
            }
            if self.messages[i].date_ts - self.messages[i - 1].date_ts >= gap_seconds {
                // the burst [cs, i-1] closes here
                if i - cs > bn {
                    bs = cs;
                    bn = i - cs;
                }
                cs = i;
            }
            i = i + 1;
        }
        // the final open burst [cs, n-1] takes part in the comparison
        let ghost obs = bs as int;
        let ghost obn = bn as int;
        if n - cs > bn {
            bs = cs;
            bn = n - cs;
        }
        let ghost a = bs as int;
        let ghost nn = bn as int;
        proof {
            assert(nn >= 1);
            assert(cohesive(s, a, a + nn - 1, gap_seconds));
            assert forall|x: int, y: int|
                0 <= x <= y < s.len() && cohesive(s, x, y, gap_seconds) implies y - x + 1
                <= nn by {
                if y < cs as int {
                    assert(y - x + 1 <= obn);
                } else {
                    assert(x >= cs as int);
                }
            }
            assert forall|x: int, y: int|
                0 <= x <= y < s.len() && cohesive(s, x, y, gap_seconds) && y - x + 1 == nn
                implies x >= a by {
                if y < cs as int {
                    assert(y - x + 1 <= obn);
                    if n - cs > obn {
                        assert(false);
                    } else {
                        assert(x >= obs);
                    }
                } else {
                    assert(x >= cs as int);
                    if n - cs <= obn {
                        assert(obn > 0);
                        assert(obs + obn <= cs as int);
                    }
                }
            }
            assert(out.deep_view() =~= s.subrange(a, a));
        }
        let mut k: usize = bs;
        while k < bs + bn
            invariant
                n == self.messages@.len(),
                s == self.messages.deep_view(),
                a == bs as int,
                nn == bn as int,
                bs + bn <= n,
                bs <= k <= bs + bn,
                out.deep_view() == s.subrange(bs as int, k as int),
            decreases bs + bn - k,
        {
            proof {
                assert(s[k as int] == self.messages@[k as int].deep_view());
            }
            push_clone(&mut out, &self.messages[k]);
            proof {
                assert(s.subrange(a, k as int).push(s[k as int]) =~= s.subrange(a, k + 1));
            }
            k = k + 1;
        }
        proof {
            assert(out.deep_view() == s.subrange(a, a + nn));
            assert(longest_burst_at(s, out.deep_view(), a, gap_seconds));
        }
        out
    }
}

} // verus!
