//! Laws of the engine, stated and proved once and for all: the owner/member
//! partition of the message count, the representation-invariance of the text
//! extractor, and the determinism of the full report.

use vstd::prelude::*;

use crate::basic::{dur_of, first_at, has_sender, is_member, is_owner, last_at, longest_call_at,
    longest_call_ok};
use crate::emoji::{all_emojis, first_max_in_table, top_emoji_ok};
use crate::model::{EntityV, MinimalMessage, MsgV, TextV, frags_text, minimal_of, text_of};
use crate::select::{cohesive, longest_burst_at};
use crate::stats::{AllStats, MessagesStats, ReportConfig, all_stats_ok, report_input};
use crate::sticker::{sticker_leader_at, sticker_result_ok};
use crate::streak::{Streak, days_covered, streak_ok};
use crate::tally::tally;
use crate::basic::Party;

verus! {

// ---------------------------------------------------------------------------
// The owner/member partition
// ---------------------------------------------------------------------------

/// Every message set splits exactly: the total message count is the owner's
/// count plus the members' count plus the count of messages with no sender.
pub proof fn lemma_message_count_partition(s: Seq<MsgV>, owner: Seq<char>)
    ensures
        s.len() == s.filter(|m: MsgV| is_owner(m, owner)).len() + s.filter(
            |m: MsgV| is_member(m, owner),
        ).len() + s.filter(|m: MsgV| !has_sender(m)).len(),
    decreases s.len(),
{
    reveal(Seq::filter);
    if s.len() > 0 {
        lemma_message_count_partition(s.drop_last(), owner);
    }
}

// ---------------------------------------------------------------------------
// Representation invariance of the text extractor
// ---------------------------------------------------------------------------

/// A fragmented payload and the plain payload holding its concatenation
/// extract to the same text, so every character count agrees between the two
/// representations.
pub proof fn lemma_char_count_representation(es: Seq<EntityV>)
    ensures
        text_of(TextV::Plain(frags_text(es))) == text_of(TextV::Entities(es)),
        text_of(TextV::Plain(frags_text(es))).len() == text_of(TextV::Entities(es)).len(),
{
}

/// Flattening is idempotent: extracting a payload that holds an already
/// extracted text gives that text back unchanged.
pub proof fn lemma_extract_round_trip(t: TextV)
    ensures
        text_of(TextV::Plain(text_of(t))) == text_of(t),
{
}

// ---------------------------------------------------------------------------
// Determinism of the full report
// ---------------------------------------------------------------------------

/// Two reporting snapshots carry the same values.
pub open spec fn minimal_opt_eq(a: Option<MinimalMessage>, b: Option<MinimalMessage>) -> bool {
    match (a, b) {
        (None, None) => true,
        (Some(x), Some(y)) => x.deep_view() == y.deep_view(),
        _ => false,
    }
}

/// Two optional strings carry the same characters.
pub open spec fn opt_string_eq(a: Option<String>, b: Option<String>) -> bool {
    match (a, b) {
        (None, None) => true,
        (Some(x), Some(y)) => x@ == y@,
        _ => false,
    }
}

/// Two message-count statistics carry the same values.
pub open spec fn messages_stats_eq(a: MessagesStats, b: MessagesStats) -> bool {
    &&& a.total_messages_count == b.total_messages_count
    &&& a.owner_messages_count == b.owner_messages_count
    &&& a.member_messages_count == b.member_messages_count
    &&& minimal_opt_eq(a.first_message, b.first_message)
    &&& minimal_opt_eq(a.last_message, b.last_message)
}

/// Two full reports carry the same values everywhere.
pub open spec fn reports_eq(a: AllStats, b: AllStats) -> bool {
    &&& a.year == b.year
    &&& a.source_dir@ == b.source_dir@
    &&& messages_stats_eq(a.chat_stats.messages_stats, b.chat_stats.messages_stats)
    &&& a.chat_stats.additional_messages_stats.total_characters_count
        == b.chat_stats.additional_messages_stats.total_characters_count
    &&& a.chat_stats.additional_messages_stats.owner_characters_count
        == b.chat_stats.additional_messages_stats.owner_characters_count
    &&& a.chat_stats.additional_messages_stats.member_characters_count
        == b.chat_stats.additional_messages_stats.member_characters_count
    &&& messages_stats_eq(a.occurrences, b.occurrences)
    &&& messages_stats_eq(a.longest_conversation, b.longest_conversation)
    &&& a.calls_stats.total_calls_durations_sec == b.calls_stats.total_calls_durations_sec
    &&& a.calls_stats.total_calls_durations_min == b.calls_stats.total_calls_durations_min
    &&& minimal_opt_eq(
        a.calls_stats.longest_call_durations_min,
        b.calls_stats.longest_call_durations_min,
    )
    &&& a.most_used_sticker.owner_most_used_sticker_count
        == b.most_used_sticker.owner_most_used_sticker_count
    &&& minimal_opt_eq(
        a.most_used_sticker.owner_most_used_sticker,
        b.most_used_sticker.owner_most_used_sticker,
    )
    &&& a.most_used_sticker.member_most_used_sticker_count
        == b.most_used_sticker.member_most_used_sticker_count
    &&& minimal_opt_eq(
        a.most_used_sticker.member_most_used_sticker,
        b.most_used_sticker.member_most_used_sticker,
    )
    &&& opt_string_eq(a.emoji_stats.top_emoji, b.emoji_stats.top_emoji)
    &&& a.emoji_stats.top_emoji_count == b.emoji_stats.top_emoji_count
    &&& a.word_stats.top_words.deep_view() == b.word_stats.top_words.deep_view()
    &&& a.streak == b.streak
}

/// The earliest position is unique.
proof fn lemma_first_at_unique(s: Seq<MsgV>, i: int, j: int)
    requires
        first_at(s, i),
        first_at(s, j),
    ensures
        i == j,
{
    if i < j {
        assert(s[j].date_ts < s[i].date_ts);
        assert(s[i].date_ts <= s[j].date_ts);
    }
    if j < i {
        assert(s[i].date_ts < s[j].date_ts);
        assert(s[j].date_ts <= s[i].date_ts);
    }
}

/// The latest position is unique.
proof fn lemma_last_at_unique(s: Seq<MsgV>, i: int, j: int)
    requires
        last_at(s, i),
        last_at(s, j),
    ensures
        i == j,
{
    if i < j {
        assert(s[j].date_ts < s[i].date_ts);
        assert(s[j].date_ts <= s[i].date_ts);
        assert(s[i].date_ts <= s[j].date_ts);
    }
    if j < i {
        assert(s[i].date_ts < s[j].date_ts);
        assert(s[i].date_ts <= s[j].date_ts);
        assert(s[j].date_ts <= s[i].date_ts);
    }
}

/// Message-count statistics are a function of their input.
proof fn lemma_messages_stats_unique(a: MessagesStats, b: MessagesStats, s: Seq<MsgV>, owner: Seq<
    char,
>)
    requires
        crate::stats::messages_stats_ok(a, s, owner),
        crate::stats::messages_stats_ok(b, s, owner),
    ensures
        messages_stats_eq(a, b),
{
    match (a.first_message, b.first_message) {
        (Some(x), Some(y)) => {
            let i = choose|i: int| #[trigger] first_at(s, i) && x.deep_view() == minimal_of(s[i]);
            let j = choose|j: int| #[trigger] first_at(s, j) && y.deep_view() == minimal_of(s[j]);
            lemma_first_at_unique(s, i, j);
        }
        _ => {}
    }
    match (a.last_message, b.last_message) {
        (Some(x), Some(y)) => {
            let i = choose|i: int| #[trigger] last_at(s, i) && x.deep_view() == minimal_of(s[i]);
            let j = choose|j: int| #[trigger] last_at(s, j) && y.deep_view() == minimal_of(s[j]);
            lemma_last_at_unique(s, i, j);
        }
        _ => {}
    }
}

/// The longest burst is unique.
proof fn lemma_burst_unique(s: Seq<MsgV>, b1: Seq<MsgV>, a1: int, b2: Seq<MsgV>, a2: int, gap: u64)
    requires
        longest_burst_at(s, b1, a1, gap),
        longest_burst_at(s, b2, a2, gap),
    ensures
        b1 == b2,
        a1 == a2,
{
    assert(cohesive(s, a1, a1 + b1.len() - 1, gap));
    assert(cohesive(s, a2, a2 + b2.len() - 1, gap));
    assert(b1.len() <= b2.len());
    assert(b2.len() <= b1.len());
    assert(a1 >= a2);
    assert(a2 >= a1);
}

/// The longest call is a function of its input.
proof fn lemma_longest_call_unique(
    a: Option<MinimalMessage>,
    b: Option<MinimalMessage>,
    s: Seq<MsgV>,
)
    requires
        longest_call_ok(a, s),
        longest_call_ok(b, s),
    ensures
        minimal_opt_eq(a, b),
{
    match (a, b) {
        (Some(x), Some(y)) => {
            let i = choose|i: int| #[trigger] longest_call_at(s, i, x);
            let j = choose|j: int| #[trigger] longest_call_at(s, j, y);
            if i < j {
                assert(dur_of(s[i]) < dur_of(s[j]));
                assert(dur_of(s[j]) <= dur_of(s[i]));
            }
            if j < i {
                assert(dur_of(s[j]) < dur_of(s[i]));
                assert(dur_of(s[i]) <= dur_of(s[j]));
            }
        }
        (Some(x), None) => {
            let i = choose|i: int| #[trigger] longest_call_at(s, i, x);
            assert(0 <= i < s.len());
        }
        (None, Some(y)) => {
            let j = choose|j: int| #[trigger] longest_call_at(s, j, y);
            assert(0 <= j < s.len());
        }
        (None, None) => {}
    }
}

/// The sticker leader is a function of its input.
proof fn lemma_sticker_unique(
    c1: u64,
    l1: Option<MinimalMessage>,
    c2: u64,
    l2: Option<MinimalMessage>,
    s: Seq<MsgV>,
    owner: Seq<char>,
    party: Party,
    ph: Seq<char>,
)
    requires
        sticker_result_ok(c1, l1, s, owner, party, ph),
        sticker_result_ok(c2, l2, s, owner, party, ph),
    ensures
        c1 == c2,
        minimal_opt_eq(l1, l2),
{
    let m = crate::sticker::max_run(s, s.len() as int, owner, party, ph);
    match (l1, l2) {
        (Some(x), Some(y)) => {
            let i = choose|i: int|
                #[trigger] sticker_leader_at(s, owner, party, ph, i, m) && x.deep_view()
                    == minimal_of(s[i]);
            let j = choose|j: int|
                #[trigger] sticker_leader_at(s, owner, party, ph, j, m) && y.deep_view()
                    == minimal_of(s[j]);
            if i < j {
                assert(crate::tally::occ(
                    crate::sticker::sticker_keys(s.take(i + 1), owner, party, ph),
                    crate::sticker::key_of(s[i], ph),
                ) < m);
            }
            if j < i {
                assert(crate::tally::occ(
                    crate::sticker::sticker_keys(s.take(j + 1), owner, party, ph),
                    crate::sticker::key_of(s[j], ph),
                ) < m);
            }
        }
        _ => {}
    }
}

/// The top emoji is a function of its input.
proof fn lemma_emoji_unique(
    e1: Option<String>,
    c1: u64,
    e2: Option<String>,
    c2: u64,
    s: Seq<MsgV>,
)
    requires
        top_emoji_ok(e1, c1, s),
        top_emoji_ok(e2, c2, s),
    ensures
        opt_string_eq(e1, e2),
        c1 == c2,
{
    let items = all_emojis(s);
    let t = tally(items);
    match (e1, e2) {
        (Some(x), Some(y)) => {
            let i = choose|i: int|
                #[trigger] first_max_in_table(t, i, c1 as int) && t[i].key == x@;
            let j = choose|j: int|
                #[trigger] first_max_in_table(t, j, c2 as int) && t[j].key == y@;
            assert(t[i].count <= c2 as int);
            assert(t[j].count <= c1 as int);
            if i < j {
                assert(t[i].count < c2 as int);
            }
            if j < i {
                assert(t[j].count < c1 as int);
            }
        }
        (Some(x), None) => {
            let i = choose|i: int|
                #[trigger] first_max_in_table(t, i, c1 as int) && t[i].key == x@;
            crate::tally::lemma_tally_props(items);
        }
        (None, Some(y)) => {
            let j = choose|j: int|
                #[trigger] first_max_in_table(t, j, c2 as int) && t[j].key == y@;
            crate::tally::lemma_tally_props(items);
        }
        (None, None) => {}
    }
}

/// The best streak is a function of its input.
proof fn lemma_streak_unique(a: Streak, b: Streak, s: Seq<MsgV>)
    requires
        streak_ok(s, a),
        streak_ok(s, b),
    ensures
        a == b,
{
    assert(days_covered(s, a.start as int, a.end as int));
    assert(days_covered(s, b.start as int, b.end as int));
    assert(a.count <= b.count);
    assert(b.count <= a.count);
    assert(a.start >= b.start);
    assert(b.start >= a.start);
}

/// Running the full report assembler twice on the same input produces the
/// same report, value for value: nothing in the pipeline depends on hidden
/// state such as map iteration order.
pub proof fn lemma_report_deterministic(r1: AllStats, r2: AllStats, s0: Seq<MsgV>, cfg: ReportConfig)
    requires
        all_stats_ok(r1, s0, cfg),
        all_stats_ok(r2, s0, cfg),
    ensures
        reports_eq(r1, r2),
{
    let fs = report_input(s0, cfg.range_start, cfg.range_end);
    lemma_messages_stats_unique(
        r1.chat_stats.messages_stats,
        r2.chat_stats.messages_stats,
        fs,
        cfg.owner_id@,
    );
    lemma_messages_stats_unique(
        r1.occurrences,
        r2.occurrences,
        fs.filter(|m: MsgV| crate::select::is_occurrence(m, cfg.search.pattern())),
        cfg.owner_id@,
    );
    if fs.len() == 0 {
        lemma_messages_stats_unique(
            r1.longest_conversation,
            r2.longest_conversation,
            Seq::<MsgV>::empty(),
            cfg.owner_id@,
        );
    } else {
        let (b1, a1) = choose|b: Seq<MsgV>, a: int|
            #[trigger] longest_burst_at(fs, b, a, cfg.gap_seconds)
                && crate::stats::messages_stats_ok(r1.longest_conversation, b, cfg.owner_id@);
        let (b2, a2) = choose|b: Seq<MsgV>, a: int|
            #[trigger] longest_burst_at(fs, b, a, cfg.gap_seconds)
                && crate::stats::messages_stats_ok(r2.longest_conversation, b, cfg.owner_id@);
        lemma_burst_unique(fs, b1, a1, b2, a2, cfg.gap_seconds);
        lemma_messages_stats_unique(
            r1.longest_conversation,
            r2.longest_conversation,
            b1,
            cfg.owner_id@,
        );
    }
    lemma_longest_call_unique(
        r1.calls_stats.longest_call_durations_min,
        r2.calls_stats.longest_call_durations_min,
        fs.filter(|m: MsgV| crate::select::is_call(m)),
    );
    lemma_sticker_unique(
        r1.most_used_sticker.owner_most_used_sticker_count,
        r1.most_used_sticker.owner_most_used_sticker,
        r2.most_used_sticker.owner_most_used_sticker_count,
        r2.most_used_sticker.owner_most_used_sticker,
        fs,
        cfg.owner_id@,
        Party::Owner,
        cfg.sticker_placeholder@,
    );
    lemma_sticker_unique(
        r1.most_used_sticker.member_most_used_sticker_count,
        r1.most_used_sticker.member_most_used_sticker,
        r2.most_used_sticker.member_most_used_sticker_count,
        r2.most_used_sticker.member_most_used_sticker,
        fs,
        cfg.owner_id@,
        Party::Member,
        cfg.sticker_placeholder@,
    );
    lemma_emoji_unique(
        r1.emoji_stats.top_emoji,
        r1.emoji_stats.top_emoji_count,
        r2.emoji_stats.top_emoji,
        r2.emoji_stats.top_emoji_count,
        fs,
    );
    match (r1.streak, r2.streak) {
        (Some(a), Some(b)) => {
            lemma_streak_unique(a, b, fs);
        }
        _ => {}
    }
}

} // verus!
