//! The report: per-component statistics structures, each computed by a
//! single pass over the filtered message set, and the assembler that
//! composes the full report.

use vstd::prelude::*;

use crate::basic::{Party, first_at, is_member, is_owner, last_at, longest_call_ok, party_matches,
    total_chars, total_duration, lemma_total_chars_filter_le};
use crate::emoji::{all_emojis, top_emoji_ok};
use crate::errors::StatisticError;
use crate::model::{Chat, DataPreparer, Message, MinimalMessage, MsgV, minimal_of};
use crate::pattern::SearchPattern;
use crate::select::{in_range, is_call, is_occurrence, longest_burst_at, sort_by_ts, sorted_by_ts};
use crate::seq_util::{lemma_filter_take_step, lemma_take_full};
use crate::sticker::sticker_result_ok;
use crate::streak::{Streak, streak_ok};
use crate::words::{WordCount, all_word_items, top_words_ok};

verus! {

// ---------------------------------------------------------------------------
// Message counts
// ---------------------------------------------------------------------------

/// First/last message snapshots and the owner/member count split.
pub struct MessagesStats {
    pub first_message: Option<MinimalMessage>,
    pub last_message: Option<MinimalMessage>,
    pub total_messages_count: usize,
    pub owner_messages_count: usize,
    pub member_messages_count: usize,
}

/// What `MessagesStats::get_stats` computes over `s`.
pub open spec fn messages_stats_ok(st: MessagesStats, s: Seq<MsgV>, owner: Seq<char>) -> bool {
    &&& st.total_messages_count == s.len()
    &&& st.owner_messages_count == s.filter(|m: MsgV| is_owner(m, owner)).len()
    &&& st.member_messages_count == s.filter(|m: MsgV| is_member(m, owner)).len()
    &&& (st.first_message is None <==> s.len() == 0)
    &&& (st.last_message is None <==> s.len() == 0)
    &&& (st.first_message matches Some(mm) ==> exists|i: int|
        #[trigger] first_at(s, i) && mm.deep_view() == minimal_of(s[i]))
    &&& (st.last_message matches Some(mm) ==> exists|i: int|
        #[trigger] last_at(s, i) && mm.deep_view() == minimal_of(s[i]))
}

impl MessagesStats {
    /// Counts all messages and the owner/member split, and snapshots the
    /// earliest and latest message.
    pub fn get_stats(msgs: &Vec<Message>, owner_id: &str) -> (r: Result<
        MessagesStats,
        StatisticError,
    >)
        ensures
            r matches Ok(st) && messages_stats_ok(st, msgs.deep_view(), owner_id@),
    {
        broadcast use crate::model::lemma_vec_deep_view;

        let ghost s = msgs.deep_view();
        let ghost po = |m: MsgV| is_owner(m, owner_id@);
        let ghost pm = |m: MsgV| is_member(m, owner_id@);
        let mut owner_count: usize = 0;
        let mut member_count: usize = 0;
        let n = msgs.len();
        for i in 0..n
            invariant
                n == msgs@.len(),
                s == msgs.deep_view(),
                po == (|m: MsgV| is_owner(m, owner_id@)),
                pm == (|m: MsgV| is_member(m, owner_id@)),
                owner_count == s.take(i as int).filter(po).len(),
                member_count == s.take(i as int).filter(pm).len(),
                owner_count + member_count <= i,
        {
            proof {
                lemma_filter_take_step(s, po, i as int);
                lemma_filter_take_step(s, pm, i as int);
            }
            if DataPreparer::matches_party(&msgs[i], owner_id, Party::Owner) {
                owner_count = owner_count + 1;
            } else if DataPreparer::matches_party(&msgs[i], owner_id, Party::Member) {
                member_count = member_count + 1;
            }
        }
        proof {
            lemma_take_full(s);
        }
        let first_message = match DataPreparer::first_message(msgs) {
            None => None,
            Some(i) => Some(MinimalMessage::snapshot(&msgs[i])),
        };
        let last_message = match DataPreparer::last_message(msgs) {
            None => None,
            Some(i) => Some(MinimalMessage::snapshot(&msgs[i])),
        };
        Ok(
            MessagesStats {
                first_message,
                last_message,
                total_messages_count: msgs.len(),
                owner_messages_count: owner_count,
                member_messages_count: member_count,
            },
        )
    }
}

// ---------------------------------------------------------------------------
// Character counts
// ---------------------------------------------------------------------------

/// The character-count split.
pub struct AdditionalMessagesStats {
    pub total_characters_count: usize,
    pub owner_characters_count: usize,
    pub member_characters_count: usize,
}

/// What `AdditionalMessagesStats::get_stats` computes over `s`.
pub open spec fn additional_stats_ok(
    st: AdditionalMessagesStats,
    s: Seq<MsgV>,
    owner: Seq<char>,
) -> bool {
    &&& st.total_characters_count == total_chars(s)
    &&& st.owner_characters_count == total_chars(s.filter(|m: MsgV| is_owner(m, owner)))
    &&& st.member_characters_count == total_chars(s.filter(|m: MsgV| is_member(m, owner)))
}

impl AdditionalMessagesStats {
    /// Counts unicode characters over all messages and per participant
    /// group.
    pub fn get_stats(msgs: &Vec<Message>, owner_id: &str) -> (r: Result<
        AdditionalMessagesStats,
        StatisticError,
    >)
        requires
            total_chars(msgs.deep_view()) <= usize::MAX,
        ensures
            r matches Ok(st) && additional_stats_ok(st, msgs.deep_view(), owner_id@),
    {
        let ghost s = msgs.deep_view();
        proof {
            crate::seq_util::lemma_filter_congruence(
                s,
                |m: MsgV| party_matches(Party::Owner, m, owner_id@),
                |m: MsgV| is_owner(m, owner_id@),
            );
            crate::seq_util::lemma_filter_congruence(
                s,
                |m: MsgV| party_matches(Party::Member, m, owner_id@),
                |m: MsgV| is_member(m, owner_id@),
            );
            lemma_total_chars_filter_le(s, |m: MsgV| is_owner(m, owner_id@));
            lemma_total_chars_filter_le(s, |m: MsgV| is_member(m, owner_id@));
        }
        let total = match DataPreparer::character_count(msgs) {
            Ok(c) => c,
            Err(e) => {
                return Err(StatisticError::FailedToGetData(e));
            }
        };
        let owner_chars = match DataPreparer::character_count_filtered(
            msgs,
            owner_id,
            Party::Owner,
        ) {
            Ok(c) => c,
            Err(e) => {
                return Err(StatisticError::FailedToGetData(e));
            }
        };
        let member_chars = match DataPreparer::character_count_filtered(
            msgs,
            owner_id,
            Party::Member,
        ) {
            Ok(c) => c,
            Err(e) => {
                return Err(StatisticError::FailedToGetData(e));
            }
        };
        Ok(
            AdditionalMessagesStats {
                total_characters_count: total,
                owner_characters_count: owner_chars,
                member_characters_count: member_chars,
            },
        )
    }
}

// ---------------------------------------------------------------------------
// Chat-level statistics
// ---------------------------------------------------------------------------

/// Message counts and character counts together.
pub struct ChatStats {
    pub messages_stats: MessagesStats,
    pub additional_messages_stats: AdditionalMessagesStats,
}

/// What `ChatStats::get_stats` computes over `s`.
pub open spec fn chat_stats_ok(st: ChatStats, s: Seq<MsgV>, owner: Seq<char>) -> bool {
    &&& messages_stats_ok(st.messages_stats, s, owner)
    &&& additional_stats_ok(st.additional_messages_stats, s, owner)
}

impl ChatStats {
    /// Message counts and character counts over one message set.
    pub fn get_stats(msgs: &Vec<Message>, owner_id: &str) -> (r: Result<ChatStats, StatisticError>)
        requires
            total_chars(msgs.deep_view()) <= usize::MAX,
        ensures
            r matches Ok(st) && chat_stats_ok(st, msgs.deep_view(), owner_id@),
    {
        let messages_stats = match MessagesStats::get_stats(msgs, owner_id) {
            Ok(st) => st,
            Err(e) => {
                return Err(e);
            }
        };
        let additional_messages_stats = match AdditionalMessagesStats::get_stats(msgs, owner_id) {
            Ok(st) => st,
            Err(e) => {
                return Err(e);
            }
        };
        Ok(ChatStats { messages_stats, additional_messages_stats })
    }
}

// ---------------------------------------------------------------------------
// Call statistics
// ---------------------------------------------------------------------------

/// Call-duration totals and the longest call.
pub struct CallsStats {
    pub total_calls_durations_sec: u32,
    pub total_calls_durations_min: u32,
    pub longest_call_durations_min: Option<MinimalMessage>,
}

/// What `CallsStats::get_stats` computes over the call messages `s`.
pub open spec fn calls_stats_ok(st: CallsStats, s: Seq<MsgV>) -> bool {
    &&& st.total_calls_durations_sec == total_duration(s)
    &&& st.total_calls_durations_min == total_duration(s) / 60
    &&& longest_call_ok(st.longest_call_durations_min, s)
}

impl CallsStats {
    /// Sums call durations in seconds and minutes and finds the longest
    /// call.
    pub fn get_stats(calls: &Vec<Message>) -> (r: Result<CallsStats, StatisticError>)
        requires
            total_duration(calls.deep_view()) <= u32::MAX,
        ensures
            r matches Ok(st) && calls_stats_ok(st, calls.deep_view()),
    {
        proof {
            let s = calls.deep_view();
            crate::basic::lemma_total_duration_take_le(s, s.len() as int);
            lemma_take_full(s);
        }
        let duration = match DataPreparer::calls_durations(calls) {
            Ok(d) => d,
            Err(e) => {
                return Err(StatisticError::FailedToGetData(e));
            }
        };
        Ok(
            CallsStats {
                total_calls_durations_sec: duration,
                total_calls_durations_min: duration / 60,
                longest_call_durations_min: DataPreparer::longest_call(calls),
            },
        )
    }
}

// ---------------------------------------------------------------------------
// Sticker statistics
// ---------------------------------------------------------------------------

/// The most-used sticker per participant group.
pub struct MostUsedSticker {
    pub owner_most_used_sticker_count: u64,
    pub owner_most_used_sticker: Option<MinimalMessage>,
    pub member_most_used_sticker_count: u64,
    pub member_most_used_sticker: Option<MinimalMessage>,
}

/// What `MostUsedSticker::get_stats` computes over `s`.
pub open spec fn most_used_sticker_ok(
    st: MostUsedSticker,
    s: Seq<MsgV>,
    owner: Seq<char>,
    ph: Seq<char>,
) -> bool {
    &&& sticker_result_ok(
        st.owner_most_used_sticker_count,
        st.owner_most_used_sticker,
        s,
        owner,
        Party::Owner,
        ph,
    )
    &&& sticker_result_ok(
        st.member_most_used_sticker_count,
        st.member_most_used_sticker,
        s,
        owner,
        Party::Member,
        ph,
    )
}

impl MostUsedSticker {
    /// The leading sticker count and message for the owner and for the
    /// members.
    pub fn get_stats(msgs: &Vec<Message>, owner_id: &str, placeholder: &str) -> (r: Result<
        MostUsedSticker,
        StatisticError,
    >)
        ensures
            r matches Ok(st) && most_used_sticker_ok(
                st,
                msgs.deep_view(),
                owner_id@,
                placeholder@,
            ),
    {
        let owner = DataPreparer::most_used_sticker(msgs, owner_id, Party::Owner, placeholder);
        let member = DataPreparer::most_used_sticker(msgs, owner_id, Party::Member, placeholder);
        Ok(
            MostUsedSticker {
                owner_most_used_sticker_count: owner.0,
                owner_most_used_sticker: owner.1,
                member_most_used_sticker_count: member.0,
                member_most_used_sticker: member.1,
            },
        )
    }
}

// ---------------------------------------------------------------------------
// Emoji and word statistics
// ---------------------------------------------------------------------------

/// The most frequent emoji and its count.
pub struct EmojiStats {
    pub top_emoji: Option<String>,
    pub top_emoji_count: u64,
}

/// The ranked word list.
pub struct WordStats {
    pub top_words: Vec<WordCount>,
}

// ---------------------------------------------------------------------------
// The full report
// ---------------------------------------------------------------------------

/// Everything the report assembler needs besides the messages: the owner
/// identifier, the inclusive date range, the phrase pattern, the
/// conversation-gap threshold, the sticker placeholder sentinel, the
/// stop-word list and the ranking size, plus the year and source directory
/// the report echoes.
pub struct ReportConfig {
    pub owner_id: String,
    pub year: i64,
    pub source_dir: String,
    pub range_start: u64,
    pub range_end: u64,
    pub search: SearchPattern,
    pub gap_seconds: u64,
    pub sticker_placeholder: String,
    pub stop_words: Vec<String>,
    pub top_words_limit: usize,
}

/// The composite analytics report.
pub struct AllStats {
    pub year: i64,
    pub source_dir: String,
    pub chat_stats: ChatStats,
    pub occurrences: MessagesStats,
    pub longest_conversation: MessagesStats,
    pub calls_stats: CallsStats,
    pub most_used_sticker: MostUsedSticker,
    pub emoji_stats: EmojiStats,
    pub word_stats: WordStats,
    pub streak: Option<Streak>,
}

/// The filtered, chronologically sorted message set a report is computed
/// over.
pub open spec fn report_input(s0: Seq<MsgV>, start: u64, end: u64) -> Seq<MsgV> {
    sort_by_ts(s0.filter(|m: MsgV| in_range(m, start, end)))
}

/// What `AllStats::get_stats` computes: every component statistic over the
/// filtered and sorted message set.
pub open spec fn all_stats_ok(st: AllStats, s0: Seq<MsgV>, cfg: ReportConfig) -> bool {
    let fs = report_input(s0, cfg.range_start, cfg.range_end);
    &&& st.year == cfg.year
    &&& st.source_dir@ == cfg.source_dir@
    &&& chat_stats_ok(st.chat_stats, fs, cfg.owner_id@)
    &&& messages_stats_ok(
        st.occurrences,
        fs.filter(|m: MsgV| is_occurrence(m, cfg.search.pattern())),
        cfg.owner_id@,
    )
    &&& (fs.len() == 0 ==> messages_stats_ok(
        st.longest_conversation,
        Seq::<MsgV>::empty(),
        cfg.owner_id@,
    ))
    &&& (fs.len() > 0 ==> exists|b: Seq<MsgV>, a: int|
        #[trigger] longest_burst_at(fs, b, a, cfg.gap_seconds) && messages_stats_ok(
            st.longest_conversation,
            b,
            cfg.owner_id@,
        ))
    &&& calls_stats_ok(st.calls_stats, fs.filter(|m: MsgV| is_call(m)))
    &&& most_used_sticker_ok(st.most_used_sticker, fs, cfg.owner_id@, cfg.sticker_placeholder@)
    &&& top_emoji_ok(st.emoji_stats.top_emoji, st.emoji_stats.top_emoji_count, fs)
    &&& top_words_ok(
        st.word_stats.top_words.deep_view(),
        fs,
        cfg.stop_words.deep_view(),
        cfg.top_words_limit as int,
    )
    &&& (st.streak is None <==> fs.len() == 0)
    &&& (st.streak matches Some(sk) ==> streak_ok(fs, sk))
}

impl AllStats {
    /// Assembles the full report: filters the chat's messages to the
    /// inclusive date range and sorts them chronologically, once, then runs
    /// every aggregator over that set.
    pub fn get_stats(data: Chat, cfg: &ReportConfig) -> (r: Result<AllStats, StatisticError>)
        requires
            ({
                let fs = report_input(data.messages.deep_view(), cfg.range_start, cfg.range_end);
                &&& total_chars(fs) <= usize::MAX
                &&& total_duration(fs.filter(|m: MsgV| is_call(m))) <= u32::MAX
                &&& all_emojis(fs).len() <= u64::MAX
                &&& all_word_items(fs, cfg.stop_words.deep_view()).len() <= u64::MAX
            }),
        ensures
            r matches Ok(st) && all_stats_ok(st, data.messages.deep_view(), *cfg),
    {
        let ghost s0 = data.messages.deep_view();
        let ghost fs = report_input(s0, cfg.range_start, cfg.range_end);
        let mut chat = data;
        chat.retain_by_date(cfg.range_start, cfg.range_end);
        proof {
            assert(chat.messages.deep_view() == fs);
        }
        let owner_id = cfg.owner_id.as_str();
        let chat_stats = match ChatStats::get_stats(&chat.messages, owner_id) {
            Ok(st) => st,
            Err(e) => {
                return Err(e);
            }
        };
        let occ_msgs = chat.occurrences(&cfg.search);
        let occurrences = match MessagesStats::get_stats(&occ_msgs, owner_id) {
            Ok(st) => st,
            Err(e) => {
                return Err(e);
            }
        };
        let conv_msgs = chat.longest_conversation(cfg.gap_seconds);
        let longest_conversation = match MessagesStats::get_stats(&conv_msgs, owner_id) {
            Ok(st) => st,
            Err(e) => {
                return Err(e);
            }
        };
        proof {
            if fs.len() == 0 {
                assert(conv_msgs.deep_view() =~= Seq::<MsgV>::empty());
            } else {
                let a = choose|a: int|
                    longest_burst_at(fs, conv_msgs.deep_view(), a, cfg.gap_seconds);
                assert(longest_burst_at(fs, conv_msgs.deep_view(), a, cfg.gap_seconds));
            }
        }
        let call_msgs = chat.calls();
        let calls_stats = match CallsStats::get_stats(&call_msgs) {
            Ok(st) => st,
            Err(e) => {
                return Err(e);
            }
        };
        let most_used_sticker = match MostUsedSticker::get_stats(
            &chat.messages,
            owner_id,
            cfg.sticker_placeholder.as_str(),
        ) {
            Ok(st) => st,
            Err(e) => {
                return Err(e);
            }
        };
        let emoji = DataPreparer::top_emoji(&chat.messages);
        let emoji_stats = EmojiStats { top_emoji: emoji.0, top_emoji_count: emoji.1 };
        let word_stats = WordStats {
            top_words: DataPreparer::top_words(
                &chat.messages,
                &cfg.stop_words,
                cfg.top_words_limit,
            ),
        };
        let streak = DataPreparer::message_streak(&chat.messages);
        Ok(
            AllStats {
                year: cfg.year,
                source_dir: cfg.source_dir.clone(),
                chat_stats,
                occurrences,
                longest_conversation,
                calls_stats,
                most_used_sticker,
                emoji_stats,
                word_stats,
                streak,
            },
        )
    }
}

} // verus!
