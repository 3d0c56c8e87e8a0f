use chat_stats::model::{Chat, Message, MessageText, MinimalMessage};
use chat_stats::pattern::SearchPattern;
use chat_stats::stats::{AllStats, ReportConfig};

const DAY: u64 = 86400;
const JAN1_2024: u64 = 19723 * DAY;

fn rmsg(id: i64, ts: u64, from: &str, text: &str) -> Message {
    Message {
        id,
        kind: "message".to_string(),
        action: None,
        date_ts: ts,
        from_id: Some(from.to_string()),
        text: MessageText::Plain(text.to_string()),
        file: None,
        file_name: None,
        media_type: None,
        duration_seconds: None,
        discard_reason: None,
        contact_information: None,
        invoice_information: None,
        poll: None,
        giveaway_information: None,
    }
}

fn sample_chat() -> Chat {
    let mut messages = vec![
        rmsg(1, JAN1_2024 + 60, "owner", "Привет! Как дела?"),
        rmsg(2, JAN1_2024 + 120, "friend", "привет, хорошо \u{1F600}"),
        rmsg(3, JAN1_2024 + DAY, "owner", "люблю тебя"),
        rmsg(4, JAN1_2024 + DAY + 30, "friend", "и я тебя люблю \u{1F600}"),
        rmsg(5, JAN1_2024 + 3 * DAY, "owner", "пока"),
        // outside the year range: must be dropped by the pre-filter
        rmsg(6, JAN1_2024 - 10, "friend", "старое сообщение"),
    ];
    // a call and a sticker
    let mut call = rmsg(7, JAN1_2024 + 2 * DAY, "owner", "");
    call.action = Some("phone_call".to_string());
    call.duration_seconds = Some(300);
    messages.push(call);
    let mut st = rmsg(8, JAN1_2024 + 2 * DAY + 60, "friend", "");
    st.media_type = Some("sticker".to_string());
    st.file = Some("cat.webp".to_string());
    messages.push(st);
    Chat { id: 42, name: "pair".to_string(), kind: "personal_chat".to_string(), messages }
}

fn sample_config() -> ReportConfig {
    ReportConfig {
        owner_id: "owner".to_string(),
        year: 2024,
        source_dir: "export".to_string(),
        range_start: JAN1_2024,
        range_end: JAN1_2024 + 365 * DAY - 1,
        search: SearchPattern::compile(
            "(?i)\\bлюблю\\b.*\\bтебя\\b|\\bтебя\\b.*\\bлюблю\\b|\\bи я тебя\\b",
        )
        .unwrap(),
        gap_seconds: 15 * 60,
        sticker_placeholder: "(File not included".to_string(),
        stop_words: vec!["и".to_string(), "я".to_string(), "как".to_string()],
        top_words_limit: 3,
    }
}

fn min_id(m: &Option<MinimalMessage>) -> Option<i64> {
    m.as_ref().map(|x| x.id)
}

#[test]
fn full_report_over_a_small_chat() {
    let report = AllStats::get_stats(sample_chat(), &sample_config()).unwrap();
    assert_eq!(report.year, 2024);
    assert_eq!(report.source_dir, "export".to_string());
    // the out-of-range message is gone
    let ms = &report.chat_stats.messages_stats;
    assert_eq!(ms.total_messages_count, 7);
    assert_eq!(ms.owner_messages_count, 4);
    assert_eq!(ms.member_messages_count, 3);
    assert_eq!(min_id(&ms.first_message), Some(1));
    assert_eq!(min_id(&ms.last_message), Some(5));
    // both affectionate messages match the phrase pattern
    assert_eq!(report.occurrences.total_messages_count, 2);
    // messages 1 and 2 are one burst; everything else is farther apart
    assert_eq!(report.longest_conversation.total_messages_count, 2);
    assert_eq!(min_id(&report.longest_conversation.first_message), Some(1));
    // the single call
    assert_eq!(report.calls_stats.total_calls_durations_sec, 300);
    assert_eq!(report.calls_stats.total_calls_durations_min, 5);
    assert_eq!(min_id(&report.calls_stats.longest_call_durations_min), Some(7));
    // the single sticker belongs to the member side
    assert_eq!(report.most_used_sticker.owner_most_used_sticker_count, 0);
    assert!(report.most_used_sticker.owner_most_used_sticker.is_none());
    assert_eq!(report.most_used_sticker.member_most_used_sticker_count, 1);
    assert_eq!(min_id(&report.most_used_sticker.member_most_used_sticker), Some(8));
    // the grinning face appears twice
    assert_eq!(report.emoji_stats.top_emoji, Some("\u{1F600}".to_string()));
    assert_eq!(report.emoji_stats.top_emoji_count, 2);
    // three words appear twice each; the tie is broken lexicographically
    let words = &report.word_stats.top_words;
    assert_eq!(words.len(), 3);
    assert_eq!(words[0].word, "люблю".to_string());
    assert_eq!(words[0].count, 2);
    assert_eq!(words[1].word, "привет".to_string());
    assert_eq!(words[1].count, 2);
    assert_eq!(words[2].word, "тебя".to_string());
    assert_eq!(words[2].count, 2);
    // all four active days are consecutive
    let streak = report.streak.unwrap();
    assert_eq!(streak.count, 4);
    assert_eq!(streak.start, 19723);
    assert_eq!(streak.end, 19726);
}

#[test]
fn report_is_identical_across_reruns() {
    let r1 = AllStats::get_stats(sample_chat(), &sample_config()).unwrap();
    let r2 = AllStats::get_stats(sample_chat(), &sample_config()).unwrap();
    assert_eq!(r1.year, r2.year);
    assert_eq!(r1.source_dir, r2.source_dir);
    assert_eq!(
        r1.chat_stats.messages_stats.total_messages_count,
        r2.chat_stats.messages_stats.total_messages_count
    );
    assert_eq!(
        r1.chat_stats.additional_messages_stats.total_characters_count,
        r2.chat_stats.additional_messages_stats.total_characters_count
    );
    assert_eq!(
        min_id(&r1.chat_stats.messages_stats.first_message),
        min_id(&r2.chat_stats.messages_stats.first_message)
    );
    assert_eq!(r1.occurrences.total_messages_count, r2.occurrences.total_messages_count);
    assert_eq!(
        r1.longest_conversation.total_messages_count,
        r2.longest_conversation.total_messages_count
    );
    assert_eq!(
        r1.calls_stats.total_calls_durations_sec,
        r2.calls_stats.total_calls_durations_sec
    );
    assert_eq!(r1.emoji_stats.top_emoji, r2.emoji_stats.top_emoji);
    assert_eq!(r1.emoji_stats.top_emoji_count, r2.emoji_stats.top_emoji_count);
    assert_eq!(r1.word_stats.top_words.len(), r2.word_stats.top_words.len());
    for (a, b) in r1.word_stats.top_words.iter().zip(r2.word_stats.top_words.iter()) {
        assert_eq!(a.word, b.word);
        assert_eq!(a.count, b.count);
    }
    assert_eq!(r1.streak, r2.streak);
    assert_eq!(
        min_id(&r1.most_used_sticker.member_most_used_sticker),
        min_id(&r2.most_used_sticker.member_most_used_sticker)
    );
}

#[test]
fn empty_chat_yields_empty_report() {
    let chat = Chat {
        id: 1,
        name: "empty".to_string(),
        kind: "personal_chat".to_string(),
        messages: Vec::new(),
    };
    let report = AllStats::get_stats(chat, &sample_config()).unwrap();
    assert_eq!(report.chat_stats.messages_stats.total_messages_count, 0);
    assert!(report.chat_stats.messages_stats.first_message.is_none());
    assert_eq!(report.chat_stats.additional_messages_stats.total_characters_count, 0);
    assert_eq!(report.longest_conversation.total_messages_count, 0);
    assert_eq!(report.calls_stats.total_calls_durations_sec, 0);
    assert!(report.calls_stats.longest_call_durations_min.is_none());
    assert!(report.emoji_stats.top_emoji.is_none());
    assert_eq!(report.word_stats.top_words.len(), 0);
    assert!(report.streak.is_none());
}
