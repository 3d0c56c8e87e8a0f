use chat_stats::basic::Party;
use chat_stats::model::{Chat, DataPreparer, Message, MessageText, TextEntity};
use chat_stats::pattern::SearchPattern;

fn cmsg(id: i64, from: Option<&str>, text: &str) -> Message {
    Message {
        id,
        kind: "message".to_string(),
        action: None,
        date_ts: id as u64 * 60,
        from_id: from.map(|s| s.to_string()),
        text: MessageText::Plain(text.to_string()),
        file: None,
        file_name: None,
        media_type: None,
        duration_seconds: None,
        discard_reason: None,
        contact_information: None,
        invoice_information: None,
        poll: None,
        giveaway_information: None,
    }
}

fn sticker(id: i64, from: &str, file: Option<&str>, file_name: Option<&str>) -> Message {
    let mut m = cmsg(id, Some(from), "");
    m.media_type = Some("sticker".to_string());
    m.file = file.map(|s| s.to_string());
    m.file_name = file_name.map(|s| s.to_string());
    m
}

const PLACEHOLDER: &str = "(File not included";

#[test]
fn sticker_leader_counts_repeats() {
    // three "a.webp" and one "b.webp" from the owner: leader count 3
    let msgs = vec![
        sticker(1, "owner", Some("a.webp"), None),
        sticker(2, "owner", Some("b.webp"), None),
        sticker(3, "owner", Some("a.webp"), None),
        sticker(4, "owner", Some("a.webp"), None),
    ];
    let (count, leader) =
        DataPreparer::most_used_sticker(&msgs, "owner", Party::Owner, PLACEHOLDER);
    assert_eq!(count, 3);
    // the leader snapshot is the message that reached the count
    assert_eq!(leader.unwrap().id, 4);
    // the other side has no qualifying sticker at all
    let (mcount, mleader) =
        DataPreparer::most_used_sticker(&msgs, "owner", Party::Member, PLACEHOLDER);
    assert_eq!(mcount, 0);
    assert!(mleader.is_none());
}

#[test]
fn sticker_identity_falls_back_to_file_name() {
    // a placeholder file reference falls back to the declared name; absent
    // identities are skipped entirely
    let msgs = vec![
        sticker(1, "u", Some("(File not included. Ask the sender)"), Some("cat.webp")),
        sticker(2, "u", None, Some("cat.webp")),
        sticker(3, "u", None, None),
        sticker(4, "u", Some("dog.webp"), Some("cat.webp")),
    ];
    let (count, leader) = DataPreparer::most_used_sticker(&msgs, "u", Party::Owner, PLACEHOLDER);
    assert_eq!(count, 2);
    assert_eq!(leader.unwrap().id, 2);
}

#[test]
fn sticker_ties_keep_the_earlier_leader() {
    let msgs = vec![
        sticker(1, "u", Some("a.webp"), None),
        sticker(2, "u", Some("b.webp"), None),
    ];
    let (count, leader) = DataPreparer::most_used_sticker(&msgs, "u", Party::Owner, PLACEHOLDER);
    assert_eq!(count, 1);
    assert_eq!(leader.unwrap().id, 1);
}

#[test]
fn word_ranking_counts_case_folded_tokens() {
    // "Привет привет мир" with no stop-words: descending count, then
    // ascending lexicographic order
    let msgs = vec![cmsg(1, Some("u"), "Привет привет мир")];
    let stop: Vec<String> = Vec::new();
    let top = DataPreparer::top_words(&msgs, &stop, 10);
    assert_eq!(top.len(), 2);
    assert_eq!(top[0].word, "привет".to_string());
    assert_eq!(top[0].count, 2);
    assert_eq!(top[1].word, "мир".to_string());
    assert_eq!(top[1].count, 1);
}

#[test]
fn word_ranking_drops_short_tokens_and_stop_words() {
    let msgs = vec![cmsg(1, Some("u"), "a bb bb cc the the the")];
    let stop: Vec<String> = vec!["the".to_string()];
    let top = DataPreparer::top_words(&msgs, &stop, 10);
    assert_eq!(top.len(), 2);
    assert_eq!(top[0].word, "bb".to_string());
    assert_eq!(top[0].count, 2);
    assert_eq!(top[1].word, "cc".to_string());
    assert_eq!(top[1].count, 1);
}

#[test]
fn word_ranking_truncates_to_the_limit() {
    let msgs = vec![cmsg(1, Some("u"), "dd dd dd cc cc bb")];
    let stop: Vec<String> = Vec::new();
    let top = DataPreparer::top_words(&msgs, &stop, 2);
    assert_eq!(top.len(), 2);
    assert_eq!(top[0].word, "dd".to_string());
    assert_eq!(top[1].word, "cc".to_string());
}

#[test]
fn words_split_on_punctuation_and_symbols() {
    let msgs = vec![cmsg(1, Some("u"), "so,so! ok?so")];
    let stop: Vec<String> = Vec::new();
    let top = DataPreparer::top_words(&msgs, &stop, 10);
    assert_eq!(top.len(), 2);
    assert_eq!(top[0].word, "so".to_string());
    assert_eq!(top[0].count, 3);
    assert_eq!(top[1].word, "ok".to_string());
    assert_eq!(top[1].count, 1);
}

#[test]
fn emoji_chars_classified_by_block() {
    assert!(DataPreparer::is_emoji_char('\u{1F600}'));
    assert!(DataPreparer::is_emoji_char('\u{2764}'));
    assert!(!DataPreparer::is_emoji_char('a'));
    assert!(!DataPreparer::is_emoji_char('\u{FE0F}'));
}

#[test]
fn emoji_extraction_attaches_variation_selector() {
    let toks = DataPreparer::extract_emojis("hi \u{2764}\u{FE0F} and \u{1F600}!");
    assert_eq!(toks.len(), 2);
    assert_eq!(toks[0], "\u{2764}\u{FE0F}".to_string());
    assert_eq!(toks[1], "\u{1F600}".to_string());
}

#[test]
fn top_emoji_counts_selector_forms_apart() {
    // the bare heart and the selector form are distinct tokens
    let msgs = vec![
        cmsg(1, Some("u"), "\u{2764}\u{FE0F} \u{2764}\u{FE0F}"),
        cmsg(2, Some("u"), "\u{2764} \u{1F600}"),
    ];
    let (top, count) = DataPreparer::top_emoji(&msgs);
    assert_eq!(top.unwrap(), "\u{2764}\u{FE0F}".to_string());
    assert_eq!(count, 2);
}

#[test]
fn top_emoji_ties_keep_first_seen() {
    let msgs = vec![cmsg(1, Some("u"), "\u{1F601}\u{1F600}\u{1F600}\u{1F601}")];
    let (top, count) = DataPreparer::top_emoji(&msgs);
    assert_eq!(top.unwrap(), "\u{1F601}".to_string());
    assert_eq!(count, 2);
}

#[test]
fn top_emoji_absent_without_emojis() {
    let msgs = vec![cmsg(1, Some("u"), "plain text only")];
    let (top, count) = DataPreparer::top_emoji(&msgs);
    assert!(top.is_none());
    assert_eq!(count, 0);
}

#[test]
fn occurrences_match_case_insensitively() {
    let chat = Chat {
        id: 1,
        name: "c".to_string(),
        kind: "personal_chat".to_string(),
        messages: vec![
            cmsg(1, Some("u"), "Люблю тебя"),
            cmsg(2, Some("u"), "до завтра"),
            cmsg(3, Some("u"), "и я тебя люблю"),
        ],
    };
    let re = SearchPattern::compile(
        "(?i)\\bлюблю\\b.*\\bтебя\\b|\\bтебя\\b.*\\bлюблю\\b",
    )
    .unwrap();
    let hits = chat.occurrences(&re);
    assert_eq!(hits.len(), 2);
    assert_eq!(hits[0].id, 1);
    assert_eq!(hits[1].id, 3);
}

#[test]
fn occurrences_search_fragmented_text_flattened() {
    let mut m = cmsg(1, Some("u"), "");
    m.text = MessageText::Entities(vec![
        TextEntity::Text("love ".to_string()),
        TextEntity::Text("you".to_string()),
    ]);
    let chat = Chat {
        id: 1,
        name: "c".to_string(),
        kind: "personal_chat".to_string(),
        messages: vec![m],
    };
    // matches only across the fragment boundary
    let re = SearchPattern::compile("love you").unwrap();
    assert_eq!(chat.occurrences(&re).len(), 1);
}

#[test]
fn pattern_compile_rejects_bad_syntax() {
    assert!(SearchPattern::compile("(unclosed").is_none());
}
