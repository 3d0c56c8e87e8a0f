use chat_stats::basic::Party;
use chat_stats::model::{Chat, DataPreparer, Message, MessageEntity, MessageText, TextEntity};

fn msg(id: i64, ts: u64, from: Option<&str>, text: &str) -> Message {
    Message {
        id,
        kind: "message".to_string(),
        action: None,
        date_ts: ts,
        from_id: from.map(|s| s.to_string()),
        text: MessageText::Plain(text.to_string()),
        file: None,
        file_name: None,
        media_type: None,
        duration_seconds: None,
        discard_reason: None,
        contact_information: None,
        invoice_information: None,
        poll: None,
        giveaway_information: None,
    }
}

fn call_msg(id: i64, ts: u64, duration: Option<u32>) -> Message {
    let mut m = msg(id, ts, Some("user1"), "");
    m.action = Some("phone_call".to_string());
    m.duration_seconds = duration;
    m
}

#[test]
fn counts_split_by_participant() {
    let msgs = vec![
        msg(1, 100, Some("owner"), "hi"),
        msg(2, 200, Some("friend"), "hey"),
        msg(3, 300, None, "service"),
        msg(4, 400, Some("owner"), "again"),
    ];
    let st = chat_stats::stats::MessagesStats::get_stats(&msgs, "owner").unwrap();
    assert_eq!(st.total_messages_count, 4);
    assert_eq!(st.owner_messages_count, 2);
    assert_eq!(st.member_messages_count, 1);
    // the owner/member partition: total = owner + member + no-sender
    assert_eq!(
        st.total_messages_count,
        st.owner_messages_count + st.member_messages_count + 1
    );
}

#[test]
fn first_and_last_message_break_ties_like_min_max() {
    let msgs = vec![
        msg(10, 200, Some("a"), ""),
        msg(11, 100, Some("a"), ""),
        msg(12, 100, Some("a"), ""),
        msg(13, 200, Some("a"), ""),
    ];
    // first minimum wins; last maximum wins
    assert_eq!(DataPreparer::first_message(&msgs), Some(1));
    assert_eq!(DataPreparer::last_message(&msgs), Some(3));
    let empty: Vec<Message> = Vec::new();
    assert_eq!(DataPreparer::first_message(&empty), None);
    assert_eq!(DataPreparer::last_message(&empty), None);
}

#[test]
fn character_count_is_unicode_not_bytes() {
    // one cyrillic word: 6 characters, 12 bytes
    let msgs = vec![msg(1, 0, Some("a"), "привет")];
    assert_eq!(DataPreparer::character_count(&msgs).unwrap(), 6);
}

#[test]
fn character_count_invariant_to_text_representation() {
    // the same content as one plain string and as fragments
    let plain = vec![msg(1, 0, Some("a"), "hello world")];
    let mut fragmented = vec![msg(2, 0, Some("a"), "")];
    fragmented[0].text = MessageText::Entities(vec![
        TextEntity::Text("hello ".to_string()),
        TextEntity::Entity(MessageEntity { kind: "bold".to_string(), text: "world".to_string() }),
    ]);
    let a = DataPreparer::character_count(&plain).unwrap();
    let b = DataPreparer::character_count(&fragmented).unwrap();
    assert_eq!(a, b);
    assert_eq!(a, 11);
    assert_eq!(
        DataPreparer::message_text_to_string(&fragmented[0].text),
        "hello world".to_string()
    );
}

#[test]
fn character_count_filtered_by_party() {
    let msgs = vec![
        msg(1, 0, Some("owner"), "abcd"),
        msg(2, 0, Some("friend"), "xy"),
        msg(3, 0, None, "zzzz"),
    ];
    let o = DataPreparer::character_count_filtered(&msgs, "owner", Party::Owner).unwrap();
    let m = DataPreparer::character_count_filtered(&msgs, "owner", Party::Member).unwrap();
    assert_eq!(o, 4);
    assert_eq!(m, 2);
}

#[test]
fn calls_durations_sums_and_treats_absent_as_zero() {
    let calls = vec![
        call_msg(1, 0, Some(60)),
        call_msg(2, 10, None),
        call_msg(3, 20, Some(30)),
    ];
    assert_eq!(DataPreparer::calls_durations(&calls).unwrap(), 90);
}

#[test]
fn longest_call_keeps_first_of_ties() {
    let calls = vec![
        call_msg(1, 0, Some(30)),
        call_msg(2, 10, Some(90)),
        call_msg(3, 20, Some(90)),
    ];
    let best = DataPreparer::longest_call(&calls).unwrap();
    assert_eq!(best.id, 2);
    assert_eq!(best.duration_seconds, Some(90));
}

#[test]
fn longest_call_with_zero_durations_yields_first_call() {
    // absent durations count as zero; the maximum is zero, held first by the
    // first call
    let calls = vec![call_msg(1, 0, None), call_msg(2, 10, Some(0))];
    let best = DataPreparer::longest_call(&calls).unwrap();
    assert_eq!(best.id, 1);
    assert_eq!(best.duration_seconds, None);
}

#[test]
fn longest_call_absent_only_without_calls() {
    let empty: Vec<Message> = Vec::new();
    assert!(DataPreparer::longest_call(&empty).is_none());
}

#[test]
fn calls_filter_selects_by_action() {
    let chat = Chat {
        id: 7,
        name: "test".to_string(),
        kind: "personal_chat".to_string(),
        messages: vec![
            msg(1, 0, Some("a"), "hi"),
            call_msg(2, 10, Some(5)),
            msg(3, 20, Some("a"), "bye"),
            call_msg(4, 30, None),
        ],
    };
    let calls = chat.calls();
    assert_eq!(calls.len(), 2);
    assert_eq!(calls[0].id, 2);
    assert_eq!(calls[1].id, 4);
}

#[test]
fn calls_stats_reports_seconds_and_minutes() {
    let calls = vec![call_msg(1, 0, Some(125)), call_msg(2, 10, Some(10))];
    let st = chat_stats::stats::CallsStats::get_stats(&calls).unwrap();
    assert_eq!(st.total_calls_durations_sec, 135);
    assert_eq!(st.total_calls_durations_min, 2);
    assert_eq!(st.longest_call_durations_min.unwrap().id, 1);
}

#[test]
fn config_holds_plain_values() {
    let cfg = chat_stats::config::Config {
        database_config: chat_stats::config::DatabaseConfig {
            url: "postgres://localhost/chat".to_string(),
        },
        app_config: chat_stats::config::AppConfig {
            input_path: "in.json".to_string(),
            output_path: "out.json".to_string(),
            year: 2024,
        },
    };
    assert_eq!(cfg.app_config.year, 2024);
    let sink = chat_stats::config::Json::new(cfg.app_config.output_path.clone());
    assert_eq!(sink.path, "out.json".to_string());
}

#[test]
fn error_values_compare_and_print() {
    let a = chat_stats::errors::DataPreparerError::NoData;
    let b = chat_stats::errors::DataPreparerError::InvalidCallsArray { id: 4 };
    assert_ne!(a, b);
    assert_eq!(b, chat_stats::errors::DataPreparerError::InvalidCallsArray { id: 4 });
    assert!(format!("{:?}", a).contains("NoData"));
}
