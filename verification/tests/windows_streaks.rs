use chat_stats::model::{Chat, DataPreparer, Message, MessageText};

const DAY: u64 = 86400;
const JAN1_2024: u64 = 19723 * DAY;

fn wmsg(id: i64, ts: u64) -> Message {
    Message {
        id,
        kind: "message".to_string(),
        action: None,
        date_ts: ts,
        from_id: Some("user1".to_string()),
        text: MessageText::Plain("hi".to_string()),
        file: None,
        file_name: None,
        media_type: None,
        duration_seconds: None,
        discard_reason: None,
        contact_information: None,
        invoice_information: None,
        poll: None,
        giveaway_information: None,
    }
}

fn wchat(messages: Vec<Message>) -> Chat {
    Chat { id: 1, name: "c".to_string(), kind: "personal_chat".to_string(), messages }
}

const GAP: u64 = 15 * 60;

#[test]
fn burst_of_fourteen_minute_steps_is_one_conversation() {
    // 6 messages each exactly 14 minutes apart: one burst of length 6
    let n: u64 = 6;
    let msgs: Vec<Message> = (0..n).map(|i| wmsg(i as i64, 1000 + i * 14 * 60)).collect();
    let chat = wchat(msgs);
    let burst = chat.longest_conversation(GAP);
    assert_eq!(burst.len(), 6);
    for (i, m) in burst.iter().enumerate() {
        assert_eq!(m.id, i as i64);
    }
}

#[test]
fn sixteen_minute_gap_splits_the_burst() {
    // 6 messages 14 minutes apart, with one 16-minute gap after the second:
    // bursts of lengths 2 and 4; the longer one is returned
    let mut ts: u64 = 1000;
    let mut msgs = Vec::new();
    for i in 0..6i64 {
        msgs.push(wmsg(i, ts));
        ts += if i == 1 { 16 * 60 } else { 14 * 60 };
    }
    let chat = wchat(msgs);
    let burst = chat.longest_conversation(GAP);
    assert_eq!(burst.len(), 4);
    assert_eq!(burst[0].id, 2);
}

#[test]
fn tied_bursts_keep_the_earliest() {
    // two bursts of equal length: the earlier one wins
    let msgs = vec![
        wmsg(0, 1000),
        wmsg(1, 1000 + 60),
        wmsg(2, 1000 + 60 + GAP),
        wmsg(3, 1000 + 120 + GAP),
    ];
    let chat = wchat(msgs);
    let burst = chat.longest_conversation(GAP);
    assert_eq!(burst.len(), 2);
    assert_eq!(burst[0].id, 0);
}

#[test]
fn conversation_edge_cases() {
    let empty = wchat(Vec::new());
    assert_eq!(empty.longest_conversation(GAP).len(), 0);
    let single = wchat(vec![wmsg(5, 42)]);
    let burst = single.longest_conversation(GAP);
    assert_eq!(burst.len(), 1);
    assert_eq!(burst[0].id, 5);
}

#[test]
fn streak_scenario_with_same_day_and_gap() {
    // messages dated 2024-01-01, 01-02, 01-02, 01-04: best streak is the
    // two-day run; the same-day message neither breaks nor extends; the
    // later single day does not replace it
    let msgs = vec![
        wmsg(1, JAN1_2024 + 10),
        wmsg(2, JAN1_2024 + DAY + 20),
        wmsg(3, JAN1_2024 + DAY + 30),
        wmsg(4, JAN1_2024 + 3 * DAY + 40),
    ];
    let st = DataPreparer::message_streak(&msgs).unwrap();
    assert_eq!(st.count, 2);
    assert_eq!(st.start, 19723);
    assert_eq!(st.end, 19724);
}

#[test]
fn streak_absent_without_messages() {
    let empty: Vec<Message> = Vec::new();
    assert!(DataPreparer::message_streak(&empty).is_none());
}

#[test]
fn streak_single_message_is_a_one_day_run() {
    let msgs = vec![wmsg(1, JAN1_2024)];
    let st = DataPreparer::message_streak(&msgs).unwrap();
    assert_eq!(st.count, 1);
    assert_eq!(st.start, 19723);
    assert_eq!(st.end, 19723);
}

#[test]
fn streak_prefers_strictly_longer_later_run() {
    // days 1-2, then days 10-12: the later three-day run wins
    let msgs = vec![
        wmsg(1, DAY),
        wmsg(2, 2 * DAY),
        wmsg(3, 10 * DAY),
        wmsg(4, 11 * DAY),
        wmsg(5, 12 * DAY),
    ];
    let st = DataPreparer::message_streak(&msgs).unwrap();
    assert_eq!(st.count, 3);
    assert_eq!(st.start, 10);
    assert_eq!(st.end, 12);
}

#[test]
fn retain_by_date_filters_and_sorts() {
    let mut chat = wchat(vec![wmsg(1, 500), wmsg(2, 100), wmsg(3, 900), wmsg(4, 300)]);
    chat.retain_by_date(100, 500);
    let ids: Vec<i64> = chat.messages.iter().map(|m| m.id).collect();
    assert_eq!(ids, vec![2, 4, 1]);
}

#[test]
fn retain_by_date_is_stable_for_equal_timestamps() {
    let mut chat = wchat(vec![wmsg(1, 200), wmsg(2, 100), wmsg(3, 200), wmsg(4, 200)]);
    chat.retain_by_date(0, 1000);
    let ids: Vec<i64> = chat.messages.iter().map(|m| m.id).collect();
    assert_eq!(ids, vec![2, 1, 3, 4]);
}
