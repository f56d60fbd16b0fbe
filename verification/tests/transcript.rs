use herdr::room::{Member, Message, Room};
use herdr::transcript::{append_message, message_header, wrap_into, TranscriptCache};

fn member(name: &str, pane: &str) -> Member {
    Member {
        pane_id: pane.into(),
        terminal_id: "t1".into(),
        agent: "pi".into(),
        name: name.into(),
        session: None,
    }
}

fn message(sequence: u64, text: &str, author: Option<Member>) -> Message {
    Message {
        sequence,
        text: text.into(),
        created_unix: 100,
        author,
        recipient: None,
        recipients: Vec::new(),
        reply_to: None,
        expires_unix: None,
    }
}

#[test]
fn room_wrapping_preserves_unicode_and_filters_control_sequences() {
    let mut lines = Vec::new();
    wrap_into("abc界d\ne\u{301}\x1b", 4, &mut lines);
    assert_eq!(lines, ["abc", "界d", "e\u{301}"]);
}

#[test]
fn wrapping_keeps_empty_logical_lines_and_an_overwide_cluster() {
    let mut lines = Vec::new();
    wrap_into("a\n\n界界", 1, &mut lines);
    assert_eq!(lines, ["a", "", "界", "界"]);
    let mut empty = Vec::new();
    wrap_into("", 5, &mut empty);
    assert_eq!(empty, [""]);
}

#[test]
fn wrapping_appends_after_existing_lines_and_drops_tabs() {
    let mut lines = vec!["kept".to_string()];
    wrap_into("x\ty\r", 10, &mut lines);
    assert_eq!(lines, ["kept", "xy"]);
}

#[test]
fn header_of_a_human_message_without_audience() {
    assert_eq!(message_header(&message(1, "hi", None)), "#1 human");
}

#[test]
fn header_lists_audience_expiry_and_correlation() {
    let mut m = message(12, "done", Some(member("Ada", "w1:p1")));
    m.recipients = vec![member("Bob", "w1:p2"), member("Cy", "w1:p3")];
    m.recipient = Some(member("Dee", "w1:p4"));
    m.expires_unix = Some(700);
    m.reply_to = Some(9);
    assert_eq!(
        message_header(&m),
        "#12 Ada (w1:p1) → Bob, Cy, Dee [expires 700] · reply to #9"
    );
    let mut unexpiring = message(2, "q", None);
    unexpiring.recipient = Some(member("Bob", "w1:p2"));
    assert_eq!(message_header(&unexpiring), "#2 human → Bob [expires 0]");
}

#[test]
fn a_message_contributes_header_text_and_a_blank_line() {
    let mut lines = Vec::new();
    append_message(&mut lines, &message(3, "hello world", None), 8);
    assert_eq!(lines, ["#3 human", "hello wo", "rld", ""]);
}

#[test]
fn cache_appends_only_new_messages_and_rebuilds_on_resize() {
    let mut cache = TranscriptCache::new();
    let mut messages = vec![message(1, "one", None)];
    cache.refresh(&messages, 20, 2);
    assert_eq!(cache.lines, ["#1 human", "one", ""]);
    assert_eq!(cache.messages, 1);
    assert_eq!(cache.width, 20);

    messages.push(message(2, "two", None));
    cache.lines[0] = "stale".into();
    cache.refresh(&messages, 20, 2);
    assert_eq!(cache.lines, ["stale", "one", "", "#2 human", "two", ""]);
    assert_eq!(cache.messages, 2);

    cache.refresh(&messages, 4, 2);
    assert_eq!(
        cache.lines,
        ["#1 h", "uman", "one", "", "#2 h", "uman", "two", ""]
    );
    assert_eq!(cache.width, 4);
}

#[test]
fn cache_rebuilds_when_messages_shrink_and_clamps_scroll() {
    let mut cache = TranscriptCache::new();
    let messages = vec![message(1, "one", None), message(2, "two", None)];
    cache.refresh(&messages, 0, 1);
    assert_eq!(cache.width, 1);
    cache.scroll = 1000;
    let fewer = vec![message(5, "x", None)];
    cache.refresh(&fewer, 10, 2);
    assert_eq!(cache.lines, ["#5 human", "x", ""]);
    assert_eq!(cache.messages, 1);
    assert_eq!(cache.scroll, 1);
    cache.refresh(&fewer, 10, 2);
    assert_eq!(cache.lines, ["#5 human", "x", ""]);
    assert_eq!(cache.scroll, 1);
}

#[test]
fn room_scroll_normalizes_to_wrapped_viewport_after_resize_and_append() {
    let mut room = Room::default();
    room.post("界".repeat(500), None, 0).unwrap();
    let mut cache = TranscriptCache::new();
    for (width, height) in [(20u16, 1u16), (20, 20), (80, 30)] {
        cache.scroll = usize::MAX;
        cache.refresh(&room.messages, width, height);
        let max = cache.lines.len().saturating_sub(height as usize);
        assert_eq!(cache.scroll, max);
        room.post("new record".into(), None, 0).unwrap();
        cache.refresh(&room.messages, width, height);
        assert_eq!(cache.scroll, max, "append must not revive old overscroll");
    }
    cache.refresh(&room.messages, 120, 190);
    assert_eq!(cache.scroll, 0, "short transcript fits the tall viewport");
}

#[test]
fn room_transcript_cache_is_incremental_and_rewraps_on_resize() {
    let mut room = Room::default();
    room.post("x".repeat(8192), None, 0).unwrap();
    let mut cache = TranscriptCache::new();
    cache.refresh(&room.messages, 80, 20);
    let count = cache.lines.len();
    let pointer = cache.lines[0].as_ptr();
    cache.refresh(&room.messages, 80, 20);
    assert_eq!(cache.lines[0].as_ptr(), pointer);
    assert_eq!(cache.lines.len(), count);
    room.post("last".into(), None, 0).unwrap();
    cache.refresh(&room.messages, 80, 20);
    assert_eq!(cache.lines[0].as_ptr(), pointer);
    assert!(cache.lines.iter().any(|line| line == "last"));
    cache.refresh(&room.messages, 20, 20);
    assert!(cache.lines.len() > count);
}
