use herdr::room::{Member, Room, MAX_MESSAGE_BYTES, MAX_MESSAGES};

fn member() -> Member {
    Member {
        pane_id: "w1:p1".into(),
        terminal_id: "t1".into(),
        agent: "pi".into(),
        name: "Ada".into(),
        session: Some("session-a".into()),
    }
}

#[test]
fn room_sequence_correlation_and_duplicate_reply() {
    let mut room = Room::default();
    assert_eq!(room.post("hello".into(), Some(member()), 100).unwrap(), 1);
    let mut wrong = member();
    wrong.session = Some("replacement".into());
    assert!(room.reply(1, wrong, "bad".into(), 101).is_err());
    assert!(room.reply(1, member(), "late".into(), 700).is_err());
    assert_eq!(room.reply(1, member(), "I decline".into(), 101).unwrap(), 2);
    assert!(room.reply(1, member(), "again".into(), 102).is_err());
    assert!(room.reply(2, member(), "fanout".into(), 102).is_err());
    assert_eq!(room.next_sequence, 3);
}

#[test]
fn room_group_question_snapshots_audience_and_deduplicates_per_session() {
    let mut room = Room::default();
    let ada = member();
    let mut bob = member();
    bob.name = "Bob".into();
    bob.terminal_id = "t2".into();
    bob.session = Some("session-b".into());
    let request = room
        .post_to(
            "everyone?".into(),
            vec![ada.clone(), bob.clone(), ada.clone()],
            100,
        )
        .unwrap();
    assert_eq!(room.messages.len(), 1);
    let fields = |m: &Member| {
        (
            m.pane_id.clone(),
            m.terminal_id.clone(),
            m.agent.clone(),
            m.name.clone(),
            m.session.clone(),
        )
    };
    let audience: Vec<_> = room.messages[0].recipients.iter().map(fields).collect();
    assert_eq!(audience, vec![fields(&ada), fields(&bob)]);
    assert!(room.reply(request, ada.clone(), "Ada here".into(), 101).is_ok());
    assert!(room.reply(request, bob, "Bob here".into(), 102).is_ok());
    assert!(room.reply(request, ada, "duplicate".into(), 103).is_err());
    let mut newcomer = member();
    newcomer.terminal_id = "t3".into();
    assert!(room
        .reply(request, newcomer, "not addressed".into(), 104)
        .is_err());
    assert_eq!(room.messages.len(), 3);
    assert!(room.messages[1..]
        .iter()
        .all(|m| m.recipients.is_empty() && m.recipient.is_none()));
}

#[test]
fn room_legacy_transcript_without_audience_still_accepts_its_recipient() {
    let mut room = Room::default();
    room.post("old request".into(), Some(member()), 100).unwrap();
    room.messages[0].recipients.clear();
    assert!(room.reply(1, member(), "legacy reply".into(), 101).is_ok());
}

#[test]
fn room_request_without_expiry_fails_closed() {
    let mut room = Room::default();
    room.post("question".into(), Some(member()), 0).unwrap();
    room.messages[0].expires_unix = None;
    assert_eq!(
        room.reply(1, member(), "reply".into(), 0).unwrap_err(),
        "request missing expiry"
    );
    assert_eq!(room.messages.len(), 1);
    assert_eq!(room.next_sequence, 2);
}

#[test]
fn room_bounds_and_unaddressed_posts() {
    let mut room = Room::default();
    assert!(room.post(" ".into(), None, 0).is_err());
    assert!(room.post("x".repeat(MAX_MESSAGE_BYTES + 1), None, 0).is_err());
    room.post("note".into(), None, 0).unwrap();
    assert!(room.reply(1, member(), "reply".into(), 1).is_err());
    assert_eq!(room.next_sequence, 2);
}

#[test]
fn refused_posts_leave_the_room_unchanged() {
    let mut room = Room::default();
    let mut sessionless = member();
    sessionless.session = None;
    assert!(room.post("hi".into(), Some(sessionless), 0).is_err());
    assert!(room.messages.is_empty());
    assert_eq!(room.next_sequence, 1);
}

#[test]
fn full_room_refuses_without_discarding() {
    let mut room = Room::default();
    for i in 0..MAX_MESSAGES {
        room.post(format!("m{i}"), None, 0).unwrap();
    }
    assert_eq!(
        room.post("one more".into(), None, 0).unwrap_err(),
        "prototype room is full (1000 messages); nothing was discarded"
    );
    assert_eq!(room.messages.len(), MAX_MESSAGES);
    assert_eq!(room.messages[0].sequence, 1);
    assert_eq!(room.next_sequence, (MAX_MESSAGES + 1) as u64);
}

#[test]
fn request_expiry_is_ten_minutes_after_the_question() {
    let mut room = Room::default();
    room.post("q".into(), Some(member()), 1000).unwrap();
    assert_eq!(room.messages[0].expires_unix, Some(1600));
    assert_eq!(
        room.reply(1, member(), "late".into(), 1600).unwrap_err(),
        "request expired"
    );
    assert!(room.reply(1, member(), "in time".into(), 1599).is_ok());
}
