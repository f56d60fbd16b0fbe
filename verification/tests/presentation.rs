use herdr::presentation::{decimal_text, delivery_summary, TranscriptRole};
use herdr::room::Member;
use herdr::room_delivery::{DeliveryStatus, Status};

fn member() -> Member {
    Member {
        pane_id: "w1:p1".into(),
        terminal_id: "t1".into(),
        agent: "pi".into(),
        name: "Ada".into(),
        session: Some("Id:live".into()),
    }
}

fn make(sequence: u64, status: Status) -> DeliveryStatus {
    DeliveryStatus {
        delivery_id: format!("d{sequence}"),
        request_sequence: sequence,
        recipient: member(),
        status,
        detail: None,
    }
}

#[test]
fn room_summary_keeps_earlier_pending_questions_visible() {
    let deliveries = vec![
        make(1, Status::Queued),
        make(1, Status::Submitted),
        make(1, Status::Replied),
        make(2, Status::Queued),
    ];
    let summary = delivery_summary(&deliveries);
    assert!(summary.starts_with("Earlier requests: 2 pending"));
    assert!(summary.contains("#2: 1 queued"));
    assert!(!delivery_summary(&deliveries[3..]).contains("Earlier requests"));
}

#[test]
fn summary_counts_sorted_labels_and_last_detail() {
    let mut failed = make(5, Status::Failed);
    failed.detail = Some("boom".into());
    let deliveries = vec![
        make(5, Status::Submitted),
        make(5, Status::Queued),
        failed,
        make(5, Status::Queued),
    ];
    assert_eq!(
        delivery_summary(&deliveries),
        "#5: 1 failed · 2 queued · 1 submitted · Ada: boom"
    );
    assert_eq!(delivery_summary(&Vec::new()), "");
}

#[test]
fn human_rows_are_inset_when_there_is_room() {
    assert_eq!(TranscriptRole::Human.inset(3), 1);
    assert_eq!(TranscriptRole::Human.inset(2), 0);
    assert_eq!(TranscriptRole::Agent.inset(80), 0);
    assert_eq!(TranscriptRole::Spacer.inset(80), 0);
    assert_eq!(TranscriptRole::AgentHeader.inset(80), 0);
}

#[test]
fn decimal_text_writes_digits() {
    assert_eq!(decimal_text(0), "0");
    assert_eq!(decimal_text(1234567890), "1234567890");
    assert_eq!(decimal_text(u64::MAX), u64::MAX.to_string());
}
