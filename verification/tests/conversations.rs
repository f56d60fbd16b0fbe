use herdr::conversations::{
    bound_pi_path, conversation_page, excerpt, validate_bound_reference, AgentSessionInfo,
    AgentSessionRefKind,
};
use herdr::pi_conversation::PiConversation;
use herdr::schema::AgentConversationParams;

fn fixture() -> PiConversation {
    let mut text = String::from("{\"type\":\"session\",\"version\":3,\"id\":\"fixture\",\"cwd\":\"/tmp/fixture\"}\n");
    text.push_str("{\"type\":\"message\",\"id\":\"u1\",\"parentId\":null,\"message\":{\"role\":\"user\",\"content\":\"same needle\"}}\n");
    text.push_str("{\"type\":\"message\",\"id\":\"u2\",\"parentId\":\"u1\",\"message\":{\"role\":\"user\",\"content\":\"same needle\"}}\n{\"type\":");
    PiConversation::parse("/tmp/fixture/session.jsonl".to_string(), text.as_bytes()).unwrap()
}

fn params(query: Option<&str>, limit: Option<usize>, offset: Option<usize>, around: Option<&str>) -> AgentConversationParams {
    AgentConversationParams {
        target: "fixture".to_string(),
        query: query.map(str::to_string),
        limit,
        offset,
        around_entry_id: around.map(str::to_string),
    }
}

#[test]
fn unsupported_agent_and_id_only_fail_before_io() {
    let mut session = AgentSessionInfo {
        agent: "pi".to_string(),
        kind: AgentSessionRefKind::Path,
        value: "/nonexistent/fixture.jsonl".to_string(),
    };
    assert!(bound_pi_path(Some("opencode"), Some(&session)).is_err());
    assert!(bound_pi_path(Some("pi"), None).is_err());
    session.kind = AgentSessionRefKind::Id;
    assert!(bound_pi_path(Some("pi"), Some(&session)).err().unwrap().message.contains("ID alone"));
    session.kind = AgentSessionRefKind::Path;
    assert_eq!(bound_pi_path(Some("pi"), Some(&session)).ok(), Some("/nonexistent/fixture.jsonl"));
    session.value = "relative.jsonl".to_string();
    let err = bound_pi_path(None, Some(&session)).err().unwrap();
    assert_eq!(err.code, "conversation_unsupported");
    assert_eq!(err.message, "bound Pi session path must be absolute");
}

#[test]
fn pages_return_stable_messages_and_report_total_and_tail() {
    let conversation = fixture();
    let page = conversation_page(&conversation, &params(Some("needle"), Some(1), None, None)).unwrap();
    assert_eq!(page.total, 2);
    assert!(page.partial_tail);
    assert!(page.has_more);
    assert_eq!(page.next_offset, Some(1));
    assert_eq!(page.messages[0].reference.entry_id, "u2");
    assert!(!page.messages[0].reference.ancestry_hash.is_empty());
    let page = conversation_page(&conversation, &params(None, Some(1), Some(1), None)).unwrap();
    assert_eq!(page.messages.len(), 1);
    assert_eq!(page.messages[0].reference.entry_id, "u2");
    assert!(!page.has_more);
    assert_eq!(page.next_offset, None);
    assert_eq!(page.session_id, "fixture");
    assert_eq!(page.session_path, "/tmp/fixture/session.jsonl");
    assert_eq!(
        conversation_page(&conversation, &params(None, Some(501), Some(1), None)).err().unwrap(),
        "conversation limit must be between 1 and 500"
    );
    assert!(conversation_page(&conversation, &params(None, Some(0), None, None)).is_err());
    assert_eq!(
        conversation_page(&conversation, &params(Some("x"), None, None, Some("u1"))).err().unwrap(),
        "around_entry_id requires query to be omitted"
    );
    let past = conversation_page(&conversation, &params(None, None, Some(9), None)).unwrap();
    assert!(past.messages.is_empty());
    assert_eq!(past.total, 2);
}

#[test]
fn centered_page_finds_selection_beyond_first_500_messages() {
    let mut text = String::from("{\"type\":\"session\",\"version\":3,\"id\":\"large\",\"cwd\":\"/tmp\"}\n");
    for index in 0..650 {
        text.push_str(&format!(
            "{{\"type\":\"message\",\"id\":\"u{index}\",\"parentId\":null,\"message\":{{\"role\":\"user\",\"content\":\"needle\"}}}}\n"
        ));
    }
    let conversation = PiConversation::parse("/tmp/large.jsonl".to_string(), text.as_bytes()).unwrap();
    let page = conversation_page(&conversation, &params(None, Some(100), Some(0), Some("u550"))).unwrap();
    assert_eq!(page.offset, 500);
    assert_eq!(page.total, 650);
    assert_eq!(page.messages[50].reference.entry_id, "u550");
    assert_eq!(page.messages.len(), 100);
    assert_eq!(
        conversation_page(&conversation, &params(None, Some(100), Some(0), Some("gone"))).err().unwrap(),
        "selected Pi message is gone; search again"
    );
}

#[test]
fn stale_reference_or_rebound_target_is_rejected() {
    let conversation = fixture();
    let mut reference = conversation.reference("u1").unwrap();
    assert!(validate_bound_reference(&conversation, &reference).is_ok());
    reference.session_path.push_str("-different");
    assert!(validate_bound_reference(&conversation, &reference).unwrap_err().contains("different Pi session"));
    reference = conversation.reference("u1").unwrap();
    reference.ancestry_hash = "stale".to_string();
    assert!(validate_bound_reference(&conversation, &reference).is_err());
}

#[test]
fn excerpts_drop_controls_and_cut_on_character_boundaries() {
    assert_eq!(excerpt("a\u{1b}b\tc\nd", 100), ("ab\tc\nd".to_string(), false));
    let (text, cut) = excerpt("ééé", 3);
    assert!(cut);
    assert_eq!(text, "é\n[excerpt truncated — fork preserves full message]");
    let (text, cut) = excerpt("abcdef", 4);
    assert!(cut);
    assert!(text.starts_with("abcd\n[excerpt"));
}

#[test]
fn fork_precheck_reports_stale_references_and_a_missing_cwd() {
    let c = fixture();
    let reference = c.reference("u2").unwrap();
    assert_eq!(herdr::conversations::fork_cwd(&c), Some("/tmp/fixture"));
    assert!(herdr::conversations::fork_precheck(&c, &reference, true).is_ok());
    let err = herdr::conversations::fork_precheck(&c, &reference, false).err().unwrap();
    assert_eq!(err.code, "conversation_cwd_unavailable");
    assert_eq!(
        err.message,
        "Pi session cwd must be an existing directory; source was not changed"
    );
    let mut moved = c.reference("u2").unwrap();
    moved.session_path = "/tmp/other.jsonl".to_string();
    let err = herdr::conversations::fork_precheck(&c, &moved, true).err().unwrap();
    assert_eq!(err.code, "conversation_stale");
    let failed = herdr::conversations::fork_failed("boom".to_string());
    assert_eq!((failed.code.as_str(), failed.message.as_str()), ("conversation_fork_failed", "boom"));
}
