use herdr::json::{parse_json, Json};
use herdr::pi_conversation::{message_text, plain_user_message, PiConversation};

const HEADER: &str = r#"{"type":"session","version":3,"id":"session-1","cwd":"/tmp"}"#;
const U1: &str = r#"{"type":"message","id":"u1","parentId":null,"message":{"role":"user","content":"repeated needle"}}"#;
const A1: &str = r#"{"type":"message","id":"a1","parentId":"u1","message":{"role":"assistant","content":[{"type":"text","text":"answer"}]}}"#;
const U2: &str = r#"{"type":"message","id":"u2","parentId":"a1","message":{"role":"user","content":"repeated needle"}}"#;

fn fixture(extra: &[&str]) -> Vec<u8> {
    let mut lines = vec![HEADER, U1, A1, U2];
    lines.extend_from_slice(extra);
    lines.iter().map(|l| format!("{l}\n")).collect::<String>().into_bytes()
}

fn parse(bytes: &[u8]) -> PiConversation {
    PiConversation::parse("/tmp/session.jsonl".to_string(), bytes).unwrap()
}

fn entry_id(m: &herdr::pi_conversation::ConversationMessage) -> &str {
    m.reference.entry_id.as_str()
}

#[test]
fn repeated_text_has_distinct_exact_identity_and_tree() {
    let c = parse(&fixture(&[]));
    let hits = c.search("needle", 3).unwrap();
    assert_eq!(hits.len(), 2);
    assert_ne!(hits[0].reference, hits[1].reference);
    assert_eq!(hits[0].parent_message_id.as_deref(), Some("a1"));
    assert_eq!(hits[0].depth, 2);
}

#[test]
fn append_preserves_reference_but_ancestor_edit_invalidates() {
    let c = parse(&fixture(&[]));
    let r = c.reference("u2").unwrap();
    let newer = parse(&fixture(&[
        r#"{"type":"message","id":"a2","parentId":"u2","message":{"role":"assistant","content":"later"}}"#,
    ]));
    assert!(newer.validate(&r).is_ok());
    let changed = String::from_utf8(fixture(&[])).unwrap().replace("answer", "different");
    let err = parse(changed.as_bytes()).validate(&r).unwrap_err();
    assert_eq!(err, "Pi conversation changed; search again before branching");
}

#[test]
fn partial_tail_ignored_malformed_complete_line_rejected() {
    let mut bytes = fixture(&[]);
    bytes.extend_from_slice(b"{\"type\":");
    let c = parse(&bytes);
    assert!(c.partial_tail);
    assert_eq!(c.entries.len(), 3);
    bytes.push(b'\n');
    let err = PiConversation::parse("/tmp/s".to_string(), &bytes).err().unwrap();
    assert!(err.starts_with("invalid Pi record: "), "{err}");
}

#[test]
fn alternate_branch_is_searchable_but_not_active() {
    let c = parse(&fixture(&[
        r#"{"type":"message","id":"u3","parentId":"a1","message":{"role":"user","content":"alternate"}}"#,
    ]));
    let msgs = c.messages().unwrap();
    assert!(!msgs.iter().find(|m| entry_id(m) == "u2").unwrap().active);
    assert!(msgs.iter().find(|m| entry_id(m) == "u3").unwrap().active);
    assert!(msgs.iter().find(|m| entry_id(m) == "u1").unwrap().active);
}

#[test]
fn unsafe_boundaries_and_images_are_capability_gated() {
    let c = parse(&fixture(&[
        r#"{"type":"message","id":"tools","parentId":"u2","message":{"role":"assistant","content":[{"type":"toolCall","id":"call1"}]}}"#,
        r#"{"type":"message","id":"image","parentId":"u1","message":{"role":"user","content":[{"type":"image","data":"not-real"}]}}"#,
    ]));
    let msgs = c.messages().unwrap();
    assert!(!msgs.iter().find(|m| entry_id(m) == "tools").unwrap().can_continue);
    assert!(!msgs.iter().find(|m| entry_id(m) == "image").unwrap().can_rewrite);
    assert!(msgs.iter().find(|m| entry_id(m) == "u2").unwrap().can_rewrite);
}

#[test]
fn session_errors_name_the_problem() {
    let err = |text: &str| PiConversation::parse("/tmp/s".to_string(), text.as_bytes()).err().unwrap();
    assert_eq!(err(""), "empty Pi session");
    assert_eq!(err(" \n\n"), "empty Pi session");
    assert_eq!(err("{\"type\":\"session\",\"version\":2,\"id\":\"s\",\"cwd\":\"/\"}\n"), "message search requires Pi session format v3");
    assert_eq!(err("{\"type\":\"session\",\"version\":3,\"cwd\":\"/\"}\n"), "Pi entry missing id");
    assert_eq!(err("{\"type\":\"session\",\"version\":3,\"id\":\"s\",\"cwd\":\"rel\"}\n"), "Pi session cwd must be absolute");
    let long = format!("{{\"type\":\"session\",\"version\":3,\"id\":\"{}\",\"cwd\":\"/\"}}\n", "x".repeat(129));
    assert_eq!(err(&long), "invalid Pi session ID");
    let dup = format!("{HEADER}\n{U1}\n{U1}\n");
    assert_eq!(err(&dup), "duplicate Pi entry ID");
    let forward = format!("{HEADER}\n{A1}\n{U1}\n");
    assert_eq!(err(&forward), "Pi entry has missing or forward parent");
    let second_header = format!("{HEADER}\n{HEADER}\n");
    assert_eq!(err(&second_header), "duplicate Pi session header");
    let bad_utf8 = [b"{\"a\":1}".as_slice(), &[0xff, b'\n']].concat();
    assert!(PiConversation::parse("/tmp/s".to_string(), &bad_utf8).is_err());
}

#[test]
fn oversized_sessions_are_not_read() {
    let bytes = vec![b' '; herdr::pi_conversation::MAX_SESSION_BYTES + 1];
    let err = PiConversation::from_file_bytes("/tmp/s".to_string(), &bytes).err().unwrap();
    assert_eq!(err, "Pi session exceeds 64 MiB; not searched");
    assert!(herdr::pi_conversation::require_absolute("relative/path").is_err());
    assert!(herdr::pi_conversation::require_absolute("/abs").is_ok());
}

#[test]
fn hashes_chain_through_ancestry() {
    let c = parse(&fixture(&[]));
    let u1 = c.reference("u1").unwrap();
    let u2 = c.reference("u2").unwrap();
    assert_eq!(u1.ancestry_hash.len(), 64);
    assert!(u1.ancestry_hash.chars().all(|ch| ch.is_ascii_hexdigit() && !ch.is_ascii_uppercase()));
    assert_ne!(u1.ancestry_hash, u2.ancestry_hash);
    assert_eq!(u2.session_id, "session-1");
    assert_eq!(u2.session_path, "/tmp/session.jsonl");
    assert!(c.reference("nope").is_err());
    let ancestry = c.ancestry("u2").unwrap();
    let ids: Vec<&str> = ancestry.iter().map(|e| e.str_at("id").unwrap()).collect();
    assert_eq!(ids, vec!["u1", "a1", "u2"]);
}

#[test]
fn search_is_smart_case_and_capped() {
    let c = parse(&fixture(&[]));
    assert_eq!(c.search("NEEDLE", 3).unwrap().len(), 0);
    assert_eq!(c.search("Needle", 3).unwrap().len(), 0);
    assert_eq!(c.search("REPEATED needle", 3).unwrap().len(), 0);
    let hits = c.search("needle", 1).unwrap();
    assert_eq!(hits.len(), 1);
    assert_eq!(entry_id(&hits[0]), "u2");
    assert_eq!(c.search("", 3).unwrap().len(), 0);
    assert_eq!(c.search("ANSWER", 3).unwrap().len(), 0);
    assert_eq!(c.search("answer", 3).unwrap().len(), 1);
}

#[test]
fn message_text_joins_text_blocks() {
    let m = parse_json(r#"{"role":"user","content":[{"type":"text","text":"a"},{"type":"image"},{"type":"text","text":"b"}]}"#).unwrap();
    assert_eq!(message_text(&m), "a\nb");
    assert!(!plain_user_message(&m));
    let plain = parse_json(r#"{"role":"user","content":[{"type":"text","text":"a"}]}"#).unwrap();
    assert!(plain_user_message(&plain));
    assert_eq!(message_text(&Json::Null), "");
}
