use herdr::json::{parse_json, Json};
use herdr::pi_conversation::PiConversation;
use herdr::pi_fork::{draft_text, fork_plan, prepare_fork, validate_context, ForkPlan, TextSet};
use herdr::schema::{BranchPosition, MessageRef};

const HEADER: &str = r#"{"type":"session","version":3,"id":"source-session","cwd":"/tmp"}"#;

fn user(id: &str, parent: Option<&str>) -> String {
    let parent = match parent {
        Some(p) => format!("\"{p}\""),
        None => "null".to_string(),
    };
    format!(r#"{{"type":"message","id":"{id}","parentId":{parent},"message":{{"role":"user","content":"same text"}},"unknown":{{"preserve":true}}}}"#)
}

fn assistant(id: &str, parent: &str) -> String {
    format!(r#"{{"type":"message","id":"{id}","parentId":"{parent}","message":{{"role":"assistant","stopReason":"stop","content":[{{"type":"text","text":"answer"}}]}}}}"#)
}

fn conversation(entries: &[String]) -> PiConversation {
    let mut text = format!("{HEADER}\n");
    for e in entries {
        text.push_str(e);
        text.push('\n');
    }
    PiConversation::parse("/tmp/source.jsonl".to_string(), text.as_bytes()).unwrap()
}

fn prepare(c: &PiConversation, id: &str, position: BranchPosition) -> Result<ForkPlan, String> {
    let reference = c.reference(id).unwrap();
    let mut sequence = 0;
    prepare_fork(c, &reference, position, &mut sequence)
}

fn load(plan: &ForkPlan) -> PiConversation {
    PiConversation::parse("/tmp/fork.jsonl".to_string(), &plan.session_bytes).unwrap()
}

fn marker(c: &PiConversation) -> &Json {
    c.entries.iter().find(|v| v.text_at("customType", "herdr.fork")).unwrap()
}

#[test]
fn root_rewrite_is_materialized_with_full_draft_and_fresh_identity() {
    let u = c_source_line();
    let c = conversation(&[u]);
    let fork = prepare(&c, "u", BranchPosition::Rewrite).unwrap();
    let other = prepare(&c, "u", BranchPosition::Rewrite).unwrap();
    let f = load(&fork);
    assert_eq!(f.entries.len(), 1);
    let m = marker(&f);
    assert!(matches!(m.get("parentId"), Some(Json::Null)));
    let data = m.get("data").unwrap();
    assert_eq!(data.str_at("draftText"), Some("firstsecond"));
    let source = parse_json(&c_source_line()).unwrap();
    let content = source.get("message").unwrap().get("content").unwrap();
    assert_eq!(
        herdr::json::write_json(data.get("draftContent").unwrap()),
        herdr::json::write_json(content)
    );
    assert_eq!(data.str_at("launchToken"), Some(fork.launch_token.as_str()));
    let ticket = parse_json(std::str::from_utf8(&fork.ticket_bytes).unwrap()).unwrap();
    assert_eq!(ticket.str_at("sessionId"), Some(fork.session_id.as_str()));
    assert_eq!(ticket.str_at("launchToken"), Some(fork.launch_token.as_str()));
    assert_eq!(f.header.str_at("id"), Some(fork.session_id.as_str()));
    assert_eq!(f.header.str_at("parentSession"), Some("/tmp/source.jsonl"));
    assert_ne!(fork.session_id, other.session_id);
    assert_eq!(fork.session_id.len(), 36);
    assert_eq!(&fork.session_id[14..15], "4");
}

#[test]
fn exact_branch_not_chronological_prefix_and_stable_duplicate_text_ids() {
    let c = conversation(&[
        user("u", None),
        assistant("a", "u"),
        user("old", Some("a")),
        user("chosen", Some("a")),
        assistant("later", "chosen"),
    ]);
    let f = load(&prepare(&c, "chosen", BranchPosition::Continue).unwrap());
    let ids: Vec<&str> = f.entries.iter().filter_map(|v| v.str_at("id")).take(3).collect();
    assert_eq!(ids, vec!["u", "a", "chosen"]);
    assert!(f.entry("old").is_err());
    assert!(f.entry("later").is_err());
    assert_eq!(marker(&f).str_at("parentId"), Some("chosen"));
    let chosen = f.entry("chosen").unwrap();
    assert!(chosen.get("unknown").unwrap().get("preserve").is_some());
    let rewrite = load(&prepare(&c, "chosen", BranchPosition::Rewrite).unwrap());
    assert!(rewrite.entry("chosen").is_err());
    assert_eq!(marker(&rewrite).str_at("parentId"), Some("a"));
}

#[test]
fn validation_and_image_rejection_create_no_artifacts() {
    let u = r#"{"type":"message","id":"u","parentId":null,"message":{"role":"user","content":[{"type":"image","data":"fixture","mimeType":"image/png"}]}}"#.to_string();
    let c = conversation(&[u]);
    assert!(prepare(&c, "u", BranchPosition::Rewrite).is_err());
    let mut stale = c.reference("u").unwrap();
    stale.ancestry_hash = "stale".to_string();
    let mut sequence = 0;
    assert_eq!(
        prepare_fork(&c, &stale, BranchPosition::Continue, &mut sequence).err().unwrap(),
        "Pi conversation changed; search again before branching"
    );
}

#[test]
fn compaction_checkpoint_gate_preserves_supported_raw_entry() {
    let old = r#"{"type":"compaction","id":"c","parentId":"u","firstKeptEntryId":"u","summary":"s","details":{"unknown":1}}"#.to_string();
    let c = conversation(&[user("u", None), old, user("next", Some("c"))]);
    let f = load(&prepare(&c, "next", BranchPosition::Continue).unwrap());
    assert!(f.entry("c").unwrap().get("details").is_some());
    let modern = r#"{"type":"compaction","id":"c","parentId":"u","retainedTail":[],"summary":"s"}"#.to_string();
    let c = conversation(&[user("u", None), modern, user("next", Some("c"))]);
    assert_eq!(
        prepare(&c, "next", BranchPosition::Continue).err().unwrap(),
        "Pi 0.85.1 requires firstKeptEntryId; retainedTail-only compactions are unsupported"
    );
}

#[test]
fn incomplete_batches_anywhere_in_ancestry_fail_but_completed_batch_passes() {
    let calls = r#"{"type":"message","id":"calls","parentId":"u","message":{"role":"assistant","stopReason":"toolUse","content":[{"type":"toolCall","id":"t1"},{"type":"toolCall","id":"t2"}]}}"#.to_string();
    let result = |id: &str, parent: &str, call: &str| format!(r#"{{"type":"message","id":"{id}","parentId":"{parent}","message":{{"role":"toolResult","toolCallId":"{call}","content":[]}}}}"#);
    let c = conversation(&[user("u", None), calls.clone(), result("r1", "calls", "t1"), user("bad", Some("r1"))]);
    assert!(prepare(&c, "calls", BranchPosition::Continue).is_err());
    assert_eq!(
        prepare(&c, "bad", BranchPosition::Continue).err().unwrap(),
        "fork ancestry contains unresolved tool calls before another message"
    );
    assert!(prepare(&c, "bad", BranchPosition::Rewrite).is_err());
    let c = conversation(&[
        user("u", None),
        calls,
        result("r1", "calls", "t1"),
        result("r2", "r1", "t2"),
        assistant("done", "r2"),
    ]);
    assert!(prepare(&c, "done", BranchPosition::Continue).is_ok());
}

#[test]
fn compaction_cannot_retain_only_a_tool_result() {
    let c = conversation(&[
        user("u", None),
        r#"{"type":"message","id":"call","parentId":"u","message":{"role":"assistant","stopReason":"toolUse","content":[{"type":"toolCall","id":"t"}]}}"#.to_string(),
        r#"{"type":"message","id":"result","parentId":"call","message":{"role":"toolResult","toolCallId":"t","content":[]}}"#.to_string(),
        r#"{"type":"compaction","id":"c","parentId":"result","firstKeptEntryId":"result","summary":"s"}"#.to_string(),
        user("next", Some("c")),
    ]);
    assert_eq!(
        prepare(&c, "next", BranchPosition::Continue).err().unwrap(),
        "compaction retained boundary splits a tool batch"
    );
}

#[test]
fn old_name_preserved_as_history_but_cleared_for_new_session() {
    let name = r#"{"type":"session_info","id":"n","parentId":"u","name":"old project"}"#.to_string();
    let c = conversation(&[user("u", None), name, user("next", Some("n"))]);
    let f = load(&prepare(&c, "next", BranchPosition::Continue).unwrap());
    assert_eq!(f.entry("n").unwrap().str_at("name"), Some("old project"));
    assert_eq!(f.entries.last().unwrap().str_at("name"), Some(""));
    assert_eq!(marker(&f).str_at("parentId"), Some("next"));
}

#[test]
fn context_errors_name_the_problem() {
    let parse = |s: &str| parse_json(s).unwrap();
    let orphan = parse(r#"{"type":"message","id":"r","message":{"role":"toolResult","toolCallId":"x"}}"#);
    assert_eq!(validate_context(&vec![&orphan]).unwrap_err(), "orphan or duplicate tool result in fork ancestry");
    let odd = parse(r#"{"type":"message","id":"o","message":{"role":"wizard"}}"#);
    assert_eq!(validate_context(&vec![&odd]).unwrap_err(), "unsupported Pi message role: wizard");
    let untyped = parse(r#"{"id":"x"}"#);
    assert_eq!(validate_context(&vec![&untyped]).unwrap_err(), "Pi entry has no type");
    let failed = parse(r#"{"type":"message","id":"f","message":{"role":"assistant","stopReason":"error"}}"#);
    assert_eq!(validate_context(&vec![&failed]).unwrap_err(), "fork ancestry contains an incomplete or failed assistant response");
    let empty_use = parse(r#"{"type":"message","id":"e","message":{"role":"assistant","stopReason":"toolUse","content":[]}}"#);
    assert_eq!(validate_context(&vec![&empty_use]).unwrap_err(), "toolUse response contains no tool calls");
    let pending = parse(r#"{"type":"message","id":"p","message":{"role":"assistant","content":[{"type":"toolCall","id":"t"}]}}"#);
    assert_eq!(
        validate_context(&vec![&pending]).unwrap_err(),
        "selected cut leaves unresolved tool calls; select a completed response instead"
    );
    assert!(validate_context(&Vec::new()).is_ok());
}

#[test]
fn drafts_join_text_blocks() {
    assert_eq!(draft_text(&parse_json(r#""plain""#).unwrap()).unwrap(), "plain");
    assert_eq!(draft_text(&parse_json(r#"[{"text":"a"},{"text":"b"}]"#).unwrap()).unwrap(), "ab");
    assert_eq!(draft_text(&parse_json(r#"[{"text":"a"},{"type":"image"}]"#).unwrap()).unwrap_err(), "user text block has no text");
    assert_eq!(draft_text(&Json::Null).unwrap_err(), "unsupported user content");
}

#[test]
fn text_sets_insert_and_remove_once() {
    let mut s = TextSet::new();
    assert!(s.is_empty());
    assert!(s.insert("a"));
    assert!(!s.insert("a"));
    assert!(s.contains("a"));
    assert!(s.remove("a"));
    assert!(!s.remove("a"));
    assert!(s.is_empty());
    let _ = MessageRef {
        session_path: String::new(),
        session_id: String::new(),
        entry_id: String::new(),
        ancestry_hash: String::new(),
    };
}

#[test]
fn fork_launch_names_the_fork_and_passes_session_and_extension() {
    let (name, args) = herdr::pi_fork::fork_launch(
        "0192F3a4-B5c6-7d8e-9f00-112233445566",
        "/forks/s.jsonl",
        "/forks/e.ts",
    );
    assert_eq!(name, "fork-0192f3a4b5c67d8e9f001122334");
    assert_eq!(args, ["--session", "/forks/s.jsonl", "-e", "/forks/e.ts"]);
    let (short, _) = herdr::pi_fork::fork_launch("A-b_C", "p", "e");
    assert_eq!(short, "fork-abc");
}

fn c_source_line() -> String {
    r#"{"type":"message","id":"u","parentId":null,"message":{"role":"user","content":[{"type":"text","text":"first"},{"type":"text","text":"second"}]}}"#.to_string()
}

#[test]
fn a_plan_is_stamped_with_the_given_time_and_draws_two_identities() {
    let c = conversation(&[user("u", None), assistant("a", "u")]);
    let reference = c.reference("a").unwrap();
    let mut sequence = 5;
    let plan = fork_plan(&c, &reference, BranchPosition::Continue, "2024-01-02T03:04:05Z", &mut sequence).unwrap();
    assert_eq!(plan.timestamp, "2024-01-02T03:04:05Z");
    assert!(sequence >= 7);
    assert_ne!(plan.session_id, plan.launch_token);
    let f = load(&plan);
    assert_eq!(f.header.str_at("timestamp"), Some("2024-01-02T03:04:05Z"));
    assert_eq!(f.header.str_at("id"), Some(plan.session_id.as_str()));

    let mut stale = c.reference("a").unwrap();
    stale.ancestry_hash = "stale".to_string();
    let mut sequence = 5;
    assert_eq!(
        fork_plan(&c, &stale, BranchPosition::Continue, "2024-01-02T03:04:05Z", &mut sequence).err().unwrap(),
        "Pi conversation changed; search again before branching"
    );
    assert_eq!(sequence, 5);
}
