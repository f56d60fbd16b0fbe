use herdr::conversation_preview::{fork_answer, tree_line, ConversationPreview, ForkAnswer, PreviewRequest};
use herdr::editor::Rect;
use herdr::editor_input::{EditorKey, KeyCode, CONTROL, SHIFT};
use herdr::pi_conversation::ConversationMessage;
use herdr::schema::{BranchPosition, MessageRef};

fn message(role: &str, text: &str, depth: usize, can_rewrite: bool) -> ConversationMessage {
    ConversationMessage {
        reference: MessageRef {
            session_path: "/s.jsonl".into(),
            session_id: "sid".into(),
            entry_id: "e1".into(),
            ancestry_hash: "h".into(),
        },
        parent_message_id: None,
        role: role.into(),
        text: text.into(),
        text_truncated: false,
        timestamp: "t".into(),
        depth,
        active: true,
        can_rewrite,
        can_continue: false,
    }
}

fn preview(n: usize) -> ConversationPreview {
    ConversationPreview {
        target: "w1:p1".into(),
        messages: (0..n).map(|i| message("user", &format!("m{i}"), 0, true)).collect(),
        selected: 0,
        tree_scroll: 0,
        text_scroll: 0,
        status: String::new(),
    }
}

#[test]
fn tree_rows_show_marker_depth_role_and_one_line() {
    assert_eq!(tree_line(&message("user", "hi\n  there", 2, true), true), "▸  you: hi there");
    let mut m = message("assistant", "ok", 9, false);
    m.active = false;
    assert_eq!(tree_line(&m, false), "├     ai: ok");
}

#[test]
fn fork_answers_are_read_from_json() {
    assert!(matches!(fork_answer("{\"result\":{}}"), ForkAnswer::Launched));
    match fork_answer("{\"error\":{\"message\":\"busy\"}}") {
        ForkAnswer::Failed(m) => assert_eq!(m, "busy"),
        _ => panic!("expected a failure"),
    }
    match fork_answer("{\"error\":1}") {
        ForkAnswer::Failed(m) => assert_eq!(m, "fork failed"),
        _ => panic!("expected a failure"),
    }
    assert!(matches!(fork_answer("not json"), ForkAnswer::Unrecognized));
}

#[test]
fn selection_moves_within_the_list_and_keeps_the_tree_in_view() {
    let pane = Rect::new(0, 0, 40, 9);
    let mut p = preview(5);
    p.move_selection(10, pane);
    assert_eq!(p.selected, 4);
    assert_eq!(p.tree_scroll, 2);
    p.move_selection(-10, pane);
    assert_eq!((p.selected, p.tree_scroll), (0, 0));
    let mut empty = preview(0);
    empty.move_selection(3, pane);
    assert_eq!(empty.selected, 0);
}

#[test]
fn keys_and_clicks_ask_for_close_or_fork() {
    let pane = Rect::new(0, 0, 40, 9);
    let mut p = preview(3);
    assert_eq!(p.key(&EditorKey::new(KeyCode::Esc, 0), pane), PreviewRequest::Close);
    assert_eq!(
        p.key(&EditorKey::new(KeyCode::Enter, SHIFT), pane),
        PreviewRequest::Fork(BranchPosition::Continue)
    );
    assert_eq!(
        p.key(&EditorKey::new(KeyCode::Char('b'), CONTROL), pane),
        PreviewRequest::Fork(BranchPosition::Rewrite)
    );
    assert_eq!(p.click(3, 0, false, pane), PreviewRequest::Close);
    assert_eq!(p.click(15, 1, false, pane), PreviewRequest::Fork(BranchPosition::Continue));
    assert_eq!(p.click(30, 1, false, pane), PreviewRequest::Nothing);
    assert_eq!(p.click(5, 3, true, pane), PreviewRequest::Fork(BranchPosition::Continue));
    assert_eq!(p.selected, 1);
}

#[test]
fn fork_request_needs_a_message_that_allows_it() {
    let mut p = preview(1);
    let req = p.fork_request(BranchPosition::Rewrite).unwrap();
    assert_eq!(req.target, "w1:p1");
    assert!(p.fork_request(BranchPosition::Continue).is_none());
    assert_eq!(p.status, "Cannot continue inside an unfinished tool turn");
}
