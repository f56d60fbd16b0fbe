use herdr::conversations::AgentSessionRefKind;
use herdr::membership::{members, undecorate, PaneFacts, SessionRef};

fn agent_pane(number: u32, terminal: &str) -> PaneFacts {
    PaneFacts {
        public_number: Some(number),
        terminal_id: Some(terminal.into()),
        agent_label: Some("pi".into()),
        agent_name: None,
        sidebar_name: None,
        hook_label: Some("pi".into()),
        hook_session: Some(SessionRef {
            kind: AgentSessionRefKind::Path,
            value: "/tmp/named.jsonl".into(),
        }),
    }
}

#[test]
fn room_member_name_uses_sidebar_metadata_before_managed_name() {
    let mut pane = agent_pane(1, "t1");
    let initial = members("w1", &vec![agent_pane(1, "t1")]).remove(0);
    assert_eq!(initial.name, initial.pane_id);
    pane.agent_name = Some("managed-name".into());
    pane.sidebar_name = Some("∴ Aporia".into());
    assert_eq!(members("w1", &vec![pane])[0].name, "Aporia");
}

#[test]
fn managed_name_is_used_without_sidebar_name() {
    let mut pane = agent_pane(2, "t2");
    pane.agent_name = Some("  Keystone ".into());
    pane.sidebar_name = Some("   ".into());
    let m = members("w1", &vec![pane]).remove(0);
    assert_eq!(m.name, "Keystone");
    assert_eq!(m.pane_id, "w1:p2");
    assert_eq!(m.terminal_id, "t2");
    assert_eq!(m.agent, "pi");
    assert_eq!(m.session.as_deref(), Some("Path:/tmp/named.jsonl"));
}

#[test]
fn shells_unregistered_and_detached_panes_are_not_members() {
    let mut shell = agent_pane(1, "t1");
    shell.agent_label = None;
    let mut unregistered = agent_pane(2, "t2");
    unregistered.public_number = None;
    let mut detached = agent_pane(3, "t3");
    detached.terminal_id = None;
    assert!(members("w1", &vec![shell, unregistered, detached]).is_empty());
}

#[test]
fn session_only_from_a_hook_of_the_same_agent() {
    let mut other = agent_pane(1, "t1");
    other.hook_label = Some("codex".into());
    let mut no_hook = agent_pane(2, "t2");
    no_hook.hook_label = None;
    let mut by_id = agent_pane(3, "t3");
    by_id.hook_session = Some(SessionRef {
        kind: AgentSessionRefKind::Id,
        value: "abc".into(),
    });
    let ms = members("w1", &vec![other, no_hook, by_id]);
    assert_eq!(ms.len(), 3);
    assert_eq!(ms[0].session, None);
    assert_eq!(ms[1].session, None);
    assert_eq!(ms[2].session.as_deref(), Some("Id:abc"));
}

#[test]
fn members_are_ordered_by_pane_id_text() {
    let ms = members(
        "w1",
        &vec![agent_pane(2, "a"), agent_pane(10, "b"), agent_pane(1, "c")],
    );
    let ids: Vec<&str> = ms.iter().map(|m| m.pane_id.as_str()).collect();
    assert_eq!(ids, ["w1:p1", "w1:p10", "w1:p2"]);
}

#[test]
fn decorative_prefix_is_removed_only_when_standalone() {
    assert_eq!(undecorate("∴ Aporia"), "Aporia");
    assert_eq!(undecorate("  ✓✓  Bo  "), "Bo");
    assert_eq!(undecorate("∴Aporia"), "∴Aporia");
    assert_eq!(undecorate("R2 D2"), "R2 D2");
    assert_eq!(undecorate("∴"), "∴");
}
