use herdr::search_pane::AgentPanelEntry;
use herdr::sidebar::{
    agent_rows, custom_token_style, parse_hex, separator, space_rows, AgentSidebarToken,
    AgentsSidebarConfig, Configured, ResolvedToken, ResolvedTokenKind, SidebarTokenStyle,
    SpaceSidebarToken, SpaceTokenContext, SpacesSidebarConfig, TokenColor,
};

fn unstyled(kind: ResolvedTokenKind) -> ResolvedToken {
    ResolvedToken { kind, style: SidebarTokenStyle::default() }
}

fn plain<T>(token: T) -> Configured<T> {
    Configured { token, style: SidebarTokenStyle::default() }
}

fn entry() -> AgentPanelEntry {
    AgentPanelEntry {
        ws_idx: 0,
        tab_idx: 0,
        pane_id: 1,
        index: 1,
        primary_label: "repo".to_string(),
        primary_tab_label: None,
        pane_label: None,
        terminal_title: None,
        terminal_title_stripped: None,
        agent_label: Some("pi".to_string()),
        agent: Some("pi".to_string()),
        tokens: Vec::new(),
    }
}

#[test]
fn grouped_children_suppress_all_builtin_git_details() {
    let config = SpacesSidebarConfig::default();
    let tokens = Vec::new();
    assert_eq!(
        space_rows(
            &config,
            SpaceTokenContext {
                workspace: "feature",
                branch: Some("worktree/feature"),
                state_text: "idle",
                ahead_behind: Some((2, 1)),
                tokens: &tokens,
                suppress_git_details: true,
            },
        ),
        vec![vec![
            unstyled(ResolvedTokenKind::StateIcon),
            unstyled(ResolvedTokenKind::Workspace("feature".to_string())),
        ]]
    );
}

#[test]
fn workspace_custom_token_can_replace_git_specific_details() {
    let tokens = vec![("jj_status".to_string(), "2 changes".to_string())];
    let config = SpacesSidebarConfig {
        rows: vec![vec![plain(SpaceSidebarToken::Custom("jj_status".to_string()))]],
    };
    assert_eq!(
        space_rows(
            &config,
            SpaceTokenContext {
                workspace: "repo",
                branch: None,
                state_text: "idle",
                ahead_behind: None,
                tokens: &tokens,
                suppress_git_details: false,
            },
        ),
        vec![vec![unstyled(ResolvedTokenKind::Custom("2 changes".to_string()))]]
    );
}

#[test]
fn ungrouped_spaces_show_branch_and_nonzero_git_status() {
    let config = SpacesSidebarConfig::default();
    let tokens = Vec::new();
    let context = |ahead_behind| SpaceTokenContext {
        workspace: "feature",
        branch: Some("main"),
        state_text: "idle",
        ahead_behind,
        tokens: &tokens,
        suppress_git_details: false,
    };
    let rows = space_rows(&config, context(Some((2, 0))));
    assert_eq!(
        rows[1],
        vec![
            unstyled(ResolvedTokenKind::Branch("main".to_string())),
            unstyled(ResolvedTokenKind::GitStatus { ahead: 2, behind: 0 }),
        ]
    );
    let rows = space_rows(&config, context(Some((0, 0))));
    assert_eq!(rows[1], vec![unstyled(ResolvedTokenKind::Branch("main".to_string()))]);
}

#[test]
fn missing_custom_tokens_elide_rows_and_separators() {
    let config = AgentsSidebarConfig {
        rows: vec![
            vec![plain(AgentSidebarToken::StateIcon), plain(AgentSidebarToken::Custom("missing".to_string()))],
            vec![plain(AgentSidebarToken::Custom("missing".to_string()))],
            vec![plain(AgentSidebarToken::Agent)],
        ],
        rows_by_agent: Vec::new(),
    };
    let rows = agent_rows(&config, &entry(), "working");
    assert_eq!(rows.len(), 2);
    assert_eq!(rows[0], vec![unstyled(ResolvedTokenKind::StateIcon)]);
    assert_eq!(rows[1], vec![unstyled(ResolvedTokenKind::Agent("pi".to_string()))]);
}

#[test]
fn state_text_and_arbitrary_values_are_independent_tokens() {
    let mut entry = entry();
    entry.tokens.push(("summary".to_string(), "reviewing auth".to_string()));
    let config = AgentsSidebarConfig {
        rows: vec![vec![plain(AgentSidebarToken::StateText), plain(AgentSidebarToken::Custom("summary".to_string()))]],
        rows_by_agent: Vec::new(),
    };
    assert_eq!(
        agent_rows(&config, &entry, "deep in the mines"),
        vec![vec![
            unstyled(ResolvedTokenKind::StateText("deep in the mines".to_string())),
            unstyled(ResolvedTokenKind::Custom("reviewing auth".to_string())),
        ]]
    );
}

#[test]
fn terminal_title_builtins_are_distinct_from_custom_tokens() {
    let mut entry = entry();
    entry.terminal_title = Some("⠋ raw title".to_string());
    entry.terminal_title_stripped = Some("raw title".to_string());
    entry.tokens.push(("terminal_title".to_string(), "custom title".to_string()));
    let config = AgentsSidebarConfig {
        rows: vec![vec![
            plain(AgentSidebarToken::TerminalTitle),
            plain(AgentSidebarToken::TerminalTitleStripped),
            plain(AgentSidebarToken::Custom("terminal_title".to_string())),
        ]],
        rows_by_agent: Vec::new(),
    };
    assert_eq!(
        agent_rows(&config, &entry, "working"),
        vec![vec![
            unstyled(ResolvedTokenKind::TerminalTitle("⠋ raw title".to_string())),
            unstyled(ResolvedTokenKind::TerminalTitle("raw title".to_string())),
            unstyled(ResolvedTokenKind::Custom("custom title".to_string())),
        ]]
    );
}

#[test]
fn known_agent_override_replaces_default_rows() {
    let config = AgentsSidebarConfig {
        rows: vec![vec![plain(AgentSidebarToken::Workspace)]],
        rows_by_agent: vec![("pi".to_string(), vec![vec![plain(AgentSidebarToken::Agent)]])],
    };
    let mut pi = entry();
    pi.agent_label = Some("renamed pi".to_string());
    assert_eq!(
        agent_rows(&config, &pi, "working"),
        vec![vec![unstyled(ResolvedTokenKind::Agent("renamed pi".to_string()))]]
    );
    pi.agent = None;
    assert_eq!(
        agent_rows(&config, &pi, "working"),
        vec![vec![unstyled(ResolvedTokenKind::Workspace("repo".to_string()))]]
    );
}

#[test]
fn index_tokens_end_with_a_dot() {
    let config = AgentsSidebarConfig {
        rows: vec![vec![plain(AgentSidebarToken::Index), plain(AgentSidebarToken::Tab)]],
        rows_by_agent: Vec::new(),
    };
    let mut e = entry();
    e.index = 12;
    assert_eq!(agent_rows(&config, &e, "idle"), vec![vec![unstyled(ResolvedTokenKind::Index("12.".to_string()))]]);
}

#[test]
fn custom_token_takes_style_from_sibling_tokens_unless_configured() {
    let mut tokens = vec![
        ("name".to_string(), "Splice".to_string()),
        ("name_fg".to_string(), "#ff8800".to_string()),
        ("name_bold".to_string(), "true".to_string()),
    ];
    let style = custom_token_style(&tokens, "name", SidebarTokenStyle::default());
    assert_eq!(style.fg, Some(TokenColor { r: 0xff, g: 0x88, b: 0x00 }));
    assert_eq!(style.bold, Some(true));
    assert_eq!(style.italic, None);

    let configured = SidebarTokenStyle { fg: parse_hex("#000"), bold: Some(false), italic: None, dim: None };
    let style = custom_token_style(&tokens, "name", configured);
    assert_eq!(style.fg, Some(TokenColor { r: 0, g: 0, b: 0 }));
    assert_eq!(style.bold, Some(false));

    tokens[1].1 = "orange".to_string();
    assert_eq!(custom_token_style(&tokens, "name", SidebarTokenStyle::default()).fg, None);
}

#[test]
fn flags_accept_the_usual_spellings() {
    let tokens = vec![
        ("x_bold".to_string(), " yes ".to_string()),
        ("x_italic".to_string(), "off".to_string()),
        ("x_dim".to_string(), "1".to_string()),
    ];
    let style = custom_token_style(&tokens, "x", SidebarTokenStyle::default());
    assert_eq!((style.bold, style.italic, style.dim), (Some(true), Some(false), Some(true)));
}

#[test]
fn hex_colours_take_long_and_short_forms() {
    assert_eq!(parse_hex("#1a2B3c"), Some(TokenColor { r: 0x1a, g: 0x2b, b: 0x3c }));
    assert_eq!(parse_hex("#fa0"), Some(TokenColor { r: 0xff, g: 0xaa, b: 0x00 }));
    assert_eq!(parse_hex("ff8800"), None);
    assert_eq!(parse_hex("#ff88"), None);
    assert_eq!(parse_hex("#gg0000"), None);
}

#[test]
fn separators_tighten_after_icons_and_before_git_status() {
    let icon = unstyled(ResolvedTokenKind::StateIcon);
    let name = unstyled(ResolvedTokenKind::Workspace("w".to_string()));
    let git = unstyled(ResolvedTokenKind::GitStatus { ahead: 1, behind: 0 });
    let branch = unstyled(ResolvedTokenKind::Branch("b".to_string()));
    assert_eq!(separator(&icon, &name), " ");
    assert_eq!(separator(&name, &branch), " · ");
    assert_eq!(separator(&branch, &git), " ");
}
