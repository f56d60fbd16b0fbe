use herdr::editor::Rect;
use herdr::search_pane::{
    ai_json_span, ai_section, ai_sections, body_rows, build_ai_prompt, checked_recent_hits,
    click_target, collapse_ws, first_words, group_subtitle, group_title, make_hit,
    mode_chip_rects, plural, recent_hits, row_index_of_flat, search_pane_width, search_prompt, status_text, AgentPanelEntry,
    AiPaneRef, BodyRow, SearchGroup, SearchPaneClick, SearchPaneMode, SearchPaneState, TextMatch,
    TextPoint, AI_MAX_PROMPT_CHARS, HEADER_ROWS, PROMPT_HEAD, PROMPT_RULES,
};

fn m(row: u32) -> TextMatch {
    TextMatch {
        start: TextPoint { row, col: 0 },
        end: TextPoint { row, col: 3 },
    }
}

fn group(n: usize) -> SearchGroup {
    SearchGroup {
        ws_idx: 0,
        tab_idx: 0,
        pane_id: 1,
        title: String::new(),
        subtitle: String::new(),
        tokens: Vec::new(),
        hits: (0..n).map(|r| make_hit(m(r as u32), "x", "x")).collect(),
    }
}

#[test]
fn recent_hits_keeps_last_three_rows_newest_first() {
    let found = (0..6u32).map(|r| (m(r), format!("line {r} foo"))).collect();
    let hits = recent_hits(found, "foo");
    let rows: Vec<u32> = hits.iter().map(|h| h.text_match.start.row).collect();
    assert_eq!(rows, vec![5, 4, 3]);
    assert_eq!(hits[0].snippet, "line 5 foo");
    assert_eq!(hits[0].match_char, 7);
}

#[test]
fn recent_hits_dedupes_same_row() {
    let found = vec![(m(2), "a foo foo".to_string()), (m(2), "a foo foo".to_string()), (m(1), "foo".to_string())];
    assert_eq!(recent_hits(found, "foo").len(), 2);
}

#[test]
fn body_rows_flatten_groups_with_gaps() {
    let mut state = SearchPaneState::default();
    state.groups = vec![group(2), group(1)];
    let rows = body_rows(&state);
    assert_eq!(rows.len(), 6);
    assert_eq!(rows[3], BodyRow::Gap);
    assert!(matches!(rows[5], BodyRow::Hit { flat: 2, .. }));
    assert_eq!(state.hit_count(), 3);
    assert!(state.hit(2).is_some());
    assert!(state.hit(3).is_none());
}

#[test]
fn click_targets_follow_layout() {
    let mut state = SearchPaneState::default();
    let mut g = group(1);
    g.title = "t".to_string();
    state.groups = vec![g];
    let rect = Rect::new(100, 0, 40, 20);
    assert_eq!(click_target(&state, rect, 99, 5), None);
    assert_eq!(click_target(&state, rect, 105, 1), Some(SearchPaneClick::Input));
    let (kw, ai) = mode_chip_rects(rect);
    assert_eq!(click_target(&state, rect, kw.x, 0), Some(SearchPaneClick::ModeKeyword));
    assert_eq!(click_target(&state, rect, ai.x, 0), Some(SearchPaneClick::ModeAi));
    assert_eq!(click_target(&state, rect, 105, HEADER_ROWS), Some(SearchPaneClick::Background));
    assert_eq!(click_target(&state, rect, 105, HEADER_ROWS + 1), Some(SearchPaneClick::Hit(0)));
}

#[test]
fn chips_sit_right_aligned_on_the_title_row() {
    let (kw, ai) = mode_chip_rects(Rect::new(100, 0, 40, 20));
    // inner row spans 101..140; " AI " is 4 wide with one column after it
    assert_eq!((ai.x, ai.y, ai.width, ai.height), (135, 0, 4, 1));
    assert_eq!((kw.x, kw.width), (125, 9));
    let (kw, ai) = mode_chip_rects(Rect::new(0, 0, 10, 5));
    assert_eq!((kw.width, ai.width), (0, 0));
}

#[test]
fn hit_rows_are_found_by_flat_index() {
    let mut state = SearchPaneState::default();
    state.groups = vec![group(2), group(1)];
    let rows = body_rows(&state);
    assert_eq!(row_index_of_flat(&rows, 0), Some(1));
    assert_eq!(row_index_of_flat(&rows, 2), Some(5));
    assert_eq!(row_index_of_flat(&rows, 3), None);
}

#[test]
fn pane_width_is_a_clamped_share_of_the_main_area() {
    let mut state = SearchPaneState::default();
    assert_eq!(search_pane_width(&state, Rect::new(0, 0, 200, 10)), 0);
    state.visible = true;
    assert_eq!(search_pane_width(&state, Rect::new(0, 0, 70, 10)), 0);
    assert_eq!(search_pane_width(&state, Rect::new(0, 0, 71, 10)), 30);
    assert_eq!(search_pane_width(&state, Rect::new(0, 0, 100, 10)), 35);
    assert_eq!(search_pane_width(&state, Rect::new(0, 0, 300, 10)), 64);
}

#[test]
fn whitespace_collapses_and_first_words_cut() {
    assert_eq!(collapse_ws("  a \t b\n\nc  "), "a b c");
    assert_eq!(collapse_ws(" \t "), "");
    assert_eq!(first_words("  one two   three four ", 2), "one two");
    assert_eq!(first_words("one", 5), "one");
    assert_eq!(first_words("one two", 0), "");
}

#[test]
fn make_hit_finds_the_needle_case_insensitively_in_characters() {
    let hit = make_hit(m(4), "  Ärger   über  FOO bar", "foo");
    assert_eq!(hit.snippet, "Ärger über FOO bar");
    assert_eq!(hit.match_char, 11);
    let miss = make_hit(m(4), "nothing here", "zzz");
    assert_eq!(miss.match_char, 0);
}

#[test]
fn checked_recent_hits_agrees_with_recent_hits() {
    let found: Vec<_> = (0..4u32).map(|r| (m(r), format!("row {r} needle"))).collect();
    let again: Vec<_> = (0..4u32).map(|r| (m(r), format!("row {r} needle"))).collect();
    let a = checked_recent_hits(found, "needle").expect("every line can be cut");
    let b = recent_hits(again, "needle");
    assert_eq!(a.len(), 3);
    for (x, y) in a.iter().zip(b.iter()) {
        assert_eq!(x.text_match, y.text_match);
        assert_eq!(x.snippet, y.snippet);
        assert_eq!(x.match_char, y.match_char);
    }
}

#[test]
fn typing_drops_control_characters_and_invalidates() {
    let mut state = SearchPaneState::default();
    state.query = "foo".to_string();
    state.searched = Some(("foo".to_string(), SearchPaneMode::Keyword));
    state.selected = Some(0);
    state.insert_text("\u{7}");
    assert_eq!(state.query, "foo");
    assert_eq!(state.selected, Some(0));
    state.insert_text("b\u{1b}ar");
    assert_eq!(state.query, "foobar");
    assert_eq!(state.selected, None);
    assert_eq!(state.status.as_deref(), Some("enter to search"));
    assert!(!state.results_fresh());
}

#[test]
fn set_mode_reports_a_change() {
    let mut state = SearchPaneState::default();
    assert!(!state.set_mode(SearchPaneMode::Keyword));
    assert!(state.set_mode(SearchPaneMode::Ai));
    assert_eq!(state.mode, SearchPaneMode::Ai);
    assert_eq!(SearchPaneMode::Ai.toggled(), SearchPaneMode::Keyword);
}

#[test]
fn selection_wraps_and_scrolls_into_view() {
    let mut state = SearchPaneState::default();
    state.groups = vec![group(2), group(3)];
    // body is 20 - 3 rows high
    let rect = Rect::new(0, 0, 30, 20);
    state.move_selection(-1, rect);
    assert_eq!(state.selected, Some(4));
    state.move_selection(1, rect);
    assert_eq!(state.selected, Some(0));
    state.move_selection(-1, rect);
    assert_eq!(state.selected, Some(4));
    state.move_selection(7, rect);
    assert_eq!(state.selected, Some(1));

    // a tiny viewport: the selected row must be the one shown
    let small = Rect::new(0, 0, 30, 4);
    state.scroll = 0;
    state.selected = None;
    state.move_selection(-1, small);
    assert_eq!(state.selected, Some(4));
    assert_eq!(state.scroll, 7);
    state.move_selection(1, small);
    assert_eq!(state.selected, Some(0));
    // first hit of its group: the header row above it comes into view
    assert_eq!(state.scroll, 0);

    let mut empty = SearchPaneState::default();
    empty.selected = Some(3);
    empty.move_selection(1, rect);
    assert_eq!(empty.selected, None);
}

#[test]
fn scrolling_stays_within_the_rows() {
    let mut state = SearchPaneState::default();
    state.groups = vec![group(2), group(3)];
    let rect = Rect::new(0, 0, 30, 6);
    // 8 rows in a viewport of 3
    state.scroll_by(100, rect);
    assert_eq!(state.scroll, 5);
    state.scroll_by(-2, rect);
    assert_eq!(state.scroll, 3);
    state.scroll_by(-100, rect);
    assert_eq!(state.scroll, 0);
}

#[test]
fn starting_a_query_trims_or_clears() {
    let mut state = SearchPaneState::default();
    state.groups = vec![group(1)];
    state.scroll = 4;
    state.query = "  foo ".to_string();
    assert_eq!(state.start_query().as_deref(), Some("foo"));
    assert_eq!(state.scroll, 0);
    assert_eq!(state.groups.len(), 1);
    state.query = " \t".to_string();
    state.status = Some("x".to_string());
    assert_eq!(state.start_query(), None);
    assert!(state.groups.is_empty());
    assert_eq!(state.status, None);
    assert_eq!(state.searched, None);
}

#[test]
fn keyword_status_counts_hits_and_agents() {
    let mut state = SearchPaneState::default();
    state.finish_keyword_search("foo".to_string(), vec![group(2), group(1)]);
    assert_eq!(state.status.as_deref(), Some("3 in 2 agents"));
    state.finish_keyword_search("foo".to_string(), vec![group(1)]);
    assert_eq!(state.status.as_deref(), Some("1 in 1 agent"));
    state.finish_keyword_search("foo".to_string(), Vec::new());
    assert_eq!(state.status.as_deref(), Some("no matches"));
    state.query = "foo".to_string();
    assert!(state.results_fresh());
    assert_eq!(plural(2), "s");
    assert_eq!(plural(1), "");
}

fn pane(title: &str) -> AiPaneRef {
    AiPaneRef {
        ws_idx: 0,
        tab_idx: 0,
        pane_id: 7,
        title: title.to_string(),
        subtitle: "sub".to_string(),
        tokens: Vec::new(),
    }
}

#[test]
fn ai_search_tracks_generations() {
    let mut state = SearchPaneState::default();
    assert_eq!(state.begin_ai_search("q".to_string(), Vec::new()), None);
    assert_eq!(state.status.as_deref(), Some("no agent panes to search"));
    let generation = state.begin_ai_search("q".to_string(), vec![pane("a")]).unwrap();
    assert_eq!(generation, 1);
    assert!(state.ai_inflight);
    assert_eq!(state.status.as_deref(), Some("thinking…"));
    // a reply to an older search is ignored
    assert_eq!(state.ai_reply(0, Ok("[]".to_string())), None);
    assert!(state.ai_inflight);
    assert_eq!(state.ai_reply(1, Err("boom".to_string())), None);
    assert!(!state.ai_inflight);
    assert_eq!(state.status.as_deref(), Some("AI search failed: boom"));
    let generation = state.begin_ai_search("q".to_string(), vec![pane("a")]).unwrap();
    assert_eq!(state.ai_reply(generation, Ok("sure: [1]".to_string())).as_deref(), Some("[1]"));
    let generation = state.begin_ai_search("q".to_string(), vec![pane("a")]).unwrap();
    assert_eq!(state.ai_reply(generation, Ok("no".to_string())), None);
    assert_eq!(state.status.as_deref(), Some("AI reply unreadable: no JSON array in reply"));
    state.finish_ai_search(vec![group(2)]);
    assert_eq!(state.status.as_deref(), Some("AI: 2 in 1 agent"));
    state.finish_ai_search(Vec::new());
    assert_eq!(state.status.as_deref(), Some("AI found nothing relevant"));
}

#[test]
fn json_span_tolerates_prose_and_fences() {
    let out = "Sure!\n```json\n[{\"pane\": 2, \"quotes\": [\"hello\"]}]\n```";
    assert_eq!(ai_json_span(out).unwrap(), "[{\"pane\": 2, \"quotes\": [\"hello\"]}]");
    assert_eq!(ai_json_span("nothing here").unwrap_err(), "no JSON array in reply");
    assert_eq!(ai_json_span("] then [").unwrap_err(), "malformed JSON array");
    assert_eq!(ai_json_span("[ only").unwrap_err(), "no JSON array in reply");
}

#[test]
fn prompt_wraps_the_request_and_sections() {
    let sections = vec!["### PANE 1 — a (b)\nx\n".to_string()];
    let prompt = build_ai_prompt("find it", &sections);
    assert!(prompt.starts_with("You are the search engine for a terminal multiplexer running several AI coding agents. Below are"));
    assert!(prompt.contains("The user is looking for: find it\n\nFind the passages"));
    assert!(prompt.contains("exactly this shape:\n[{\"pane\": 1, \"quotes\": [\"exact text from pane 1\", \"...\"]}, {\"pane\": 3, \"quotes\": [\"...\"]}]\n\n### PANE 1"));
    assert_eq!(prompt, format!("{PROMPT_HEAD}find it{PROMPT_RULES}{}\n", sections[0]));
    assert_eq!(ai_section(3, "t", "s", "body"), "### PANE 3 — t (s)\nbody\n");
}

#[test]
fn ai_sections_skip_blank_panes_and_spend_the_budget() {
    let cands = vec![
        (pane("a"), "  \n ".to_string()),
        (pane("b"), "  hello  ".to_string()),
        (pane("c"), "x".repeat(AI_MAX_PROMPT_CHARS + 10)),
        (pane("d"), "never".to_string()),
    ];
    let (sections, panes) = ai_sections(cands);
    assert_eq!(panes.iter().map(|p| p.title.as_str()).collect::<Vec<_>>(), vec!["b", "c"]);
    assert_eq!(sections[0], "### PANE 1 — b (sub)\nhello\n");
    assert!(sections[1].starts_with("### PANE 2 — c (sub)\n"));
    assert_eq!(sections[1].len(), "### PANE 2 — c (sub)\n".len() + AI_MAX_PROMPT_CHARS - 5 + 1);
}

#[test]
fn titles_prefer_topic_and_subtitles_name_the_model() {
    let mut entry = AgentPanelEntry {
        ws_idx: 0,
        tab_idx: 0,
        pane_id: 3,
        index: 2,
        primary_label: "Work".to_string(),
        primary_tab_label: None,
        pane_label: None,
        terminal_title: None,
        terminal_title_stripped: None,
        agent_label: Some("pi".to_string()),
        agent: Some("pi".to_string()),
        tokens: vec![("topic".to_string(), "yt-radio".to_string())],
    };
    assert_eq!(group_title(&entry), "2 · yt-radio");
    assert_eq!(group_subtitle(&entry), "Work · pi");
    entry.tokens = vec![
        ("topic".to_string(), "  ".to_string()),
        ("model".to_string(), "fable-5-1".to_string()),
    ];
    assert_eq!(group_title(&entry), "2 · pi");
    assert_eq!(group_subtitle(&entry), "Work · fable-5-1");
    entry.agent_label = None;
    entry.tokens = Vec::new();
    assert_eq!(group_title(&entry), "2 · Work");
    assert_eq!(group_subtitle(&entry), "Work");
}

#[test]
fn the_prompt_and_the_status_hint_follow_the_mode() {
    assert_eq!(search_prompt(SearchPaneMode::Keyword), " / ");
    assert_eq!(search_prompt(SearchPaneMode::Ai), " ? ");
    assert_eq!(
        status_text(&None, SearchPaneMode::Keyword),
        "enter: search · tab: AI · esc: back to pane"
    );
    assert_eq!(
        status_text(&None, SearchPaneMode::Ai),
        "enter: ask · tab: keyword · esc: back to pane"
    );
    assert_eq!(status_text(&Some("3 hits".to_string()), SearchPaneMode::Ai), "3 hits");
}
