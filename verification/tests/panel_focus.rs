use herdr::panel_focus::{
    cycle_panel_focus, decide_shortcut, focus_panels, leave_search_focus, Mode, NavigateAction,
    Panel, PanelLayout, ShortcutAction, ShortcutContext, ShortcutDecision, ShortcutMatches,
};
use herdr::search_pane::SearchPaneState;

fn layout() -> PanelLayout {
    PanelLayout {
        sidebar_collapsed: false,
        mobile: false,
        sidebar_width: 26,
        sidebar_height: 20,
        spaces_height: 10,
        agents_height: 10,
        has_active: true,
        search_visible: true,
        search_width: 30,
    }
}

#[test]
fn focus_cycles_forward_and_backward_over_every_panel() {
    let l = layout();
    let (mut mode, mut agents) = (Mode::Terminal, false);
    for expected in [
        (Mode::SearchPane, false),
        (Mode::Navigate, false),
        (Mode::Navigate, true),
        (Mode::Terminal, false),
    ] {
        (mode, agents) = cycle_panel_focus(&l, mode, agents, false).unwrap();
        assert_eq!((mode, agents), expected);
    }
    for expected in [
        (Mode::Navigate, true),
        (Mode::Navigate, false),
        (Mode::SearchPane, false),
        (Mode::Terminal, false),
    ] {
        (mode, agents) = cycle_panel_focus(&l, mode, agents, true).unwrap();
        assert_eq!((mode, agents), expected);
    }
}

#[test]
fn focus_skips_closed_collapsed_mobile_and_unrendered_panels() {
    let mut l = layout();
    l.search_visible = false;
    assert_eq!(
        cycle_panel_focus(&l, Mode::Terminal, false, false),
        Some((Mode::Navigate, false))
    );
    l.sidebar_collapsed = true;
    assert_eq!(
        cycle_panel_focus(&l, Mode::Navigate, false, false),
        Some((Mode::Terminal, false))
    );
    assert_eq!(
        cycle_panel_focus(&l, Mode::Terminal, false, false),
        Some((Mode::Terminal, false))
    );
    l.sidebar_collapsed = false;
    l.mobile = true;
    assert_eq!(
        cycle_panel_focus(&l, Mode::Terminal, false, false),
        Some((Mode::Terminal, false))
    );
    l.search_visible = true;
    l.search_width = 0;
    assert_eq!(
        cycle_panel_focus(&l, Mode::Terminal, false, false),
        Some((Mode::Terminal, false))
    );
}

#[test]
fn short_agents_section_and_empty_screen() {
    let mut l = layout();
    l.agents_height = 2;
    assert_eq!(
        focus_panels(&l),
        vec![Panel::Spaces, Panel::Terminal, Panel::Search]
    );
    l.sidebar_collapsed = true;
    l.has_active = false;
    l.search_visible = false;
    assert!(focus_panels(&l).is_empty());
    assert_eq!(cycle_panel_focus(&l, Mode::Prefix, false, true), None);
}

#[test]
fn prefix_mode_counts_as_the_terminal() {
    let l = layout();
    assert_eq!(
        cycle_panel_focus(&l, Mode::Prefix, false, true),
        Some((Mode::Navigate, true))
    );
}

fn nothing() -> ShortcutMatches {
    ShortcutMatches {
        search_pane: false,
        focus_panel_previous: false,
        focus_panel_next: false,
        previous_workspace: false,
        next_workspace: false,
        previous_agent: false,
        next_agent: false,
        search_result_previous: false,
        search_result_next: false,
        search_input: false,
        search_mode: false,
    }
}

fn context(mode: Mode) -> ShortcutContext {
    ShortcutContext {
        mode,
        popup_open: false,
        release: false,
        search_visible: true,
        results_fresh: true,
    }
}

fn decided(handled: bool, leave_prefix: bool, action: Option<ShortcutAction>) -> ShortcutDecision {
    ShortcutDecision { handled, leave_prefix, action }
}

#[test]
fn shortcuts_do_not_act_in_modal_modes_or_under_a_popup() {
    let mut m = nothing();
    m.focus_panel_next = true;
    m.search_input = true;
    assert_eq!(decide_shortcut(&context(Mode::Modal), &m), decided(false, false, None));
    let mut c = context(Mode::Terminal);
    c.popup_open = true;
    assert_eq!(decide_shortcut(&c, &m), decided(false, false, None));
}

#[test]
fn closed_search_reserves_result_keys_but_not_input_or_mode_keys() {
    let mut c = context(Mode::Terminal);
    c.search_visible = false;
    let mut m = nothing();
    m.search_result_next = true;
    assert_eq!(decide_shortcut(&c, &m), decided(true, false, None));
    let mut m = nothing();
    m.search_input = true;
    assert_eq!(decide_shortcut(&c, &m), decided(false, false, None));
    let mut m = nothing();
    m.search_mode = true;
    assert_eq!(decide_shortcut(&c, &m), decided(false, false, None));
}

#[test]
fn search_toggle_leaves_prefix_and_cancels_ai_when_open() {
    let mut m = nothing();
    m.search_pane = true;
    assert_eq!(
        decide_shortcut(&context(Mode::Prefix), &m),
        decided(true, true, Some(ShortcutAction::ToggleSearch { cancel_ai: true }))
    );
    let mut c = context(Mode::Navigate);
    c.search_visible = false;
    assert_eq!(
        decide_shortcut(&c, &m),
        decided(true, false, Some(ShortcutAction::ToggleSearch { cancel_ai: false }))
    );
    c.release = true;
    assert_eq!(decide_shortcut(&c, &m), decided(true, false, None));
}

#[test]
fn navigation_restores_focus_except_after_prefix() {
    let mut m = nothing();
    m.next_agent = true;
    m.previous_agent = true;
    assert_eq!(
        decide_shortcut(&context(Mode::SearchPane), &m),
        decided(
            true,
            false,
            Some(ShortcutAction::Navigate {
                action: NavigateAction::PreviousAgent,
                restore_focus: true
            })
        )
    );
    let mut m = nothing();
    m.next_workspace = true;
    assert_eq!(
        decide_shortcut(&context(Mode::Prefix), &m),
        decided(
            true,
            false,
            Some(ShortcutAction::Navigate {
                action: NavigateAction::NextWorkspace,
                restore_focus: false
            })
        )
    );
}

#[test]
fn result_keys_step_only_fresh_results() {
    let mut m = nothing();
    m.search_result_previous = true;
    assert_eq!(
        decide_shortcut(&context(Mode::Terminal), &m),
        decided(true, false, Some(ShortcutAction::StepResult { backwards: true }))
    );
    let mut c = context(Mode::Prefix);
    c.results_fresh = false;
    assert_eq!(decide_shortcut(&c, &m), decided(true, true, None));
    let mut m = nothing();
    m.search_mode = true;
    assert_eq!(
        decide_shortcut(&context(Mode::Navigate), &m),
        decided(true, false, Some(ShortcutAction::ToggleSearchMode))
    );
    let mut m = nothing();
    m.focus_panel_previous = true;
    assert_eq!(
        decide_shortcut(&context(Mode::Terminal), &m),
        decided(true, false, Some(ShortcutAction::CycleFocus { reverse: true }))
    );
}

#[test]
fn toggling_the_search_pane_moves_focus() {
    let mut pane = SearchPaneState::default();
    let mut mode = Mode::Navigate;
    pane.toggle(&mut mode, true);
    assert!(pane.visible);
    assert_eq!(mode, Mode::SearchPane);
    pane.toggle(&mut mode, true);
    assert!(!pane.visible);
    assert_eq!(mode, Mode::Terminal);
    pane.toggle(&mut mode, false);
    mode = Mode::SearchPane;
    pane.toggle(&mut mode, false);
    assert_eq!(mode, Mode::Navigate);
    let mut other = Mode::Prefix;
    leave_search_focus(&mut other, true);
    assert_eq!(other, Mode::Prefix);
}
