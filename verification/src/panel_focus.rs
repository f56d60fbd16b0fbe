//! Global panel shortcuts: moving keyboard focus between the sidebar's spaces
//! and agents sections, the main terminal and the search pane, forward or
//! backward over the panels that are on screen; opening and closing the search
//! pane; and what a shortcut key does in each mode.
use crate::search_pane::{SearchPaneMode, SearchPaneState};
use vstd::prelude::*;

verus! {

#[derive(Clone, Copy, Debug, PartialEq, Eq, Structural)]
pub enum Panel {
    Spaces,
    Agents,
    Terminal,
    Search,
}

/// Input modes: the three panel focuses, the prefix key, and every other
/// mode (dialogs, copy mode, settings), where panel shortcuts do not act.
#[derive(Clone, Copy, Debug, PartialEq, Eq, Structural)]
pub enum Mode {
    Terminal,
    Navigate,
    SearchPane,
    Prefix,
    Modal,
}

/// What of the screen the panel order depends on.
#[derive(Clone, Copy, Debug, PartialEq, Eq, Structural)]
pub struct PanelLayout {
    pub sidebar_collapsed: bool,
    /// The narrow layout has no sidebar panels.
    pub mobile: bool,
    pub sidebar_width: u16,
    pub sidebar_height: u16,
    /// Rows of the sidebar's spaces section.
    pub spaces_height: u16,
    /// Rows of the sidebar's agents section.
    pub agents_height: u16,
    /// Whether a workspace is open in the main area.
    pub has_active: bool,
    pub search_visible: bool,
    pub search_width: u16,
}

pub open spec fn sidebar_shown(l: PanelLayout) -> bool {
    !l.sidebar_collapsed && !l.mobile && l.sidebar_width > 1 && l.sidebar_height > 0
}

pub open spec fn one_if(b: bool, p: Panel) -> Seq<Panel> {
    if b {
        seq![p]
    } else {
        Seq::empty()
    }
}

/// The panels focus cycles through, in screen order.
pub open spec fn panels_of(l: PanelLayout) -> Seq<Panel> {
    one_if(sidebar_shown(l) && l.spaces_height > 0, Panel::Spaces) + one_if(
        sidebar_shown(l) && l.agents_height >= 3,
        Panel::Agents,
    ) + one_if(l.has_active, Panel::Terminal) + one_if(
        l.search_visible && l.search_width > 0,
        Panel::Search,
    )
}

/// The panel that has focus in a mode; the prefix mode counts as the
/// terminal.
pub open spec fn current_panel(mode: Mode, navigate_agents: bool) -> Panel {
    match mode {
        Mode::Navigate => if navigate_agents {
            Panel::Agents
        } else {
            Panel::Spaces
        },
        Mode::SearchPane => Panel::Search,
        _ => Panel::Terminal,
    }
}

/// The mode that gives a panel focus.
pub open spec fn mode_of(p: Panel) -> Mode {
    match p {
        Panel::Spaces | Panel::Agents => Mode::Navigate,
        Panel::Terminal => Mode::Terminal,
        Panel::Search => Mode::SearchPane,
    }
}

/// Position of the first `p` in `ps` from `i` on.
pub open spec fn position_from(ps: Seq<Panel>, p: Panel, i: int) -> Option<int>
    decreases ps.len() - i,
{
    if i < 0 || i >= ps.len() {
        None
    } else if ps[i] == p {
        Some(i)
    } else {
        position_from(ps, p, i + 1)
    }
}

/// The position focus moves to among `n` panels from `pos`, the current
/// panel's position if it is on screen: the next one, wrapping, or the previous
/// one; from off screen, the first or the last.
pub open spec fn next_position(pos: Option<int>, n: int, reverse: bool) -> int {
    match pos {
        Some(i) => if reverse {
            (i + n - 1) % n
        } else {
            (i + 1) % n
        },
        None => if reverse {
            n - 1
        } else {
            0
        },
    }
}

/// The mode and agents flag after cycling focus, or `None` when no panel is
/// on screen and nothing changes.
pub open spec fn cycled(l: PanelLayout, mode: Mode, navigate_agents: bool, reverse: bool) -> Option<
    (Mode, bool),
> {
    let ps = panels_of(l);
    if ps.len() == 0 {
        None
    } else {
        let next = ps[next_position(
            position_from(ps, current_panel(mode, navigate_agents), 0),
            ps.len() as int,
            reverse,
        )];
        Some((mode_of(next), next == Panel::Agents))
    }
}

fn push_if(v: &mut Vec<Panel>, b: bool, p: Panel)
    ensures
        final(v)@ == old(v)@ + one_if(b, p),
{
    if b {
        v.push(p);
    }
    proof {
        assert(v@ =~= old(v)@ + one_if(b, p));
    }
}

/// The panels on screen, in the order focus visits them.
pub fn focus_panels(l: &PanelLayout) -> (r: Vec<Panel>)
    ensures
        r@ == panels_of(*l),
{
    let side = !l.sidebar_collapsed && !l.mobile && l.sidebar_width > 1 && l.sidebar_height > 0;
    let mut v: Vec<Panel> = Vec::new();
    push_if(&mut v, side && l.spaces_height > 0, Panel::Spaces);
    push_if(&mut v, side && l.agents_height >= 3, Panel::Agents);
    push_if(&mut v, l.has_active, Panel::Terminal);
    push_if(&mut v, l.search_visible && l.search_width > 0, Panel::Search);
    proof {
        assert(v@ =~= panels_of(*l));
    }
    v
}

fn panel_position(ps: &Vec<Panel>, p: Panel) -> (r: Option<usize>)
    ensures
        r matches Some(i) ==> i < ps.len(),
        match r {
            Some(i) => position_from(ps@, p, 0) == Some(i as int),
            None => position_from(ps@, p, 0) is None,
        },
{
    let mut i: usize = 0;
    while i < ps.len()
        invariant
            i <= ps.len(),
            position_from(ps@, p, 0) == position_from(ps@, p, i as int),
        decreases ps.len() - i,
    {
        if ps[i] == p {
            return Some(i);
        }
        i += 1;
    }
    None
}

/// Moves focus to the next panel on screen, or the previous one when
/// `reverse`; returns the new mode and whether the agents section has focus,
/// or `None` when no panel is on screen.
pub fn cycle_panel_focus(l: &PanelLayout, mode: Mode, navigate_agents: bool, reverse: bool) -> (r:
    Option<(Mode, bool)>)
    ensures
        r == cycled(*l, mode, navigate_agents, reverse),
{
    let ps = focus_panels(l);
    let n = ps.len();
    if n == 0 {
        return None;
    }
    assert(n <= 4);
    let current = match mode {
        Mode::Navigate => if navigate_agents {
            Panel::Agents
        } else {
            Panel::Spaces
        },
        Mode::SearchPane => Panel::Search,
        _ => Panel::Terminal,
    };
    let next = match panel_position(&ps, current) {
        Some(i) => if reverse {
            (i + n - 1) % n
        } else {
            (i + 1) % n
        },
        None => if reverse {
            n - 1
        } else {
            0
        },
    };
    let p = ps[next];
    let m = match p {
        Panel::Spaces | Panel::Agents => Mode::Navigate,
        Panel::Terminal => Mode::Terminal,
        Panel::Search => Mode::SearchPane,
    };
    Some((m, p == Panel::Agents))
}

proof fn lemma_position_of_distinct(ps: Seq<Panel>, j: int, i: int)
    requires
        0 <= i <= j < ps.len(),
        forall|a: int, b: int| 0 <= a < b < ps.len() ==> ps[a] != ps[b],
    ensures
        position_from(ps, ps[j], i) == Some(j),
    decreases j - i,
{
    if i < j {
        lemma_position_of_distinct(ps, j, i + 1);
    }
}

/// The on-screen panels are distinct.
pub proof fn lemma_panels_distinct(l: PanelLayout)
    ensures
        forall|a: int, b: int|
            0 <= a < b < panels_of(l).len() ==> panels_of(l)[a] != panels_of(l)[b],
{
}

/// From a panel on screen, moving focus forward and then backward returns to
/// that panel, and so does moving backward and then forward.
pub proof fn law_cycle_forward_then_back(
    l: PanelLayout,
    mode: Mode,
    navigate_agents: bool,
    reverse: bool,
)
    requires
        panels_of(l).contains(current_panel(mode, navigate_agents)),
    ensures
        cycled(l, mode, navigate_agents, reverse) is Some,
        ({
            let (m1, a1) = cycled(l, mode, navigate_agents, reverse)->Some_0;
            &&& cycled(l, m1, a1, !reverse) is Some
            &&& ({
                let (m2, a2) = cycled(l, m1, a1, !reverse)->Some_0;
                current_panel(m2, a2) == current_panel(mode, navigate_agents)
            })
        }),
{
    let ps = panels_of(l);
    let n = ps.len() as int;
    lemma_panels_distinct(l);
    let c = current_panel(mode, navigate_agents);
    let i = choose|i: int| 0 <= i < ps.len() && ps[i] == c;
    lemma_position_of_distinct(ps, i, 0);
    let j = next_position(Some(i), n, reverse);
    assert(0 <= j < n) by (nonlinear_arith)
        requires
            0 <= i < n,
            j == (if reverse {
                (i + n - 1) % n
            } else {
                (i + 1) % n
            }),
    ;
    let p = ps[j];
    assert(current_panel(mode_of(p), p == Panel::Agents) == p);
    lemma_position_of_distinct(ps, j, 0);
    let k = next_position(Some(j), n, !reverse);
    assert(k == i) by (nonlinear_arith)
        requires
            0 <= i < n,
            j == (if reverse {
                (i + n - 1) % n
            } else {
                (i + 1) % n
            }),
            k == (if !reverse {
                (j + n - 1) % n
            } else {
                (j + 1) % n
            }),
    ;
    assert(current_panel(mode_of(ps[k]), ps[k] == Panel::Agents) == ps[k]);
}

// ---------------------------------------------------------------------------
// Opening and closing the search pane
// ---------------------------------------------------------------------------

/// The mode focus returns to from the search pane or the prefix key: the
/// terminal when a workspace is open, else the sidebar.
pub open spec fn home_mode(has_active: bool) -> Mode {
    if has_active {
        Mode::Terminal
    } else {
        Mode::Navigate
    }
}

fn home_mode_of(has_active: bool) -> (r: Mode)
    ensures
        r == home_mode(has_active),
{
    if has_active {
        Mode::Terminal
    } else {
        Mode::Navigate
    }
}

impl SearchPaneState {
    /// Shows the pane and gives it focus.
    pub fn focus(&mut self, mode: &mut Mode)
        ensures
            *final(self) == (SearchPaneState { visible: true, ..*old(self) }),
            *final(mode) == Mode::SearchPane,
    {
        self.visible = true;
        *mode = Mode::SearchPane;
    }

    /// Opens a closed pane with focus; closes an open one, dropping its jump
    /// highlight and handing focus back if it had it.
    pub fn toggle(&mut self, mode: &mut Mode, has_active: bool)
        ensures
            old(self).visible ==> {
                &&& *final(self) == (SearchPaneState {
                    visible: false,
                    jump_highlight: None,
                    ..*old(self)
                })
                &&& *final(mode) == (if *old(mode) == Mode::SearchPane {
                    home_mode(has_active)
                } else {
                    *old(mode)
                })
            },
            !old(self).visible ==> {
                &&& *final(self) == (SearchPaneState { visible: true, ..*old(self) })
                &&& *final(mode) == Mode::SearchPane
            },
    {
        if self.visible {
            self.visible = false;
            self.jump_highlight = None;
            leave_search_focus(mode, has_active);
        } else {
            self.focus(mode);
        }
    }
}

/// Hands focus back from the search pane; any other mode stays.
pub fn leave_search_focus(mode: &mut Mode, has_active: bool)
    ensures
        *final(mode) == (if *old(mode) == Mode::SearchPane {
            home_mode(has_active)
        } else {
            *old(mode)
        }),
{
    if *mode == Mode::SearchPane {
        *mode = home_mode_of(has_active);
    }
}

// ---------------------------------------------------------------------------
// What a shortcut key does
// ---------------------------------------------------------------------------

#[derive(Clone, Copy, Debug, PartialEq, Eq, Structural)]
pub enum NavigateAction {
    PreviousWorkspace,
    NextWorkspace,
    PreviousAgent,
    NextAgent,
}

/// Which configured bindings a key matched, in its direct form (or its
/// prefixed form in the prefix mode).
#[derive(Clone, Copy, Debug, PartialEq, Eq, Structural)]
pub struct ShortcutMatches {
    pub search_pane: bool,
    pub focus_panel_previous: bool,
    pub focus_panel_next: bool,
    pub previous_workspace: bool,
    pub next_workspace: bool,
    pub previous_agent: bool,
    pub next_agent: bool,
    pub search_result_previous: bool,
    pub search_result_next: bool,
    pub search_input: bool,
    pub search_mode: bool,
}

/// What the application is in when a shortcut key arrives.
#[derive(Clone, Copy, Debug, PartialEq, Eq, Structural)]
pub struct ShortcutContext {
    pub mode: Mode,
    pub popup_open: bool,
    /// The key event is a release.
    pub release: bool,
    pub search_visible: bool,
    /// The shown results were produced for the current query and mode.
    pub results_fresh: bool,
}

#[derive(Clone, Copy, Debug, PartialEq, Eq, Structural)]
pub enum ShortcutAction {
    /// Cancel a running AI search if the pane is open, then toggle the pane.
    ToggleSearch { cancel_ai: bool },
    CycleFocus { reverse: bool },
    /// Run a navigation; outside the prefix mode focus is restored after it.
    Navigate { action: NavigateAction, restore_focus: bool },
    /// Select the previous or next hit and visit it, keeping focus.
    StepResult { backwards: bool },
    /// Dismiss any preview, focus the query and clear the selection.
    FocusSearchInput,
    /// Dismiss any preview and switch between keyword and AI search.
    ToggleSearchMode,
}

/// Whether a key is a panel shortcut, whether the prefix mode is left first
/// (to the terminal, or the sidebar without a workspace, spaces section), and
/// what then happens. Releases of a shortcut are swallowed without effect.
#[derive(Clone, Copy, Debug, PartialEq, Eq, Structural)]
pub struct ShortcutDecision {
    pub handled: bool,
    pub leave_prefix: bool,
    pub action: Option<ShortcutAction>,
}

pub open spec fn decision(handled: bool, leave_prefix: bool, action: Option<ShortcutAction>) -> ShortcutDecision {
    ShortcutDecision { handled, leave_prefix, action }
}

pub open spec fn navigation_of(m: ShortcutMatches) -> Option<NavigateAction> {
    if m.previous_workspace {
        Some(NavigateAction::PreviousWorkspace)
    } else if m.next_workspace {
        Some(NavigateAction::NextWorkspace)
    } else if m.previous_agent {
        Some(NavigateAction::PreviousAgent)
    } else if m.next_agent {
        Some(NavigateAction::NextAgent)
    } else {
        None
    }
}

/// The panel shortcuts, in the order they are tried. They act in the three
/// panel focuses and the prefix mode, never under a popup. With the search
/// pane closed, the result keys are still reserved.
pub open spec fn shortcut_decision(c: ShortcutContext, m: ShortcutMatches) -> ShortcutDecision {
    let prefix = c.mode == Mode::Prefix;
    let live = !c.release;
    if c.popup_open || c.mode == Mode::Modal {
        decision(false, false, None)
    } else if m.search_pane {
        if live {
            decision(true, prefix, Some(ShortcutAction::ToggleSearch { cancel_ai: c.search_visible }))
        } else {
            decision(true, false, None)
        }
    } else if m.focus_panel_previous || m.focus_panel_next {
        if live {
            decision(true, false, Some(ShortcutAction::CycleFocus { reverse: m.focus_panel_previous }))
        } else {
            decision(true, false, None)
        }
    } else if navigation_of(m) is Some {
        if live {
            decision(
                true,
                false,
                Some(ShortcutAction::Navigate { action: navigation_of(m)->Some_0, restore_focus: !prefix }),
            )
        } else {
            decision(true, false, None)
        }
    } else if !c.search_visible {
        decision(m.search_result_previous || m.search_result_next, false, None)
    } else if !(m.search_result_previous || m.search_result_next || m.search_input || m.search_mode) {
        decision(false, false, None)
    } else if !live {
        decision(true, false, None)
    } else if m.search_result_previous || m.search_result_next {
        decision(
            true,
            prefix,
            if c.results_fresh {
                Some(ShortcutAction::StepResult { backwards: m.search_result_previous })
            } else {
                None
            },
        )
    } else if m.search_input {
        decision(true, prefix, Some(ShortcutAction::FocusSearchInput))
    } else {
        decision(true, prefix, Some(ShortcutAction::ToggleSearchMode))
    }
}

fn navigation(m: &ShortcutMatches) -> (r: Option<NavigateAction>)
    ensures
        r == navigation_of(*m),
{
    if m.previous_workspace {
        Some(NavigateAction::PreviousWorkspace)
    } else if m.next_workspace {
        Some(NavigateAction::NextWorkspace)
    } else if m.previous_agent {
        Some(NavigateAction::PreviousAgent)
    } else if m.next_agent {
        Some(NavigateAction::NextAgent)
    } else {
        None
    }
}

/// Decides what a panel shortcut key does.
pub fn decide_shortcut(c: &ShortcutContext, m: &ShortcutMatches) -> (r: ShortcutDecision)
    ensures
        r == shortcut_decision(*c, *m),
{
    let prefix = c.mode == Mode::Prefix;
    let live = !c.release;
    let none = ShortcutDecision { handled: true, leave_prefix: false, action: None };
    if c.popup_open || c.mode == Mode::Modal {
        return ShortcutDecision { handled: false, leave_prefix: false, action: None };
    }
    if m.search_pane {
        if !live {
            return none;
        }
        return ShortcutDecision {
            handled: true,
            leave_prefix: prefix,
            action: Some(ShortcutAction::ToggleSearch { cancel_ai: c.search_visible }),
        };
    }
    if m.focus_panel_previous || m.focus_panel_next {
        if !live {
            return none;
        }
        return ShortcutDecision {
            handled: true,
            leave_prefix: false,
            action: Some(ShortcutAction::CycleFocus { reverse: m.focus_panel_previous }),
        };
    }
    if let Some(action) = navigation(m) {
        if !live {
            return none;
        }
        return ShortcutDecision {
            handled: true,
            leave_prefix: false,
            action: Some(ShortcutAction::Navigate { action, restore_focus: !prefix }),
        };
    }
    let previous = m.search_result_previous;
    let next = m.search_result_next;
    if !c.search_visible {
        return ShortcutDecision { handled: previous || next, leave_prefix: false, action: None };
    }
    if !(previous || next || m.search_input || m.search_mode) {
        return ShortcutDecision { handled: false, leave_prefix: false, action: None };
    }
    if !live {
        return none;
    }
    let action = if previous || next {
        if c.results_fresh {
            Some(ShortcutAction::StepResult { backwards: previous })
        } else {
            None
        }
    } else if m.search_input {
        Some(ShortcutAction::FocusSearchInput)
    } else {
        Some(ShortcutAction::ToggleSearchMode)
    };
    ShortcutDecision { handled: true, leave_prefix: prefix, action }
}

} // verus!
