//! Sidebar rows: the configured token rows of a space or an agent, resolved
//! against what is known about it. A token with nothing to show is left out,
//! and a row left empty is dropped, so no stray separators remain.
use crate::presentation::{decimal, push_decimal};
use crate::search_pane::AgentPanelEntry;
use crate::text::{chars_of, owned, push_str, str_eq};
use crate::editor::{trim_text, trimmed};
use crate::twin::{lookup_from, pairs_view, token_value};
use vstd::prelude::*;

verus! {

/// An RGB colour.
#[derive(Debug, Clone, Copy, PartialEq, Eq, Structural)]
pub struct TokenColor {
    pub r: u8,
    pub g: u8,
    pub b: u8,
}

/// How a token is drawn; `None` leaves the theme's choice.
#[derive(Debug, Clone, Copy, PartialEq, Eq, Structural)]
pub struct SidebarTokenStyle {
    pub fg: Option<TokenColor>,
    pub bold: Option<bool>,
    pub italic: Option<bool>,
    pub dim: Option<bool>,
}

impl Default for SidebarTokenStyle {
    fn default() -> (r: Self)
        ensures
            r == (SidebarTokenStyle { fg: None, bold: None, italic: None, dim: None }),
    {
        SidebarTokenStyle { fg: None, bold: None, italic: None, dim: None }
    }
}

/// What a space row can show.
#[derive(Debug, PartialEq, Eq)]
pub enum SpaceSidebarToken {
    StateIcon,
    StateText,
    Workspace,
    Branch,
    GitStatus,
    Custom(String),
}

/// What an agent row can show.
#[derive(Debug, PartialEq, Eq)]
pub enum AgentSidebarToken {
    StateIcon,
    StateText,
    Index,
    Workspace,
    Tab,
    Pane,
    Agent,
    TerminalTitle,
    TerminalTitleStripped,
    Custom(String),
}

/// A token of a configured row, with the style configured for it.
#[derive(Debug, PartialEq, Eq)]
pub struct Configured<T> {
    pub token: T,
    pub style: SidebarTokenStyle,
}

pub struct SpacesSidebarConfig {
    pub rows: Vec<Vec<Configured<SpaceSidebarToken>>>,
}

fn plain_space(token: SpaceSidebarToken) -> (r: Configured<SpaceSidebarToken>)
    ensures
        r.token == token,
        r.style == (SidebarTokenStyle { fg: None, bold: None, italic: None, dim: None }),
{
    Configured { token, style: SidebarTokenStyle::default() }
}

impl Default for SpacesSidebarConfig {
    /// The state icon and name on the first row; branch and ahead/behind
    /// counts on the second.
    fn default() -> (r: Self)
        ensures
            r.rows@.len() == 2,
            r.rows@[0]@.len() == 2,
            r.rows@[0]@[0].token == SpaceSidebarToken::StateIcon,
            r.rows@[0]@[1].token == SpaceSidebarToken::Workspace,
            r.rows@[1]@.len() == 2,
            r.rows@[1]@[0].token == SpaceSidebarToken::Branch,
            r.rows@[1]@[1].token == SpaceSidebarToken::GitStatus,
            forall|i: int, j: int|
                0 <= i < r.rows@.len() && 0 <= j < r.rows@[i]@.len() ==> #[trigger] r.rows@[i]@[j].style
                    == (SidebarTokenStyle { fg: None, bold: None, italic: None, dim: None }),
    {
        let first = vec![plain_space(SpaceSidebarToken::StateIcon), plain_space(SpaceSidebarToken::Workspace)];
        let second = vec![plain_space(SpaceSidebarToken::Branch), plain_space(SpaceSidebarToken::GitStatus)];
        SpacesSidebarConfig { rows: vec![first, second] }
    }
}

pub struct AgentsSidebarConfig {
    pub rows: Vec<Vec<Configured<AgentSidebarToken>>>,
    /// Rows that replace `rows` for a known agent kind, by its name.
    pub rows_by_agent: Vec<(String, Vec<Vec<Configured<AgentSidebarToken>>>)>,
}

/// A resolved token, ready to draw.
#[derive(Debug, PartialEq, Eq)]
pub enum ResolvedTokenKind {
    StateIcon,
    StateText(String),
    Index(String),
    Workspace(String),
    Tab(String),
    Pane(String),
    Agent(String),
    TerminalTitle(String),
    Branch(String),
    GitStatus { ahead: usize, behind: usize },
    Custom(String),
}

/// `ResolvedTokenKind` with texts as character sequences.
pub enum KindView {
    StateIcon,
    StateText(Seq<char>),
    Index(Seq<char>),
    Workspace(Seq<char>),
    Tab(Seq<char>),
    Pane(Seq<char>),
    Agent(Seq<char>),
    TerminalTitle(Seq<char>),
    Branch(Seq<char>),
    GitStatus { ahead: usize, behind: usize },
    Custom(Seq<char>),
}

impl View for ResolvedTokenKind {
    type V = KindView;

    open spec fn view(&self) -> KindView {
        match self {
            ResolvedTokenKind::StateIcon => KindView::StateIcon,
            ResolvedTokenKind::StateText(s) => KindView::StateText(s@),
            ResolvedTokenKind::Index(s) => KindView::Index(s@),
            ResolvedTokenKind::Workspace(s) => KindView::Workspace(s@),
            ResolvedTokenKind::Tab(s) => KindView::Tab(s@),
            ResolvedTokenKind::Pane(s) => KindView::Pane(s@),
            ResolvedTokenKind::Agent(s) => KindView::Agent(s@),
            ResolvedTokenKind::TerminalTitle(s) => KindView::TerminalTitle(s@),
            ResolvedTokenKind::Branch(s) => KindView::Branch(s@),
            ResolvedTokenKind::GitStatus { ahead, behind } => KindView::GitStatus {
                ahead: *ahead,
                behind: *behind,
            },
            ResolvedTokenKind::Custom(s) => KindView::Custom(s@),
        }
    }
}

#[derive(Debug, PartialEq, Eq)]
pub struct ResolvedToken {
    pub kind: ResolvedTokenKind,
    pub style: SidebarTokenStyle,
}

impl View for ResolvedToken {
    type V = (KindView, SidebarTokenStyle);

    open spec fn view(&self) -> (KindView, SidebarTokenStyle) {
        (self.kind@, self.style)
    }
}

pub open spec fn rows_view(rows: Seq<Vec<ResolvedToken>>) -> Seq<Seq<(KindView, SidebarTokenStyle)>> {
    rows.map_values(|r: Vec<ResolvedToken>| r@.map_values(|t: ResolvedToken| t@))
}

// ---------------------------------------------------------------------------
// Colours and flags reported by the pane
// ---------------------------------------------------------------------------

pub open spec fn hex_digit(c: char) -> Option<u8> {
    if '0' <= c <= '9' {
        Some((c as u32 - 48) as u8)
    } else if 'a' <= c <= 'f' {
        Some((c as u32 - 87) as u8)
    } else if 'A' <= c <= 'F' {
        Some((c as u32 - 55) as u8)
    } else {
        None
    }
}

pub open spec fn all_hex(s: Seq<char>) -> bool {
    forall|i: int| 1 <= i < s.len() ==> (#[trigger] hex_digit(s[i])) is Some
}

pub open spec fn hex_at(s: Seq<char>, i: int) -> nat {
    hex_digit(s[i]).unwrap() as nat
}

/// `#rrggbb`, or `#rgb` where each digit is doubled.
pub open spec fn hex_color(s: Seq<char>) -> Option<TokenColor> {
    if s.len() == 7 && s[0] == '#' && all_hex(s) {
        Some(
            TokenColor {
                r: (hex_at(s, 1) * 16 + hex_at(s, 2)) as u8,
                g: (hex_at(s, 3) * 16 + hex_at(s, 4)) as u8,
                b: (hex_at(s, 5) * 16 + hex_at(s, 6)) as u8,
            },
        )
    } else if s.len() == 4 && s[0] == '#' && all_hex(s) {
        Some(
            TokenColor {
                r: (hex_at(s, 1) * 17) as u8,
                g: (hex_at(s, 2) * 17) as u8,
                b: (hex_at(s, 3) * 17) as u8,
            },
        )
    } else {
        None
    }
}

fn hex_digit_of(c: char) -> (r: Option<u8>)
    ensures
        r == hex_digit(c),
{
    if '0' <= c && c <= '9' {
        Some((c as u32 - 48) as u8)
    } else if 'a' <= c && c <= 'f' {
        Some((c as u32 - 87) as u8)
    } else if 'A' <= c && c <= 'F' {
        Some((c as u32 - 55) as u8)
    } else {
        None
    }
}

/// A colour written as `#rrggbb` or `#rgb`.
pub fn parse_hex(text: &str) -> (r: Option<TokenColor>)
    ensures
        r == hex_color(text@),
{
    let cs = chars_of(text);
    let n = cs.len();
    if (n != 7 && n != 4) || cs[0] != '#' {
        return None;
    }
    let mut digits: Vec<u8> = Vec::new();
    let mut i: usize = 1;
    while i < n
        invariant
            cs@ == text@,
            n == cs@.len(),
            1 <= i <= n,
            digits@.len() == i - 1,
            forall|k: int| 1 <= k < i ==> (#[trigger] hex_digit(text@[k])) is Some && digits@[k - 1]
                == hex_digit(text@[k]).unwrap(),
        decreases n - i,
    {
        match hex_digit_of(cs[i]) {
            Some(d) => digits.push(d),
            None => {
                return None;
            },
        }
        i += 1;
    }
    proof {
        assert(all_hex(text@));
    }
    if n == 7 {
        Some(
            TokenColor {
                r: digits[0] * 16 + digits[1],
                g: digits[2] * 16 + digits[3],
                b: digits[4] * 16 + digits[5],
            },
        )
    } else {
        Some(TokenColor { r: digits[0] * 17, g: digits[1] * 17, b: digits[2] * 17 })
    }
}

/// A flag token counts as set when its trimmed value is one of these.
pub open spec fn truthy(v: Seq<char>) -> bool {
    let t = trimmed(v);
    t == "true"@ || t == "1"@ || t == "yes"@ || t == "on"@
}

pub open spec fn flag_of(tokens: Seq<(String, String)>, key: Seq<char>) -> Option<bool> {
    match lookup_from(pairs_view(tokens), key, 0) {
        Some(v) => Some(truthy(v)),
        None => None,
    }
}

/// The style of custom token `name`: what the configuration sets wins; the
/// rest comes from sibling tokens `<name>_fg`, `<name>_bold`,
/// `<name>_italic` and `<name>_dim` that the pane reports.
pub open spec fn custom_style(tokens: Seq<(String, String)>, name: Seq<char>, style: SidebarTokenStyle) -> SidebarTokenStyle {
    SidebarTokenStyle {
        fg: if style.fg is Some {
            style.fg
        } else {
            match lookup_from(pairs_view(tokens), name + "_fg"@, 0) {
                Some(v) => hex_color(v),
                None => None,
            }
        },
        bold: if style.bold is Some {
            style.bold
        } else {
            flag_of(tokens, name + "_bold"@)
        },
        italic: if style.italic is Some {
            style.italic
        } else {
            flag_of(tokens, name + "_italic"@)
        },
        dim: if style.dim is Some {
            style.dim
        } else {
            flag_of(tokens, name + "_dim"@)
        },
    }
}

fn suffixed(name: &str, suffix: &str) -> (r: String)
    ensures
        r@ == name@ + suffix@,
{
    let mut key = owned(name);
    push_str(&mut key, suffix);
    key
}

fn is_truthy(v: &str) -> (r: bool)
    ensures
        r == truthy(v@),
{
    let t = trim_text(v);
    str_eq(t.as_str(), "true") || str_eq(t.as_str(), "1") || str_eq(t.as_str(), "yes") || str_eq(
        t.as_str(),
        "on",
    )
}

fn flag(tokens: &Vec<(String, String)>, name: &str, suffix: &str) -> (r: Option<bool>)
    ensures
        r == flag_of(tokens@, name@ + suffix@),
{
    let key = suffixed(name, suffix);
    match token_value(tokens, key.as_str()) {
        Some(v) => Some(is_truthy(v)),
        None => None,
    }
}

pub fn custom_token_style(tokens: &Vec<(String, String)>, name: &str, style: SidebarTokenStyle) -> (r: SidebarTokenStyle)
    ensures
        r == custom_style(tokens@, name@, style),
{
    let mut style = style;
    if style.fg.is_none() {
        let key = suffixed(name, "_fg");
        style.fg = match token_value(tokens, key.as_str()) {
            Some(v) => parse_hex(v),
            None => None,
        };
    }
    if style.bold.is_none() {
        style.bold = flag(tokens, name, "_bold");
    }
    if style.italic.is_none() {
        style.italic = flag(tokens, name, "_italic");
    }
    if style.dim.is_none() {
        style.dim = flag(tokens, name, "_dim");
    }
    style
}

// ---------------------------------------------------------------------------
// Space rows
// ---------------------------------------------------------------------------

/// What is known about a space when its rows are drawn.
pub struct SpaceTokenContext<'a> {
    pub workspace: &'a str,
    pub branch: Option<&'a str>,
    pub state_text: &'a str,
    pub ahead_behind: Option<(usize, usize)>,
    pub tokens: &'a Vec<(String, String)>,
    /// Grouped children leave branch and ahead/behind to their parent.
    pub suppress_git_details: bool,
}

pub open spec fn custom_value(tokens: Seq<(String, String)>, name: Seq<char>) -> Option<Seq<char>> {
    lookup_from(pairs_view(tokens), name, 0)
}

/// What a space token shows, if anything.
pub open spec fn space_kind(t: SpaceSidebarToken, c: SpaceTokenContext) -> Option<KindView> {
    match t {
        SpaceSidebarToken::StateIcon => Some(KindView::StateIcon),
        SpaceSidebarToken::StateText => Some(KindView::StateText(c.state_text@)),
        SpaceSidebarToken::Workspace => Some(KindView::Workspace(c.workspace@)),
        SpaceSidebarToken::Branch => if c.suppress_git_details {
            None
        } else {
            match c.branch {
                Some(b) => Some(KindView::Branch(b@)),
                None => None,
            }
        },
        SpaceSidebarToken::GitStatus => if c.suppress_git_details {
            None
        } else {
            match c.ahead_behind {
                Some(ab) => if ab.0 > 0 || ab.1 > 0 {
                    Some(KindView::GitStatus { ahead: ab.0, behind: ab.1 })
                } else {
                    None
                },
                None => None,
            }
        },
        SpaceSidebarToken::Custom(name) => match custom_value(c.tokens@, name@) {
            Some(v) => Some(KindView::Custom(v)),
            None => None,
        },
    }
}

/// The tokens of one configured space row that have something to show.
pub open spec fn space_row(row: Seq<Configured<SpaceSidebarToken>>, c: SpaceTokenContext) -> Seq<
    (KindView, SidebarTokenStyle),
>
    decreases row.len(),
{
    if row.len() == 0 {
        seq![]
    } else {
        let rest = space_row(row.drop_last(), c);
        match space_kind(row.last().token, c) {
            Some(k) => rest.push((k, row.last().style)),
            None => rest,
        }
    }
}

/// The configured rows that keep at least one token.
pub open spec fn space_rows_of(rows: Seq<Vec<Configured<SpaceSidebarToken>>>, c: SpaceTokenContext) -> Seq<
    Seq<(KindView, SidebarTokenStyle)>,
>
    decreases rows.len(),
{
    if rows.len() == 0 {
        seq![]
    } else {
        let rest = space_rows_of(rows.drop_last(), c);
        let r = space_row(rows.last()@, c);
        if r.len() == 0 {
            rest
        } else {
            rest.push(r)
        }
    }
}

fn space_token(t: &SpaceSidebarToken, c: &SpaceTokenContext) -> (r: Option<ResolvedTokenKind>)
    ensures
        match r {
            Some(k) => space_kind(*t, *c) == Some(k@),
            None => space_kind(*t, *c) is None,
        },
{
    match t {
        SpaceSidebarToken::StateIcon => Some(ResolvedTokenKind::StateIcon),
        SpaceSidebarToken::StateText => Some(ResolvedTokenKind::StateText(owned(c.state_text))),
        SpaceSidebarToken::Workspace => Some(ResolvedTokenKind::Workspace(owned(c.workspace))),
        SpaceSidebarToken::Branch => if c.suppress_git_details {
            None
        } else {
            match c.branch {
                Some(b) => Some(ResolvedTokenKind::Branch(owned(b))),
                None => None,
            }
        },
        SpaceSidebarToken::GitStatus => if c.suppress_git_details {
            None
        } else {
            match c.ahead_behind {
                Some((ahead, behind)) => if ahead > 0 || behind > 0 {
                    Some(ResolvedTokenKind::GitStatus { ahead, behind })
                } else {
                    None
                },
                None => None,
            }
        },
        SpaceSidebarToken::Custom(name) => match token_value(c.tokens, name.as_str()) {
            Some(v) => Some(ResolvedTokenKind::Custom(owned(v))),
            None => None,
        },
    }
}

proof fn lemma_rows_view_push(rows: Seq<Vec<ResolvedToken>>, r: Vec<ResolvedToken>)
    ensures
        rows_view(rows.push(r)) == rows_view(rows).push(r@.map_values(|t: ResolvedToken| t@)),
{
    assert(rows_view(rows.push(r)) =~= rows_view(rows).push(r@.map_values(|t: ResolvedToken| t@)));
}

/// The space's rows, resolved.
pub fn space_rows(config: &SpacesSidebarConfig, context: SpaceTokenContext) -> (r: Vec<Vec<ResolvedToken>>)
    ensures
        rows_view(r@) == space_rows_of(config.rows@, context),
{
    let mut out: Vec<Vec<ResolvedToken>> = Vec::new();
    let mut i: usize = 0;
    proof {
        assert(config.rows@.take(0) =~= Seq::<Vec<Configured<SpaceSidebarToken>>>::empty());
        assert(rows_view(out@) =~= Seq::<Seq<(KindView, SidebarTokenStyle)>>::empty());
    }
    while i < config.rows.len()
        invariant
            i <= config.rows@.len(),
            rows_view(out@) == space_rows_of(config.rows@.take(i as int), context),
        decreases config.rows@.len() - i,
    {
        let row = &config.rows[i];
        let mut resolved: Vec<ResolvedToken> = Vec::new();
        let mut j: usize = 0;
        proof {
            assert(row@.take(0) =~= Seq::<Configured<SpaceSidebarToken>>::empty());
            assert(resolved@.map_values(|t: ResolvedToken| t@) =~= Seq::<(KindView, SidebarTokenStyle)>::empty());
        }
        while j < row.len()
            invariant
                row == config.rows@[i as int],
                j <= row@.len(),
                resolved@.map_values(|t: ResolvedToken| t@) == space_row(row@.take(j as int), context),
            decreases row@.len() - j,
        {
            let configured = &row[j];
            let kind = space_token(&configured.token, &context);
            proof {
                assert(row@.take(j + 1).drop_last() =~= row@.take(j as int));
            }
            match kind {
                Some(k) => {
                    let ghost before = resolved@;
                    resolved.push(ResolvedToken { kind: k, style: configured.style });
                    proof {
                        assert(resolved@.map_values(|t: ResolvedToken| t@) =~= before.map_values(
                            |t: ResolvedToken| t@,
                        ).push((k@, configured.style)));
                    }
                },
                None => {},
            }
            j += 1;
        }
        proof {
            assert(row@.take(row@.len() as int) =~= row@);
            assert(config.rows@.take(i + 1).drop_last() =~= config.rows@.take(i as int));
        }
        if resolved.len() > 0 {
            proof {
                lemma_rows_view_push(out@, resolved);
            }
            out.push(resolved);
        }
        i += 1;
    }
    proof {
        assert(config.rows@.take(config.rows@.len() as int) =~= config.rows@);
    }
    out
}

// ---------------------------------------------------------------------------
// Agent rows
// ---------------------------------------------------------------------------

/// Position of the override rows configured for agent kind `agent`.
pub open spec fn override_from(
    by_agent: Seq<(String, Vec<Vec<Configured<AgentSidebarToken>>>)>,
    agent: Seq<char>,
    i: int,
) -> Option<int>
    decreases by_agent.len() - i,
{
    if i < 0 || i >= by_agent.len() {
        None
    } else if by_agent[i].0@ == agent {
        Some(i)
    } else {
        override_from(by_agent, agent, i + 1)
    }
}

/// The rows used for an agent: its kind's override when one is configured,
/// else the common rows.
pub open spec fn rows_for(config: AgentsSidebarConfig, agent: Option<String>) -> Seq<
    Vec<Configured<AgentSidebarToken>>,
> {
    match agent {
        Some(a) => match override_from(config.rows_by_agent@, a@, 0) {
            Some(k) => config.rows_by_agent@[k].1@,
            None => config.rows@,
        },
        None => config.rows@,
    }
}

pub open spec fn opt_text(o: Option<String>) -> Option<Seq<char>> {
    match o {
        Some(s) => Some(s@),
        None => None,
    }
}

/// What an agent token shows, if anything, and how: a custom token may take
/// its style from the pane's sibling tokens.
pub open spec fn agent_kind(t: Configured<AgentSidebarToken>, e: AgentPanelEntry, state_text: Seq<char>) -> Option<
    (KindView, SidebarTokenStyle),
> {
    let style = t.style;
    match t.token {
        AgentSidebarToken::StateIcon => Some((KindView::StateIcon, style)),
        AgentSidebarToken::StateText => Some((KindView::StateText(state_text), style)),
        AgentSidebarToken::Index => Some((KindView::Index(decimal(e.index as nat) + "."@), style)),
        AgentSidebarToken::Workspace => Some((KindView::Workspace(e.primary_label@), style)),
        AgentSidebarToken::Tab => match opt_text(e.primary_tab_label) {
            Some(v) => Some((KindView::Tab(v), style)),
            None => None,
        },
        AgentSidebarToken::Pane => match opt_text(e.pane_label) {
            Some(v) => Some((KindView::Pane(v), style)),
            None => None,
        },
        AgentSidebarToken::Agent => match opt_text(e.agent_label) {
            Some(v) => Some((KindView::Agent(v), style)),
            None => None,
        },
        AgentSidebarToken::TerminalTitle => match opt_text(e.terminal_title) {
            Some(v) => Some((KindView::TerminalTitle(v), style)),
            None => None,
        },
        AgentSidebarToken::TerminalTitleStripped => match opt_text(e.terminal_title_stripped) {
            Some(v) => Some((KindView::TerminalTitle(v), style)),
            None => None,
        },
        AgentSidebarToken::Custom(name) => match custom_value(e.tokens@, name@) {
            Some(v) => Some((KindView::Custom(v), custom_style(e.tokens@, name@, style))),
            None => None,
        },
    }
}

pub open spec fn agent_row(row: Seq<Configured<AgentSidebarToken>>, e: AgentPanelEntry, state_text: Seq<char>) -> Seq<
    (KindView, SidebarTokenStyle),
>
    decreases row.len(),
{
    if row.len() == 0 {
        seq![]
    } else {
        let rest = agent_row(row.drop_last(), e, state_text);
        match agent_kind(row.last(), e, state_text) {
            Some(k) => rest.push(k),
            None => rest,
        }
    }
}

pub open spec fn agent_rows_of(
    rows: Seq<Vec<Configured<AgentSidebarToken>>>,
    e: AgentPanelEntry,
    state_text: Seq<char>,
) -> Seq<Seq<(KindView, SidebarTokenStyle)>>
    decreases rows.len(),
{
    if rows.len() == 0 {
        seq![]
    } else {
        let rest = agent_rows_of(rows.drop_last(), e, state_text);
        let r = agent_row(rows.last()@, e, state_text);
        if r.len() == 0 {
            rest
        } else {
            rest.push(r)
        }
    }
}

fn clone_opt(o: &Option<String>) -> (r: Option<String>)
    ensures
        opt_text(*o) == opt_text(r),
{
    match o {
        Some(s) => Some(owned(s.as_str())),
        None => None,
    }
}

fn agent_token(t: &Configured<AgentSidebarToken>, e: &AgentPanelEntry, state_text: &str) -> (r: Option<ResolvedToken>)
    ensures
        match r {
            Some(k) => agent_kind(*t, *e, state_text@) == Some(k@),
            None => agent_kind(*t, *e, state_text@) is None,
        },
{
    let style = t.style;
    let kind = match &t.token {
        AgentSidebarToken::StateIcon => ResolvedTokenKind::StateIcon,
        AgentSidebarToken::StateText => ResolvedTokenKind::StateText(owned(state_text)),
        AgentSidebarToken::Index => {
            let mut s = String::new();
            push_decimal(&mut s, e.index as u64);
            push_str(&mut s, ".");
            proof {
                assert(s@ =~= decimal(e.index as nat) + "."@);
            }
            ResolvedTokenKind::Index(s)
        },
        AgentSidebarToken::Workspace => ResolvedTokenKind::Workspace(owned(e.primary_label.as_str())),
        AgentSidebarToken::Tab => match clone_opt(&e.primary_tab_label) {
            Some(v) => ResolvedTokenKind::Tab(v),
            None => {
                return None;
            },
        },
        AgentSidebarToken::Pane => match clone_opt(&e.pane_label) {
            Some(v) => ResolvedTokenKind::Pane(v),
            None => {
                return None;
            },
        },
        AgentSidebarToken::Agent => match clone_opt(&e.agent_label) {
            Some(v) => ResolvedTokenKind::Agent(v),
            None => {
                return None;
            },
        },
        AgentSidebarToken::TerminalTitle => match clone_opt(&e.terminal_title) {
            Some(v) => ResolvedTokenKind::TerminalTitle(v),
            None => {
                return None;
            },
        },
        AgentSidebarToken::TerminalTitleStripped => match clone_opt(&e.terminal_title_stripped) {
            Some(v) => ResolvedTokenKind::TerminalTitle(v),
            None => {
                return None;
            },
        },
        AgentSidebarToken::Custom(name) => {
            let value = match token_value(&e.tokens, name.as_str()) {
                Some(v) => owned(v),
                None => {
                    return None;
                },
            };
            let style = custom_token_style(&e.tokens, name.as_str(), style);
            return Some(ResolvedToken { kind: ResolvedTokenKind::Custom(value), style });
        },
    };
    Some(ResolvedToken { kind, style })
}

fn rows_for_agent<'a>(config: &'a AgentsSidebarConfig, agent: &Option<String>) -> (r: &'a Vec<
    Vec<Configured<AgentSidebarToken>>,
>)
    ensures
        r@ == rows_for(*config, *agent),
{
    match agent {
        Some(a) => {
            let mut i: usize = 0;
            while i < config.rows_by_agent.len()
                invariant
                    *agent == Some(*a),
                    i <= config.rows_by_agent@.len(),
                    override_from(config.rows_by_agent@, a@, 0) == override_from(
                        config.rows_by_agent@,
                        a@,
                        i as int,
                    ),
                decreases config.rows_by_agent@.len() - i,
            {
                if str_eq(config.rows_by_agent[i].0.as_str(), a.as_str()) {
                    proof {
                        assert(override_from(config.rows_by_agent@, a@, i as int) == Some(i as int));

                    }
                    return &config.rows_by_agent[i].1;
                }
                i += 1;
            }
            &config.rows
        },
        None => &config.rows,
    }
}

/// The agent's rows, resolved.
pub fn agent_rows(config: &AgentsSidebarConfig, entry: &AgentPanelEntry, state_text: &str) -> (r: Vec<
    Vec<ResolvedToken>,
>)
    ensures
        rows_view(r@) == agent_rows_of(rows_for(*config, entry.agent), *entry, state_text@),
{
    let rows = rows_for_agent(config, &entry.agent);
    let mut out: Vec<Vec<ResolvedToken>> = Vec::new();
    let mut i: usize = 0;
    proof {
        assert(rows@.take(0) =~= Seq::<Vec<Configured<AgentSidebarToken>>>::empty());
        assert(rows_view(out@) =~= Seq::<Seq<(KindView, SidebarTokenStyle)>>::empty());
    }
    while i < rows.len()
        invariant
            i <= rows@.len(),
            rows_view(out@) == agent_rows_of(rows@.take(i as int), *entry, state_text@),
        decreases rows@.len() - i,
    {
        let row = &rows[i];
        let mut resolved: Vec<ResolvedToken> = Vec::new();
        let mut j: usize = 0;
        proof {
            assert(row@.take(0) =~= Seq::<Configured<AgentSidebarToken>>::empty());
            assert(resolved@.map_values(|t: ResolvedToken| t@) =~= Seq::<(KindView, SidebarTokenStyle)>::empty());
        }
        while j < row.len()
            invariant
                row == rows@[i as int],
                j <= row@.len(),
                resolved@.map_values(|t: ResolvedToken| t@) == agent_row(row@.take(j as int), *entry, state_text@),
            decreases row@.len() - j,
        {
            let token = agent_token(&row[j], entry, state_text);
            proof {
                assert(row@.take(j + 1).drop_last() =~= row@.take(j as int));
            }
            match token {
                Some(t) => {
                    let ghost before = resolved@;
                    let ghost tv = t@;
                    resolved.push(t);
                    proof {
                        assert(resolved@.map_values(|t: ResolvedToken| t@) =~= before.map_values(
                            |t: ResolvedToken| t@,
                        ).push(tv));
                    }
                },
                None => {},
            }
            j += 1;
        }
        proof {
            assert(row@.take(row@.len() as int) =~= row@);
            assert(rows@.take(i + 1).drop_last() =~= rows@.take(i as int));
        }
        if resolved.len() > 0 {
            proof {
                lemma_rows_view_push(out@, resolved);
            }
            out.push(resolved);
        }
        i += 1;
    }
    proof {
        assert(rows@.take(rows@.len() as int) =~= rows@);
    }
    out
}

/// Between two tokens of a row: a plain space after the state icon or the
/// index and before the git status, a dot otherwise.
pub fn separator(previous: &ResolvedToken, current: &ResolvedToken) -> (r: &'static str)
    ensures
        r@ == (if previous.kind is StateIcon || previous.kind is Index || current.kind is GitStatus {
            " "@
        } else {
            " · "@
        }),
{
    let tight = match previous.kind {
        ResolvedTokenKind::StateIcon | ResolvedTokenKind::Index(_) => true,
        _ => false,
    } || match current.kind {
        ResolvedTokenKind::GitStatus { .. } => true,
        _ => false,
    };
    if tight {
        " "
    } else {
        " · "
    }
}

// ---------------------------------------------------------------------------
// Laws
// ---------------------------------------------------------------------------

/// A row never comes out empty: a row whose tokens all have nothing to show
/// is dropped with its separators.
pub proof fn law_space_rows_are_never_empty(rows: Seq<Vec<Configured<SpaceSidebarToken>>>, c: SpaceTokenContext)
    ensures
        forall|i: int| 0 <= i < space_rows_of(rows, c).len() ==> #[trigger] space_rows_of(rows, c)[i].len() > 0,
    decreases rows.len(),
{
    if rows.len() > 0 {
        let rest = space_rows_of(rows.drop_last(), c);
        law_space_rows_are_never_empty(rows.drop_last(), c);
        assert forall|i: int| 0 <= i < space_rows_of(rows, c).len() implies #[trigger] space_rows_of(
            rows,
            c,
        )[i].len() > 0 by {
            if i < rest.len() {
                assert(space_rows_of(rows, c)[i] == rest[i]);
            }
        }
    }
}

/// A row never comes out empty, for agents too.
pub proof fn law_agent_rows_are_never_empty(
    rows: Seq<Vec<Configured<AgentSidebarToken>>>,
    e: AgentPanelEntry,
    state_text: Seq<char>,
)
    ensures
        forall|i: int|
            0 <= i < agent_rows_of(rows, e, state_text).len() ==> #[trigger] agent_rows_of(rows, e, state_text)[i].len() > 0,
    decreases rows.len(),
{
    if rows.len() > 0 {
        let rest = agent_rows_of(rows.drop_last(), e, state_text);
        law_agent_rows_are_never_empty(rows.drop_last(), e, state_text);
        assert forall|i: int| 0 <= i < agent_rows_of(rows, e, state_text).len() implies #[trigger] agent_rows_of(
            rows,
            e,
            state_text,
        )[i].len() > 0 by {
            if i < rest.len() {
                assert(agent_rows_of(rows, e, state_text)[i] == rest[i]);
            }
        }
    }
}

pub open spec fn is_git_detail(k: KindView) -> bool {
    k is Branch || k is GitStatus
}

proof fn lemma_space_row_no_git(row: Seq<Configured<SpaceSidebarToken>>, c: SpaceTokenContext)
    requires
        c.suppress_git_details,
    ensures
        forall|j: int| 0 <= j < space_row(row, c).len() ==> !is_git_detail(#[trigger] space_row(row, c)[j].0),
    decreases row.len(),
{
    if row.len() > 0 {
        let rest = space_row(row.drop_last(), c);
        lemma_space_row_no_git(row.drop_last(), c);
        assert forall|j: int| 0 <= j < space_row(row, c).len() implies !is_git_detail(
            #[trigger] space_row(row, c)[j].0,
        ) by {
            if j < rest.len() {
                assert(space_row(row, c)[j] == rest[j]);
            }
        }
    }
}

/// A grouped child shows no branch and no ahead/behind counts, whatever its
/// rows configure; custom tokens still show.
pub proof fn law_grouped_children_show_no_git_details(rows: Seq<Vec<Configured<SpaceSidebarToken>>>, c: SpaceTokenContext)
    requires
        c.suppress_git_details,
    ensures
        forall|i: int, j: int|
            0 <= i < space_rows_of(rows, c).len() && 0 <= j < space_rows_of(rows, c)[i].len() ==> !is_git_detail(
                #[trigger] space_rows_of(rows, c)[i][j].0,
            ),
    decreases rows.len(),
{
    if rows.len() > 0 {
        let rest = space_rows_of(rows.drop_last(), c);
        law_grouped_children_show_no_git_details(rows.drop_last(), c);
        lemma_space_row_no_git(rows.last()@, c);
        assert forall|i: int, j: int|
            0 <= i < space_rows_of(rows, c).len() && 0 <= j < space_rows_of(rows, c)[i].len() implies !is_git_detail(
            #[trigger] space_rows_of(rows, c)[i][j].0,
        ) by {
            if i < rest.len() {
                assert(space_rows_of(rows, c)[i] == rest[i]);
                assert(!is_git_detail(rest[i][j].0));
            } else {
                assert(space_rows_of(rows, c)[i] == space_row(rows.last()@, c));
                assert(!is_git_detail(space_row(rows.last()@, c)[j].0));
            }
        }
    }
}

} // verus!
