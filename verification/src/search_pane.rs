//! Right-hand search pane: keyword or AI search across every agent pane's
//! scrollback, grouped per agent with up to three recent snippets each.
//!
//! This module holds the pane's state and its pure layout: render and mouse
//! hit-testing both go through the same functions of `(state, rect)`.
use crate::editor::{min_nat, trim_text, trimmed, width_of, display_width, Rect};
use crate::presentation::{decimal, push_decimal};
use crate::text::{blank, is_blank, char_is_control, char_is_whitespace, chars_of, is_cc, is_ws, owned, push_char, push_str, str_eq, string_of};
use crate::bytes::{at_boundary, blen, bslice, byte_len, is_boundary, slice};
use crate::twin::{lookup_from, pairs_view, token_value};
use vstd::prelude::*;
use vstd::utf8::encode_utf8;

verus! {

pub const MAX_HITS_PER_PANE: usize = 3;

pub const MIN_MAIN_WIDTH: u16 = 40;

pub const MIN_PANE_WIDTH: u16 = 30;

pub const MAX_PANE_WIDTH: u16 = 64;

/// Title/mode, input and status rows above the results.
pub const HEADER_ROWS: u16 = 3;

pub const KEYWORD_CHIP: &'static str = " Keyword ";

pub const AI_CHIP: &'static str = " AI ";

#[derive(Debug, Clone, Copy, PartialEq, Eq, Structural)]
pub enum SearchPaneMode {
    Keyword,
    Ai,
}

impl SearchPaneMode {
    pub fn toggled(self) -> (r: Self)
        ensures
            r == (match self {
                SearchPaneMode::Keyword => SearchPaneMode::Ai,
                SearchPaneMode::Ai => SearchPaneMode::Keyword,
            }),
    {
        match self {
            SearchPaneMode::Keyword => SearchPaneMode::Ai,
            SearchPaneMode::Ai => SearchPaneMode::Keyword,
        }
    }
}

/// The input row's prompt: `/` for a keyword search, `?` for a question.
pub fn search_prompt(mode: SearchPaneMode) -> (r: &'static str)
    ensures
        r@ == (match mode {
            SearchPaneMode::Keyword => " / "@,
            SearchPaneMode::Ai => " ? "@,
        }),
{
    match mode {
        SearchPaneMode::Keyword => " / ",
        SearchPaneMode::Ai => " ? ",
    }
}

/// The hint shown on the status row while no status is set.
pub open spec fn status_hint(mode: SearchPaneMode) -> Seq<char> {
    match mode {
        SearchPaneMode::Keyword => "enter: search · tab: AI · esc: back to pane"@,
        SearchPaneMode::Ai => "enter: ask · tab: keyword · esc: back to pane"@,
    }
}

/// The status row's text: the status when one is set, else the mode's hint.
pub fn status_text(status: &Option<String>, mode: SearchPaneMode) -> (r: String)
    ensures
        r@ == (match status {
            Some(s) => s@,
            None => status_hint(mode),
        }),
{
    match status {
        Some(s) => s.clone(),
        None => match mode {
            SearchPaneMode::Keyword => crate::text::owned("enter: search · tab: AI · esc: back to pane"),
            SearchPaneMode::Ai => crate::text::owned("enter: ask · tab: keyword · esc: back to pane"),
        },
    }
}

/// A cell of a pane's scrollback.
#[derive(Debug, Clone, Copy, PartialEq, Eq, Structural)]
pub struct TextPoint {
    pub row: u32,
    pub col: u32,
}

/// Where a match sits in a pane's scrollback.
#[derive(Debug, Clone, Copy, PartialEq, Eq, Structural)]
pub struct TextMatch {
    pub start: TextPoint,
    pub end: TextPoint,
}

#[derive(Debug)]
pub struct SearchHit {
    pub text_match: TextMatch,
    /// Whitespace-collapsed logical line the match sits on.
    pub snippet: String,
    /// Char index into `snippet` where the matched text starts (for windowing).
    pub match_char: usize,
}

#[derive(Debug)]
pub struct SearchGroup {
    pub ws_idx: usize,
    pub tab_idx: usize,
    pub pane_id: u64,
    /// e.g. "2 · yt-radio": sidebar index and topic or agent label.
    pub title: String,
    pub subtitle: String,
    /// The pane's metadata tokens, so its display name renders as in the sidebar.
    pub tokens: Vec<(String, String)>,
    /// Newest first.
    pub hits: Vec<SearchHit>,
}

/// A pane offered to the AI, in prompt order.
pub struct AiPaneRef {
    pub ws_idx: usize,
    pub tab_idx: usize,
    pub pane_id: u64,
    pub title: String,
    pub subtitle: String,
    pub tokens: Vec<(String, String)>,
}

#[derive(Debug, Clone, Copy, PartialEq, Eq, Structural)]
pub struct JumpHighlight {
    pub pane_id: u64,
    pub text_match: TextMatch,
}

pub struct SearchPaneState {
    pub visible: bool,
    pub query: String,
    pub mode: SearchPaneMode,
    pub groups: Vec<SearchGroup>,
    /// `(query, mode)` the current `groups` were produced for.
    pub searched: Option<(String, SearchPaneMode)>,
    /// Flat hit index (across groups) of the selected result.
    pub selected: Option<usize>,
    pub scroll: usize,
    pub status: Option<String>,
    pub ai_generation: u64,
    pub ai_inflight: bool,
    pub ai_panes: Vec<AiPaneRef>,
    /// The hit last jumped to, highlighted inside its pane while the search pane is open.
    pub jump_highlight: Option<JumpHighlight>,
}

impl Default for SearchPaneState {
    fn default() -> (r: Self)
        ensures
            !r.visible,
            r.query@.len() == 0,
            r.mode == SearchPaneMode::Keyword,
            r.groups@.len() == 0,
            r.searched is None,
            r.selected is None,
            r.scroll == 0,
            r.status is None,
            r.ai_generation == 0,
            !r.ai_inflight,
            r.ai_panes@.len() == 0,
            r.jump_highlight is None,
    {
        SearchPaneState {
            visible: false,
            query: String::new(),
            mode: SearchPaneMode::Keyword,
            groups: Vec::new(),
            searched: None,
            selected: None,
            scroll: 0,
            status: None,
            ai_generation: 0,
            ai_inflight: false,
            ai_panes: Vec::new(),
            jump_highlight: None,
        }
    }
}

/// Number of hits in the groups `..i`.
pub open spec fn hits_before(groups: Seq<SearchGroup>, i: int) -> nat
    decreases i,
{
    if i <= 0 || groups.len() == 0 {
        0
    } else if i > groups.len() {
        hits_before(groups, groups.len() as int)
    } else {
        hits_before(groups, i - 1) + groups[i - 1].hits@.len()
    }
}

pub open spec fn total_hits(groups: Seq<SearchGroup>) -> nat {
    hits_before(groups, groups.len() as int)
}

/// Group and index within it of flat hit `flat`, looking from group `i` on
/// where `flat` counts from the first hit of group `i`.
pub open spec fn locate_from(groups: Seq<SearchGroup>, flat: nat, i: int) -> Option<(int, int)>
    decreases groups.len() - i,
{
    if i < 0 || i >= groups.len() {
        None
    } else if flat < groups[i].hits@.len() {
        Some((i, flat as int))
    } else {
        locate_from(groups, (flat - groups[i].hits@.len()) as nat, i + 1)
    }
}

/// Results shown for another query or mode than the current one.
pub open spec fn stale(s: SearchPaneState) -> bool {
    s.searched is Some && !is_fresh(s)
}

pub open spec fn is_fresh(s: SearchPaneState) -> bool {
    match s.searched {
        Some(p) => p.0@ == trimmed(s.query@) && p.1 == s.mode,
        None => false,
    }
}

impl SearchPaneState {
    /// Hits across all groups.
    pub fn hit_count(&self) -> (r: usize)
        requires
            total_hits(self.groups@) <= usize::MAX,
        ensures
            r == total_hits(self.groups@),
    {
        let mut n: usize = 0;
        let mut i: usize = 0;
        while i < self.groups.len()
            invariant
                i <= self.groups@.len(),
                n == hits_before(self.groups@, i as int),
                total_hits(self.groups@) <= usize::MAX,
            decreases self.groups.len() - i,
        {
            proof {
                lemma_hits_before_grows(self.groups@, (i + 1) as int, self.groups@.len() as int);
            }
            n = n + self.groups[i].hits.len();
            i += 1;
        }
        n
    }

    /// The results were produced for the current (trimmed) query and mode.
    pub fn results_fresh(&self) -> (r: bool)
        ensures
            r == is_fresh(*self),
    {
        match &self.searched {
            Some(p) => {
                let q = trim_text(self.query.as_str());
                str_eq(p.0.as_str(), q.as_str()) && p.1 == self.mode
            },
            None => false,
        }
    }

    /// The group and hit at flat index `flat`.
    pub fn hit(&self, flat: usize) -> (r: Option<(&SearchGroup, &SearchHit)>)
        ensures
            match locate_from(self.groups@, flat as nat, 0) {
                Some(p) => r is Some && *r.unwrap().0 == self.groups@[p.0] && *r.unwrap().1
                    == self.groups@[p.0].hits@[p.1],
                None => r is None,
            },
    {
        let mut index = flat;
        let mut i: usize = 0;
        while i < self.groups.len()
            invariant
                i <= self.groups@.len(),
                locate_from(self.groups@, flat as nat, 0) == locate_from(self.groups@, index as nat, i as int),
            decreases self.groups.len() - i,
        {
            let group = &self.groups[i];
            if index < group.hits.len() {
                return Some((group, &group.hits[index]));
            }
            index = index - group.hits.len();
            i += 1;
        }
        None
    }

    /// The query or mode changed: the selection goes, and stale results say so.
    pub fn invalidate(&mut self)
        ensures
            final(self).selected is None,
            final(self).jump_highlight is None,
            stale(*old(self)) ==> (final(self).status is Some && final(self).status.unwrap()@
                == "enter to search"@),
            !stale(*old(self)) ==> final(self).status == old(self).status,
            final(self).ai_generation == old(self).ai_generation,
            final(self).ai_inflight == old(self).ai_inflight,
            final(self).query == old(self).query,
            final(self).mode == old(self).mode,
            final(self).searched == old(self).searched,
            final(self).groups == old(self).groups,
            final(self).scroll == old(self).scroll,
            final(self).visible == old(self).visible,
    {
        self.selected = None;
        self.jump_highlight = None;
        if self.searched.is_some() && !self.results_fresh() {
            self.status = Some(owned("enter to search"));
        }
    }
}

// ---------------------------------------------------------------------------
// Layout
// ---------------------------------------------------------------------------

/// One line of the results list.
#[derive(Debug, Clone, Copy, PartialEq, Eq, Structural)]
pub enum BodyRow {
    Group(usize),
    Hit { group: usize, hit: usize, flat: usize },
    Gap,
}

/// The rows of group `g`: its header, then one row per hit, numbered on
/// from flat index `flat`.
pub open spec fn group_rows(g: int, n: nat, flat: nat) -> Seq<BodyRow> {
    seq![BodyRow::Group(g as usize)] + Seq::new(
        n,
        |h: int| BodyRow::Hit { group: g as usize, hit: h as usize, flat: (flat + h) as usize },
    )
}

/// The rows of the first `n` groups; every group but the first is preceded
/// by a gap.
pub open spec fn rows_upto(groups: Seq<SearchGroup>, n: int) -> Seq<BodyRow>
    decreases n,
{
    if n <= 0 || n > groups.len() {
        seq![]
    } else {
        rows_upto(groups, n - 1) + (if n > 1 {
            seq![BodyRow::Gap]
        } else {
            seq![]
        }) + group_rows(n - 1, groups[n - 1].hits@.len(), hits_before(groups, n - 1))
    }
}

pub open spec fn all_rows(groups: Seq<SearchGroup>) -> Seq<BodyRow> {
    rows_upto(groups, groups.len() as int)
}

pub open spec fn is_hit_row(r: BodyRow, flat: nat) -> bool {
    r matches BodyRow::Hit { flat: f, .. } && f == flat
}

/// The results list, one entry per screen row.
pub fn body_rows(state: &SearchPaneState) -> (rows: Vec<BodyRow>)
    requires
        total_hits(state.groups@) <= usize::MAX,
    ensures
        rows@ == all_rows(state.groups@),
{
    let ghost gs = state.groups@;
    let mut rows: Vec<BodyRow> = Vec::new();
    let mut flat: usize = 0;
    let mut g: usize = 0;
    while g < state.groups.len()
        invariant
            gs == state.groups@,
            g <= gs.len(),
            rows@ == rows_upto(gs, g as int),
            flat == hits_before(gs, g as int),
            total_hits(gs) <= usize::MAX,
        decreases gs.len() - g,
    {
        proof {
            lemma_hits_before_grows(gs, (g + 1) as int, gs.len() as int);
        }
        if g > 0 {
            rows.push(BodyRow::Gap);
        }
        rows.push(BodyRow::Group(g));
        let ghost base = rows@;
        let n = state.groups[g].hits.len();
        let mut h: usize = 0;
        while h < n
            invariant
                gs == state.groups@,
                g < gs.len(),
                n == gs[g as int].hits@.len(),
                h <= n,
                flat == hits_before(gs, g as int) + h,
                hits_before(gs, g as int) + n <= usize::MAX,
                rows@ == base + Seq::new(
                    h as nat,
                    |k: int| BodyRow::Hit { group: g, hit: k as usize, flat: (hits_before(gs, g as int) + k) as usize },
                ),
            decreases n - h,
        {
            rows.push(BodyRow::Hit { group: g, hit: h, flat });
            flat += 1;
            h += 1;
        }
        proof {
            assert(rows@ =~= rows_upto(gs, (g + 1) as int));
        }
        g += 1;
    }
    rows
}

/// Screen-row index of the hit with flat index `flat`.
pub fn row_index_of_flat(rows: &[BodyRow], flat: usize) -> (r: Option<usize>)
    ensures
        match r {
            Some(i) => i < rows@.len() && is_hit_row(rows@[i as int], flat as nat)
                && forall|j: int| 0 <= j < i ==> !is_hit_row(#[trigger] rows@[j], flat as nat),
            None => forall|j: int| 0 <= j < rows@.len() ==> !is_hit_row(#[trigger] rows@[j], flat as nat),
        },
        match r {
            Some(i) => hit_row_from(rows@, flat as nat, 0) == Some(i as int),
            None => hit_row_from(rows@, flat as nat, 0) is None,
        },
{
    let mut i: usize = 0;
    while i < rows.len()
        invariant
            i <= rows@.len(),
            hit_row_from(rows@, flat as nat, 0) == hit_row_from(rows@, flat as nat, i as int),
            forall|j: int| 0 <= j < i ==> !is_hit_row(#[trigger] rows@[j], flat as nat),
        decreases rows@.len() - i,
    {
        match rows[i] {
            BodyRow::Hit { flat: f, .. } => {
                if f == flat {
                    return Some(i);
                }
            },
            _ => {},
        }
        i += 1;
    }
    None
}

/// `Rect::new`: the size is clipped so the rectangle ends within range.
pub open spec fn clip(x: u16, y: u16, w: u16, h: u16) -> Rect {
    Rect {
        x,
        y,
        width: min_nat(w as nat, (u16::MAX - x) as nat) as u16,
        height: min_nat(h as nat, (u16::MAX - y) as nat) as u16,
    }
}

pub open spec fn inner_of(rect: Rect) -> Rect {
    clip(rect.x.saturating_add(1), rect.y, rect.width.saturating_sub(1), rect.height)
}

pub open spec fn title_of(rect: Rect) -> Rect {
    let r = inner_of(rect);
    clip(r.x, r.y, r.width, if r.height < 1 { r.height } else { 1 })
}

pub open spec fn input_of(rect: Rect) -> Rect {
    let r = inner_of(rect);
    if r.height < 2 {
        Rect { x: 0, y: 0, width: 0, height: 0 }
    } else {
        clip(r.x, (r.y + 1) as u16, r.width, 1)
    }
}

pub open spec fn status_of(rect: Rect) -> Rect {
    let r = inner_of(rect);
    if r.height < 3 {
        Rect { x: 0, y: 0, width: 0, height: 0 }
    } else {
        clip(r.x, (r.y + 2) as u16, r.width, 1)
    }
}

pub open spec fn body_of(rect: Rect) -> Rect {
    let r = inner_of(rect);
    clip(r.x, r.y.saturating_add(HEADER_ROWS), r.width, r.height.saturating_sub(HEADER_ROWS))
}

proof fn lemma_clip_fits(x: u16, y: u16, w: u16, h: u16)
    ensures
        clip(x, y, w, h).x + clip(x, y, w, h).width <= u16::MAX,
        clip(x, y, w, h).y + clip(x, y, w, h).height <= u16::MAX,
        clip(x, y, w, h).width <= w,
        clip(x, y, w, h).height <= h,
{
}

fn new_rect(x: u16, y: u16, w: u16, h: u16) -> (r: Rect)
    ensures
        r == clip(x, y, w, h),
{
    Rect::new(x, y, w, h)
}

/// Inner content rect (excludes the 1-col left border).
pub fn inner_rect(rect: Rect) -> (r: Rect)
    ensures
        r == inner_of(rect),
{
    new_rect(rect.x.saturating_add(1), rect.y, rect.width.saturating_sub(1), rect.height)
}

pub fn title_row(rect: Rect) -> (r: Rect)
    ensures
        r == title_of(rect),
{
    let r = inner_rect(rect);
    new_rect(r.x, r.y, r.width, if r.height < 1 { r.height } else { 1 })
}

pub fn input_row(rect: Rect) -> (r: Rect)
    ensures
        r == input_of(rect),
{
    let r = inner_rect(rect);
    if r.height < 2 {
        return Rect::default();
    }
    proof {
        lemma_clip_fits(rect.x.saturating_add(1), rect.y, rect.width.saturating_sub(1), rect.height);
    }
    new_rect(r.x, r.y + 1, r.width, 1)
}

pub fn status_row(rect: Rect) -> (r: Rect)
    ensures
        r == status_of(rect),
{
    let r = inner_rect(rect);
    if r.height < 3 {
        return Rect::default();
    }
    proof {
        lemma_clip_fits(rect.x.saturating_add(1), rect.y, rect.width.saturating_sub(1), rect.height);
    }
    new_rect(r.x, r.y + 2, r.width, 1)
}

pub fn body_rect(rect: Rect) -> (r: Rect)
    ensures
        r == body_of(rect),
{
    let r = inner_rect(rect);
    new_rect(r.x, r.y.saturating_add(HEADER_ROWS), r.width, r.height.saturating_sub(HEADER_ROWS))
}

/// Display width in columns, saturated to `u16`.
pub open spec fn disp_w(s: Seq<char>) -> u16 {
    if display_width(s) > u16::MAX {
        u16::MAX
    } else {
        display_width(s) as u16
    }
}

fn display_w(text: &str) -> (r: u16)
    ensures
        r == disp_w(text@),
{
    let w = width_of(text);
    if w > u16::MAX as usize {
        u16::MAX
    } else {
        w as u16
    }
}

/// `(keyword_chip, ai_chip)` on the title row, right-aligned with one column
/// between them and one to the right.
pub open spec fn chips_of(rect: Rect) -> (Rect, Rect) {
    let row = title_of(rect);
    let ai_w = disp_w(AI_CHIP@);
    let kw_w = disp_w(KEYWORD_CHIP@);
    if row.width < ai_w + kw_w + 3 || row.height == 0 {
        (Rect { x: 0, y: 0, width: 0, height: 0 }, Rect { x: 0, y: 0, width: 0, height: 0 })
    } else {
        let ai_x = row.x + row.width - ai_w - 1;
        let kw_x = ai_x - 1 - kw_w;
        (clip(kw_x as u16, row.y, kw_w, 1), clip(ai_x as u16, row.y, ai_w, 1))
    }
}

pub fn mode_chip_rects(rect: Rect) -> (r: (Rect, Rect))
    ensures
        r == chips_of(rect),
{
    let row = title_row(rect);
    proof {
        let i = inner_of(rect);
        lemma_clip_fits(rect.x.saturating_add(1), rect.y, rect.width.saturating_sub(1), rect.height);
        lemma_clip_fits(i.x, i.y, i.width, if i.height < 1 { i.height } else { 1 });
    }
    let ai_w = display_w(AI_CHIP);
    let kw_w = display_w(KEYWORD_CHIP);
    let total = ai_w as u32 + kw_w as u32 + 1;
    if (row.width as u32) < total + 2 || row.height == 0 {
        return (Rect::default(), Rect::default());
    }
    let ai_x = (row.x as u32 + row.width as u32 - ai_w as u32 - 1) as u16;
    let kw_x = ai_x - 1 - kw_w;
    (new_rect(kw_x, row.y, kw_w, 1), new_rect(ai_x, row.y, ai_w, 1))
}

pub open spec fn within(rect: Rect, col: u16, row: u16) -> bool {
    &&& rect.width > 0
    &&& rect.height > 0
    &&& rect.x <= col < rect.x + rect.width
    &&& rect.y <= row < rect.y + rect.height
}

pub fn contains(rect: Rect, col: u16, row: u16) -> (r: bool)
    ensures
        r == within(rect, col, row),
{
    rect.width > 0 && rect.height > 0 && col >= rect.x && (col as u32) < rect.x as u32
        + rect.width as u32 && row >= rect.y && (row as u32) < rect.y as u32 + rect.height as u32
}

#[derive(Debug, Clone, Copy, PartialEq, Eq, Structural)]
pub enum SearchPaneClick {
    ModeKeyword,
    ModeAi,
    Input,
    Hit(usize),
    Background,
}

/// What a click at `(col, row)` inside the pane at `rect` lands on.
pub open spec fn click_of(state: SearchPaneState, rect: Rect, col: u16, row: u16) -> Option<
    SearchPaneClick,
> {
    let body = body_of(rect);
    let index = (row - body.y) + state.scroll;
    let rows = all_rows(state.groups@);
    if !within(rect, col, row) {
        None
    } else if within(chips_of(rect).0, col, row) {
        Some(SearchPaneClick::ModeKeyword)
    } else if within(chips_of(rect).1, col, row) {
        Some(SearchPaneClick::ModeAi)
    } else if within(title_of(rect), col, row) || within(input_of(rect), col, row) {
        Some(SearchPaneClick::Input)
    } else if within(body, col, row) && 0 <= index < rows.len() && rows[index] is Hit {
        Some(SearchPaneClick::Hit(rows[index]->flat))
    } else {
        Some(SearchPaneClick::Background)
    }
}

pub fn click_target(state: &SearchPaneState, rect: Rect, col: u16, row: u16) -> (r: Option<
    SearchPaneClick,
>)
    requires
        total_hits(state.groups@) <= usize::MAX,
        state.scroll + u16::MAX <= usize::MAX,
    ensures
        r == click_of(*state, rect, col, row),
{
    if !contains(rect, col, row) {
        return None;
    }
    let (kw, ai) = mode_chip_rects(rect);
    if contains(kw, col, row) {
        return Some(SearchPaneClick::ModeKeyword);
    }
    if contains(ai, col, row) {
        return Some(SearchPaneClick::ModeAi);
    }
    if contains(title_row(rect), col, row) || contains(input_row(rect), col, row) {
        return Some(SearchPaneClick::Input);
    }
    let body = body_rect(rect);
    if contains(body, col, row) {
        let index = (row - body.y) as usize + state.scroll;
        let rows = body_rows(state);
        if index < rows.len() {
            match rows[index] {
                BodyRow::Hit { flat, .. } => {
                    return Some(SearchPaneClick::Hit(flat));
                },
                _ => {},
            }
        }
    }
    Some(SearchPaneClick::Background)
}

/// Width of the search pane beside a main area: none while hidden or when
/// the area is too narrow for both, else 35% of it within the pane's bounds,
/// always leaving the main area its minimum.
pub open spec fn pane_width(visible: bool, width: u16) -> u16 {
    if !visible || width < MIN_MAIN_WIDTH + MIN_PANE_WIDTH + 1 {
        0
    } else {
        let want = (width * 35 / 100) as u16;
        let clamped = if want < MIN_PANE_WIDTH {
            MIN_PANE_WIDTH
        } else if want > MAX_PANE_WIDTH {
            MAX_PANE_WIDTH
        } else {
            want
        };
        let room = width.saturating_sub(MIN_MAIN_WIDTH);
        if clamped < room {
            clamped
        } else {
            room
        }
    }
}

pub fn search_pane_width(state: &SearchPaneState, main_area: Rect) -> (r: u16)
    ensures
        r == pane_width(state.visible, main_area.width),
{
    if !state.visible || main_area.width < MIN_MAIN_WIDTH + MIN_PANE_WIDTH + 1 {
        return 0;
    }
    let want = (main_area.width as u32 * 35 / 100) as u16;
    let clamped = if want < MIN_PANE_WIDTH {
        MIN_PANE_WIDTH
    } else if want > MAX_PANE_WIDTH {
        MAX_PANE_WIDTH
    } else {
        want
    };
    let room = main_area.width.saturating_sub(MIN_MAIN_WIDTH);
    if clamped < room {
        clamped
    } else {
        room
    }
}

// ---------------------------------------------------------------------------
// Snippets
// ---------------------------------------------------------------------------

/// The whitespace-separated words of a text, built from the left: a
/// non-space extends the last word when the character before it was a
/// non-space, and starts a new word otherwise.
pub open spec fn words(s: Seq<char>) -> Seq<Seq<char>>
    decreases s.len(),
{
    if s.len() == 0 {
        seq![]
    } else {
        let p = s.drop_last();
        let c = s.last();
        let w = words(p);
        if is_ws(c) {
            w
        } else if p.len() == 0 || is_ws(p.last()) {
            w.push(seq![c])
        } else {
            w.update(w.len() - 1, w.last().push(c))
        }
    }
}

/// Words joined by single spaces.
pub open spec fn join_words(ws: Seq<Seq<char>>) -> Seq<char>
    decreases ws.len(),
{
    if ws.len() == 0 {
        seq![]
    } else if ws.len() == 1 {
        ws[0]
    } else {
        join_words(ws.drop_last()) + seq![' '] + ws.last()
    }
}

/// `text.split_whitespace().collect::<Vec<_>>().join(" ")`.
pub open spec fn collapsed(s: Seq<char>) -> Seq<char> {
    join_words(words(s))
}

/// The first `n` items of a sequence (all of them when it is shorter).
pub open spec fn upto<A>(xs: Seq<A>, n: nat) -> Seq<A> {
    if n >= xs.len() {
        xs
    } else {
        xs.take(n as int)
    }
}

/// The first `n` words of a text, joined by single spaces.
pub open spec fn first_words_of(s: Seq<char>, n: nat) -> Seq<char> {
    join_words(upto(words(s), n))
}

proof fn lemma_words_len(s: Seq<char>)
    ensures
        words(s).len() <= s.len(),
        s.len() > 0 && !is_ws(s.last()) ==> words(s).len() > 0,
    decreases s.len(),
{
    if s.len() > 0 {
        lemma_words_len(s.drop_last());
    }
}

proof fn lemma_words_step(s: Seq<char>, i: int)
    requires
        0 <= i < s.len(),
    ensures
        words(s.take(i + 1)) == ({
            let p = s.take(i);
            let c = s[i];
            let w = words(p);
            if is_ws(c) {
                w
            } else if i == 0 || is_ws(s[i - 1]) {
                w.push(seq![c])
            } else {
                w.update(w.len() - 1, w.last().push(c))
            }
        }),
{
    assert(s.take(i + 1).drop_last() =~= s.take(i));
}

proof fn lemma_join_push(ws: Seq<Seq<char>>, w: Seq<char>)
    ensures
        join_words(ws.push(w)) == (if ws.len() == 0 {
            w
        } else {
            join_words(ws) + seq![' '] + w
        }),
{
    assert(ws.push(w).drop_last() =~= ws);
}

proof fn lemma_join_extend(ws: Seq<Seq<char>>, c: char)
    requires
        ws.len() > 0,
    ensures
        join_words(ws.update(ws.len() - 1, ws.last().push(c))) == join_words(ws).push(c),
{
    let u = ws.update(ws.len() - 1, ws.last().push(c));
    if ws.len() > 1 {
        assert(u.drop_last() =~= ws.drop_last());
    }
    assert(join_words(u) =~= join_words(ws).push(c));
}

/// The first `limit` words of `text`, joined by single spaces.
fn words_joined(text: &str, limit: usize) -> (r: String)
    ensures
        r@ == first_words_of(text@, limit as nat),
{
    let cs = chars_of(text);
    let ghost s = text@;
    let mut out: Vec<char> = Vec::new();
    let mut count: usize = 0;
    let mut i: usize = 0;
    proof {
        assert(s.take(0) =~= Seq::<char>::empty());
    }
    while i < cs.len()
        invariant
            cs@ == s,
            i <= s.len(),
            count == words(s.take(i as int)).len(),
            out@ == join_words(upto(words(s.take(i as int)), limit as nat)),
            count <= i,
            i > 0 && !is_ws(s[i - 1]) ==> count > 0,
        decreases s.len() - i,
    {
        let c = cs[i];
        let ghost w = words(s.take(i as int));
        proof {
            lemma_words_step(s, i as int);
        }
        if char_is_whitespace(c) {
        } else if i == 0 || char_is_whitespace(cs[i - 1]) {
            proof {
                if count < limit {
                    lemma_join_push(w, seq![c]);
                } else {
                    assert(upto(w.push(seq![c]), limit as nat) =~= upto(w, limit as nat));
                }
            }
            if count < limit {
                if count > 0 {
                    out.push(' ');
                }
                out.push(c);
            }
            count += 1;
        } else {
            proof {
                let u = w.update(w.len() - 1, w.last().push(c));
                if count <= limit {
                    lemma_join_extend(w, c);
                } else {
                    assert(upto(u, limit as nat) =~= upto(w, limit as nat));
                }
            }
            if count <= limit {
                out.push(c);
            }
        }
        proof {
            assert(out@ =~= join_words(upto(words(s.take(i + 1)), limit as nat)));
        }
        i += 1;
    }
    proof {
        assert(s.take(s.len() as int) =~= s);
    }
    string_of(&out)
}

/// Runs of whitespace become single spaces; none lead or trail.
pub fn collapse_ws(text: &str) -> (r: String)
    ensures
        r@ == collapsed(text@),
{
    let cs = chars_of(text);
    proof {
        lemma_words_len(text@);
        assert(upto(words(text@), usize::MAX as nat) == words(text@));
    }
    words_joined(text, usize::MAX)
}

/// The first `n` whitespace-separated words of `text`, joined by single spaces.
pub fn first_words(text: &str, n: usize) -> (r: String)
    ensures
        r@ == first_words_of(text@, n as nat),
{
    words_joined(text, n)
}

/// What `str::to_lowercase` returns for a text (Unicode lower-case mapping).
pub uninterp spec fn lowercased(s: Seq<char>) -> Seq<char>;

/// `str::to_lowercase`.
#[verifier::external_body]
pub(crate) fn lowercase(s: &str) -> (r: String)
    ensures
        r@ == lowercased(s@),
{
    s.to_lowercase()
}

/// The first offset at or after `i` where `n` occurs in `h`.
pub open spec fn occ_from(h: Seq<u8>, n: Seq<u8>, i: int) -> Option<int>
    decreases h.len() + 1 - i,
{
    if i < 0 || i + n.len() > h.len() {
        None
    } else if h.subrange(i, i + n.len()) == n {
        Some(i)
    } else {
        occ_from(h, n, i + 1)
    }
}

/// `str::find` with a text pattern: the first byte offset where `n` occurs.
pub(crate) fn find_bytes(h: &[u8], n: &[u8]) -> (r: Option<usize>)
    ensures
        match r {
            Some(i) => occ_from(h@, n@, 0) == Some(i as int),
            None => occ_from(h@, n@, 0) is None,
        },
{
    if n.len() > h.len() {
        return None;
    }
    let mut i: usize = 0;
    while i <= h.len() - n.len()
        invariant
            n@.len() <= h@.len(),
            h@.len() <= usize::MAX,
            i <= h@.len() - n@.len() + 1,
            occ_from(h@, n@, 0) == occ_from(h@, n@, i as int),
        decreases h@.len() - n@.len() + 1 - i,
    {
        let mut j: usize = 0;
        let mut same = true;
        while j < n.len()
            invariant
                n@.len() <= h@.len(),
                h@.len() <= usize::MAX,
                i + n@.len() <= h@.len(),
                j <= n@.len(),
                same == (forall|k: int| 0 <= k < j ==> h@[i + k] == n@[k]),
            decreases n@.len() - j,
        {
            if h[i + j] != n[j] {
                same = false;
            }
            j += 1;
        }
        if same {
            proof {
                assert(h@.subrange(i as int, i + n@.len()) =~= n@);
            }
            return Some(i);
        }
        proof {
            if h@.subrange(i as int, i + n@.len()) == n@ {
                assert(false) by {
                    let k = choose|k: int| 0 <= k < n@.len() && h@[i + k] != n@[k];
                    assert(h@.subrange(i as int, i + n@.len())[k] == h@[i + k]);
                }
            }
        }
        i += 1;
    }
    None
}

/// Byte offset of `needle` in `snippet`, both taken in lower case.
pub open spec fn lower_find(snippet: Seq<char>, needle: Seq<char>) -> Option<int> {
    occ_from(encode_utf8(lowercased(snippet)), encode_utf8(lowercased(needle)), 0)
}

/// The hit's snippet can be cut where the needle was found: the offset found
/// in the lower-cased snippet is a character boundary of the snippet itself.
pub open spec fn hit_ok(line: Seq<char>, needle: Seq<char>) -> bool {
    match lower_find(collapsed(line), needle) {
        Some(b) => at_boundary(collapsed(line), b),
        None => true,
    }
}

/// Characters of the snippet before the match (0 without a match).
pub open spec fn hit_char(line: Seq<char>, needle: Seq<char>) -> nat {
    match lower_find(collapsed(line), needle) {
        Some(b) => bslice(collapsed(line), 0, b).len(),
        None => 0,
    }
}

pub open spec fn hit_of(h: SearchHit, m: TextMatch, line: Seq<char>, needle: Seq<char>) -> bool {
    &&& h.text_match == m
    &&& h.snippet@ == collapsed(line)
    &&& h.match_char == hit_char(line, needle)
}

/// A result row for a match on `line`: the collapsed line and where in it
/// (in characters) the needle starts, compared case-insensitively.
pub fn make_hit(text_match: TextMatch, line: &str, needle: &str) -> (r: SearchHit)
    requires
        hit_ok(line@, needle@),
    ensures
        hit_of(r, text_match, line@, needle@),
{
    let snippet = collapse_ws(line);
    let lower = lowercase(snippet.as_str());
    let lower_needle = lowercase(needle);
    let match_char = match find_bytes(lower.as_str().as_bytes(), lower_needle.as_str().as_bytes()) {
        Some(b) => {
            let before = slice(snippet.as_str(), 0, b);
            chars_of(before).len()
        },
        None => 0,
    };
    SearchHit { text_match, snippet, match_char }
}

/// Whether `make_hit` can take this line and needle.
pub fn hit_fits(line: &str, needle: &str) -> (r: bool)
    ensures
        r == hit_ok(line@, needle@),
{
    let snippet = collapse_ws(line);
    let lower = lowercase(snippet.as_str());
    let lower_needle = lowercase(needle);
    match find_bytes(lower.as_str().as_bytes(), lower_needle.as_str().as_bytes()) {
        Some(b) => b <= byte_len(snippet.as_str()) && is_boundary(snippet.as_str(), b),
        None => true,
    }
}

/// Item `j` is the last one or sits on another row than the item after it.
pub open spec fn new_row(xs: Seq<(TextMatch, String)>, j: int) -> bool {
    j == xs.len() - 1 || xs[j].0.start.row != xs[j + 1].0.start.row
}

/// Indices of the items from `j` on that start a row, last item first.
pub open spec fn kept_from(xs: Seq<(TextMatch, String)>, j: int) -> Seq<int>
    decreases xs.len() - j,
{
    if j < 0 || j >= xs.len() {
        seq![]
    } else if new_row(xs, j) {
        kept_from(xs, j + 1).push(j)
    } else {
        kept_from(xs, j + 1)
    }
}

/// The matches shown for a pane: one per row, newest first, at most
/// `MAX_HITS_PER_PANE`.
pub open spec fn recent_picks(xs: Seq<(TextMatch, String)>) -> Seq<int> {
    upto(kept_from(xs, 0), MAX_HITS_PER_PANE as nat)
}

proof fn lemma_kept_prefix(xs: Seq<(TextMatch, String)>, b: int, a: int)
    requires
        0 <= b <= a <= xs.len(),
    ensures
        kept_from(xs, a).len() <= kept_from(xs, b).len(),
        kept_from(xs, b).take(kept_from(xs, a).len() as int) == kept_from(xs, a),
        forall|k: int| 0 <= k < kept_from(xs, b).len() ==> b <= #[trigger] kept_from(xs, b)[k] < xs.len(),
    decreases a - b,
{
    if b < a {
        lemma_kept_prefix(xs, b + 1, a);
        assert(kept_from(xs, b).take(kept_from(xs, a).len() as int) =~= kept_from(xs, a));
    } else {
        lemma_kept_in(xs, b);
        assert(kept_from(xs, b).take(kept_from(xs, b).len() as int) =~= kept_from(xs, b));
    }
}

proof fn lemma_kept_in(xs: Seq<(TextMatch, String)>, b: int)
    requires
        0 <= b <= xs.len(),
    ensures
        forall|k: int| 0 <= k < kept_from(xs, b).len() ==> b <= #[trigger] kept_from(xs, b)[k] < xs.len(),
    decreases xs.len() - b,
{
    if b < xs.len() {
        lemma_kept_in(xs, b + 1);
        let r = kept_from(xs, b + 1);
        assert forall|k: int| 0 <= k < kept_from(xs, b).len() implies b <= #[trigger] kept_from(
            xs,
            b,
        )[k] < xs.len() by {
            if k < r.len() {
                assert(kept_from(xs, b)[k] == r[k]);
            }
        }
    }
}

/// Indices of the matches to show, newest row first.
fn pick_rows(sorted: &Vec<(TextMatch, String)>) -> (r: Vec<usize>)
    ensures
        r@.len() == recent_picks(sorted@).len(),
        forall|k: int| 0 <= k < r@.len() ==> r@[k] == recent_picks(sorted@)[k],
        forall|k: int| 0 <= k < r@.len() ==> r@[k] < sorted@.len(),
{
    let ghost xs = sorted@;
    let mut picks: Vec<usize> = Vec::new();
    let mut last_row: Option<u32> = None;
    let mut i: usize = sorted.len();
    proof {
        lemma_kept_in(xs, 0);
    }
    while i > 0
        invariant_except_break
            picks@.len() < MAX_HITS_PER_PANE,
        invariant
            xs == sorted@,
            i <= xs.len(),
            picks@.len() == kept_from(xs, i as int).len(),
            forall|k: int| 0 <= k < picks@.len() ==> picks@[k] == kept_from(xs, i as int)[k],
            last_row == (if i < xs.len() {
                Some(xs[i as int].0.start.row)
            } else {
                None::<u32>
            }),
        ensures
            picks@.len() == recent_picks(xs).len(),
            forall|k: int| 0 <= k < picks@.len() ==> picks@[k] == recent_picks(xs)[k],
        decreases i,
    {
        let j = i - 1;
        let row = sorted[j].0.start.row;
        proof {
            lemma_kept_in(xs, j as int);
        }
        let fresh = match last_row {
            Some(r) => r != row,
            None => true,
        };
        last_row = Some(row);
        i = j;
        if fresh {
            picks.push(j);
            if picks.len() >= MAX_HITS_PER_PANE {
                proof {
                    lemma_kept_prefix(xs, 0, j as int);
                    assert(picks@.len() == kept_from(xs, j as int).len());
                    assert(upto(kept_from(xs, 0), MAX_HITS_PER_PANE as nat) =~= kept_from(xs, j as int));
                }
                break;
            }
        }
    }
    picks
}

/// Newest first, one hit per row, at most `MAX_HITS_PER_PANE`, from matches
/// sorted by position.
pub fn recent_hits(sorted: Vec<(TextMatch, String)>, needle: &str) -> (hits: Vec<SearchHit>)
    requires
        forall|k: int|
            0 <= k < recent_picks(sorted@).len() ==> hit_ok(
                sorted@[#[trigger] recent_picks(sorted@)[k]].1@,
                needle@,
            ),
    ensures
        hits@.len() == recent_picks(sorted@).len(),
        forall|k: int|
            0 <= k < hits@.len() ==> hit_of(
                #[trigger] hits@[k],
                sorted@[recent_picks(sorted@)[k]].0,
                sorted@[recent_picks(sorted@)[k]].1@,
                needle@,
            ),
{
    let picks = pick_rows(&sorted);
    let mut hits: Vec<SearchHit> = Vec::new();
    let mut k: usize = 0;
    while k < picks.len()
        invariant
            picks@.len() == recent_picks(sorted@).len(),
            forall|q: int| 0 <= q < picks@.len() ==> picks@[q] == recent_picks(sorted@)[q],
            forall|q: int| 0 <= q < picks@.len() ==> picks@[q] < sorted@.len(),
            forall|q: int|
                0 <= q < recent_picks(sorted@).len() ==> hit_ok(
                    sorted@[#[trigger] recent_picks(sorted@)[q]].1@,
                    needle@,
                ),
            k <= picks@.len(),
            hits@.len() == k,
            forall|q: int|
                0 <= q < k ==> hit_of(
                    #[trigger] hits@[q],
                    sorted@[recent_picks(sorted@)[q]].0,
                    sorted@[recent_picks(sorted@)[q]].1@,
                    needle@,
                ),
        decreases picks@.len() - k,
    {
        let j = picks[k];
        let item = &sorted[j];
        proof {
            assert(recent_picks(sorted@)[k as int] == j);
        }
        hits.push(make_hit(item.0, item.1.as_str(), needle));
        k += 1;
    }
    hits
}

/// `recent_hits` where every shown line can be cut at its match; `None`
/// where some cannot.
pub fn checked_recent_hits(sorted: Vec<(TextMatch, String)>, needle: &str) -> (r: Option<
    Vec<SearchHit>,
>)
    ensures
        r is Some <==> forall|k: int|
            0 <= k < recent_picks(sorted@).len() ==> hit_ok(
                sorted@[#[trigger] recent_picks(sorted@)[k]].1@,
                needle@,
            ),
        r is Some ==> r.unwrap()@.len() == recent_picks(sorted@).len() && forall|k: int|
            0 <= k < r.unwrap()@.len() ==> hit_of(
                #[trigger] r.unwrap()@[k],
                sorted@[recent_picks(sorted@)[k]].0,
                sorted@[recent_picks(sorted@)[k]].1@,
                needle@,
            ),
{
    let picks = pick_rows(&sorted);
    let mut k: usize = 0;
    while k < picks.len()
        invariant
            picks@.len() == recent_picks(sorted@).len(),
            forall|q: int| 0 <= q < picks@.len() ==> picks@[q] == recent_picks(sorted@)[q],
            forall|q: int| 0 <= q < picks@.len() ==> picks@[q] < sorted@.len(),
            k <= picks@.len(),
            forall|q: int|
                0 <= q < k ==> hit_ok(sorted@[#[trigger] recent_picks(sorted@)[q]].1@, needle@),
        decreases picks@.len() - k,
    {
        let j = picks[k];
        if !hit_fits(sorted[j].1.as_str(), needle) {
            proof {
                assert(recent_picks(sorted@)[k as int] == j);
            }
            return None;
        }
        k += 1;
    }
    Some(recent_hits(sorted, needle))
}

/// The characters of a text that are not control characters.
pub open spec fn printable(s: Seq<char>) -> Seq<char>
    decreases s.len(),
{
    if s.len() == 0 {
        seq![]
    } else if is_cc(s.last()) {
        printable(s.drop_last())
    } else {
        printable(s.drop_last()).push(s.last())
    }
}

/// The state after an edit to the query or mode: selection and jump
/// highlight gone, stale results flagged, everything else as before.
pub open spec fn edited(before: SearchPaneState, after: SearchPaneState) -> bool {
    &&& after.selected is None
    &&& after.jump_highlight is None
    &&& stale(after) ==> (after.status is Some && after.status.unwrap()@ == "enter to search"@)
    &&& !stale(after) ==> after.status == before.status
    &&& after.groups == before.groups
    &&& after.searched == before.searched
    &&& after.scroll == before.scroll
    &&& after.visible == before.visible
    &&& after.ai_generation == before.ai_generation
    &&& after.ai_inflight == before.ai_inflight
}

/// Flat index selected after moving by `delta` among `count` hits: from no
/// selection, down starts at the first hit and up at the last; otherwise
/// the selection wraps around.
pub open spec fn next_selection(selected: Option<usize>, delta: int, count: nat) -> int {
    match selected {
        None => if delta >= 0 {
            0
        } else {
            count - 1
        },
        Some(c) => (c + delta) % (count as int),
    }
}

/// First screen row of the hit with flat index `flat`, from row `i` on.
pub open spec fn hit_row_from(rows: Seq<BodyRow>, flat: nat, i: int) -> Option<int>
    decreases rows.len() - i,
{
    if i < 0 || i >= rows.len() {
        None
    } else if is_hit_row(rows[i], flat) {
        Some(i)
    } else {
        hit_row_from(rows, flat, i + 1)
    }
}

pub open spec fn viewport_of(rect: Rect) -> nat {
    if body_of(rect).height == 0 {
        1
    } else {
        body_of(rect).height as nat
    }
}

/// Scroll offset that brings the selected hit into a viewport of `viewport`
/// rows, showing its group header too when it is the group's first hit.
pub open spec fn shown_scroll(rows: Seq<BodyRow>, scroll: nat, selected: Option<usize>, viewport: nat) -> nat {
    match selected {
        None => scroll,
        Some(flat) => match hit_row_from(rows, flat as nat, 0) {
            None => scroll,
            Some(index) => {
                let top = if index > 0 && rows[index - 1] is Group {
                    index - 1
                } else {
                    index
                };
                if top < scroll {
                    top as nat
                } else if index >= scroll + viewport {
                    (index + 1 - viewport) as nat
                } else {
                    scroll
                }
            },
        },
    }
}

/// `scroll + delta` kept between the top and the last full viewport.
pub open spec fn scrolled(scroll: int, delta: int, rows: nat, viewport: nat) -> int {
    let max = if rows >= viewport {
        rows - viewport
    } else {
        0
    };
    let want = scroll + delta;
    if want < 0 {
        0
    } else if want > max {
        max
    } else {
        want
    }
}

impl SearchPaneState {
    /// Types text into the query; control characters are dropped.
    pub fn insert_text(&mut self, text: &str)
        ensures
            printable(text@).len() == 0 ==> *final(self) == *old(self),
            printable(text@).len() > 0 ==> final(self).query@ == old(self).query@ + printable(text@)
                && final(self).mode == old(self).mode && edited(*old(self), *final(self)),
    {
        let cs = chars_of(text);
        let mut kept: Vec<char> = Vec::new();
        let mut i: usize = 0;
        while i < cs.len()
            invariant
                cs@ == text@,
                i <= cs@.len(),
                kept@ == printable(text@.take(i as int)),
            decreases cs@.len() - i,
        {
            proof {
                assert(text@.take(i + 1).drop_last() =~= text@.take(i as int));
            }
            if !char_is_control(cs[i]) {
                kept.push(cs[i]);
            }
            i += 1;
        }
        proof {
            assert(text@.take(cs@.len() as int) =~= text@);
        }
        if kept.len() == 0 {
            return;
        }
        let add = string_of(&kept);
        push_str(&mut self.query, add.as_str());
        self.invalidate();
    }

    /// Switches the search mode; false when it already was `mode`.
    pub fn set_mode(&mut self, mode: SearchPaneMode) -> (changed: bool)
        ensures
            changed == (old(self).mode != mode),
            !changed ==> *final(self) == *old(self),
            changed ==> final(self).mode == mode && final(self).query == old(self).query && edited(
                *old(self),
                *final(self),
            ),
    {
        if self.mode == mode {
            return false;
        }
        self.mode = mode;
        self.invalidate();
        true
    }

    /// Scrolls so the selected hit is on screen in the pane at `pane_rect`.
    pub fn ensure_selection_visible(&mut self, pane_rect: Rect)
        requires
            total_hits(old(self).groups@) <= usize::MAX,
            old(self).scroll + u16::MAX <= usize::MAX,
        ensures
            final(self).scroll == shown_scroll(
                all_rows(old(self).groups@),
                old(self).scroll as nat,
                old(self).selected,
                viewport_of(pane_rect),
            ),
            final(self).groups == old(self).groups,
            final(self).selected == old(self).selected,
            final(self).query == old(self).query,
            final(self).mode == old(self).mode,
            final(self).searched == old(self).searched,
            final(self).status == old(self).status,
            final(self).visible == old(self).visible,
            final(self).jump_highlight == old(self).jump_highlight,
            final(self).ai_generation == old(self).ai_generation,
            final(self).ai_inflight == old(self).ai_inflight,
    {
        let flat = match self.selected {
            Some(f) => f,
            None => {
                return;
            },
        };
        let body = body_rect(pane_rect);
        let viewport: usize = if body.height == 0 {
            1
        } else {
            body.height as usize
        };
        let rows = body_rows(self);
        let index = match row_index_of_flat(rows.as_slice(), flat) {
            Some(i) => i,
            None => {
                return;
            },
        };
        let top = if index > 0 && (match rows[index - 1] {
            BodyRow::Group(_) => true,
            _ => false,
        }) {
            index - 1
        } else {
            index
        };
        if top < self.scroll {
            self.scroll = top;
        } else if index >= self.scroll + viewport {
            self.scroll = index - viewport + 1;
        }
    }

    /// Moves the selection by `delta` hits (wrapping) and scrolls it into view.
    pub fn move_selection(&mut self, delta: isize, pane_rect: Rect)
        requires
            total_hits(old(self).groups@) <= isize::MAX,
            old(self).scroll + u16::MAX <= usize::MAX,
            old(self).selected matches Some(c) ==> c <= isize::MAX && isize::MIN <= c + delta
                <= isize::MAX,
        ensures
            total_hits(old(self).groups@) == 0 ==> final(self).selected is None && final(self).scroll
                == old(self).scroll,
            total_hits(old(self).groups@) > 0 ==> final(self).selected == Some(
                next_selection(old(self).selected, delta as int, total_hits(old(self).groups@))
                    as usize,
            ) && final(self).scroll == shown_scroll(
                all_rows(old(self).groups@),
                old(self).scroll as nat,
                final(self).selected,
                viewport_of(pane_rect),
            ),
            0 <= next_selection(old(self).selected, delta as int, total_hits(old(self).groups@))
                < total_hits(old(self).groups@) || total_hits(old(self).groups@) == 0,
            final(self).groups == old(self).groups,
            final(self).query == old(self).query,
            final(self).mode == old(self).mode,
            final(self).searched == old(self).searched,
            final(self).status == old(self).status,
            final(self).visible == old(self).visible,
            final(self).jump_highlight == old(self).jump_highlight,
    {
        let count = self.hit_count();
        if count == 0 {
            self.selected = None;
            return;
        }
        let next: usize = match self.selected {
            None => if delta >= 0 {
                0
            } else {
                count - 1
            },
            Some(current) => {
                let x = current as isize + delta;
                match x.checked_rem_euclid(count as isize) {
                    Some(v) => v as usize,
                    None => 0,
                }
            },
        };
        self.selected = Some(next);
        self.ensure_selection_visible(pane_rect);
    }

    /// Scrolls the results by `delta` rows within the pane at `pane_rect`.
    pub fn scroll_by(&mut self, delta: isize, pane_rect: Rect)
        requires
            total_hits(old(self).groups@) <= usize::MAX,
            all_rows(old(self).groups@).len() <= isize::MAX,
            old(self).scroll <= isize::MAX,
            isize::MIN <= old(self).scroll + delta <= isize::MAX,
        ensures
            final(self).scroll == scrolled(
                old(self).scroll as int,
                delta as int,
                all_rows(old(self).groups@).len(),
                viewport_of(pane_rect),
            ),
            final(self).groups == old(self).groups,
            final(self).selected == old(self).selected,
            final(self).query == old(self).query,
            final(self).mode == old(self).mode,
            final(self).searched == old(self).searched,
            final(self).status == old(self).status,
            final(self).visible == old(self).visible,
            final(self).jump_highlight == old(self).jump_highlight,
    {
        let body = body_rect(pane_rect);
        let viewport: usize = if body.height == 0 {
            1
        } else {
            body.height as usize
        };
        let rows = body_rows(self);
        let max = rows.len().saturating_sub(viewport);
        let want = self.scroll as isize + delta;
        let next = if want < 0 {
            0
        } else if want > max as isize {
            max as isize
        } else {
            want
        };
        self.scroll = next as usize;
    }
}

// ---------------------------------------------------------------------------
// Running a search
// ---------------------------------------------------------------------------

pub open spec fn plural_of(n: nat) -> Seq<char> {
    if n == 1 {
        ""@
    } else {
        "s"@
    }
}

pub fn plural(n: usize) -> (r: &'static str)
    ensures
        r@ == plural_of(n as nat),
{
    if n == 1 {
        ""
    } else {
        "s"
    }
}

/// "`total` in `n` agent(s)".
pub open spec fn tally(total: nat, n: nat) -> Seq<char> {
    decimal(total) + " in "@ + decimal(n) + " agent"@ + plural_of(n)
}

fn push_tally(out: &mut String, total: usize, n: usize)
    ensures
        final(out)@ == old(out)@ + tally(total as nat, n as nat),
{
    push_decimal(out, total as u64);
    push_str(out, " in ");
    push_decimal(out, n as u64);
    push_str(out, " agent");
    push_str(out, plural(n));
    proof {
        assert(final(out)@ =~= old(out)@ + tally(total as nat, n as nat));
    }
}

/// Hits across groups (`total_hits`), for a list of groups.
fn count_hits(groups: &Vec<SearchGroup>) -> (r: usize)
    requires
        total_hits(groups@) <= usize::MAX,
    ensures
        r == total_hits(groups@),
{
    let mut n: usize = 0;
    let mut i: usize = 0;
    while i < groups.len()
        invariant
            i <= groups@.len(),
            n == hits_before(groups@, i as int),
            total_hits(groups@) <= usize::MAX,
        decreases groups.len() - i,
    {
        proof {
            lemma_hits_before_grows(groups@, (i + 1) as int, groups@.len() as int);
        }
        n = n + groups[i].hits.len();
        i += 1;
    }
    n
}

impl SearchPaneState {
    /// Starts a search: the selection and scroll reset, and the trimmed query
    /// comes back; an empty query clears the results instead.
    pub fn start_query(&mut self) -> (r: Option<String>)
        ensures
            final(self).selected is None,
            final(self).scroll == 0,
            trimmed(old(self).query@).len() == 0 ==> r is None && final(self).groups@.len() == 0
                && final(self).jump_highlight is None && final(self).searched is None
                && final(self).status is None,
            trimmed(old(self).query@).len() > 0 ==> r is Some && r.unwrap()@ == trimmed(
                old(self).query@,
            ) && final(self).groups == old(self).groups && final(self).jump_highlight == old(
                self,
            ).jump_highlight && final(self).searched == old(self).searched && final(self).status
                == old(self).status,
            final(self).query == old(self).query,
            final(self).mode == old(self).mode,
            final(self).visible == old(self).visible,
            final(self).ai_generation == old(self).ai_generation,
            final(self).ai_inflight == old(self).ai_inflight,
    {
        let query = trim_text(self.query.as_str());
        self.selected = None;
        self.scroll = 0;
        proof {
            crate::editor::lemma_blen_zero(query@);
        }
        if byte_len(query.as_str()) == 0 {
            self.groups = Vec::new();
            self.jump_highlight = None;
            self.searched = None;
            self.status = None;
            return None;
        }
        Some(query)
    }

    /// Shows the groups a keyword search found for `query`.
    pub fn finish_keyword_search(&mut self, query: String, groups: Vec<SearchGroup>)
        requires
            total_hits(groups@) <= usize::MAX,
        ensures
            final(self).groups == groups,
            final(self).searched == Some((query, SearchPaneMode::Keyword)),
            final(self).status is Some,
            final(self).status.unwrap()@ == (if groups@.len() == 0 {
                "no matches"@
            } else {
                tally(total_hits(groups@), groups@.len())
            }),
            final(self).query == old(self).query,
            final(self).mode == old(self).mode,
            final(self).selected == old(self).selected,
            final(self).scroll == old(self).scroll,
            final(self).visible == old(self).visible,
            final(self).jump_highlight == old(self).jump_highlight,
    {
        let total = count_hits(&groups);
        let status = if groups.len() == 0 {
            owned("no matches")
        } else {
            let mut t = String::new();
            push_tally(&mut t, total, groups.len());
            proof {
                assert(t@ =~= tally(total as nat, groups@.len()));
            }
            t
        };
        self.status = Some(status);
        self.groups = groups;
        self.searched = Some((query, SearchPaneMode::Keyword));
    }

    /// Starts an AI search for `query` over `panes`: the generation to tag
    /// the reply with, or `None` when there is no pane to ask about.
    pub fn begin_ai_search(&mut self, query: String, panes: Vec<AiPaneRef>) -> (r: Option<u64>)
        requires
            old(self).ai_generation < u64::MAX,
        ensures
            final(self).groups@.len() == 0,
            final(self).jump_highlight is None,
            final(self).searched == Some((query, SearchPaneMode::Ai)),
            panes@.len() == 0 ==> r is None && final(self).status is Some
                && final(self).status.unwrap()@ == "no agent panes to search"@
                && final(self).ai_generation == old(self).ai_generation
                && final(self).ai_inflight == old(self).ai_inflight,
            panes@.len() > 0 ==> r == Some((old(self).ai_generation + 1) as u64)
                && final(self).ai_generation == old(self).ai_generation + 1 && final(self).ai_inflight
                && final(self).ai_panes == panes && final(self).status is Some
                && final(self).status.unwrap()@ == "thinking…"@,
            final(self).query == old(self).query,
            final(self).mode == old(self).mode,
            final(self).selected == old(self).selected,
            final(self).scroll == old(self).scroll,
            final(self).visible == old(self).visible,
    {
        if panes.len() == 0 {
            self.groups = Vec::new();
            self.jump_highlight = None;
            self.status = Some(owned("no agent panes to search"));
            self.searched = Some((query, SearchPaneMode::Ai));
            return None;
        }
        self.ai_generation = self.ai_generation + 1;
        let generation = self.ai_generation;
        self.ai_inflight = true;
        self.ai_panes = panes;
        self.groups = Vec::new();
        self.jump_highlight = None;
        self.status = Some(owned("thinking…"));
        self.searched = Some((query, SearchPaneMode::Ai));
        Some(generation)
    }

    /// The AI command finished for `generation`. A reply to an older search
    /// is dropped. Otherwise the JSON array in the reply comes back for
    /// parsing, or the status says why there is none.
    pub fn ai_reply(&mut self, generation: u64, result: Result<String, String>) -> (r: Option<String>)
        ensures
            generation != old(self).ai_generation ==> r is None && *final(self) == *old(self),
            generation == old(self).ai_generation ==> !final(self).ai_inflight && match result {
                Err(e) => r is None && final(self).status is Some && final(self).status.unwrap()@
                    == "AI search failed: "@ + e@,
                Ok(out) => match json_span(out@) {
                    Err(why) => r is None && final(self).status is Some
                        && final(self).status.unwrap()@ == "AI reply unreadable: "@ + why,
                    Ok(span) => r is Some && r.unwrap()@ == span && final(self).status == old(
                        self,
                    ).status,
                },
            },
            generation == old(self).ai_generation ==> final(self).groups == old(self).groups
                && final(self).query == old(self).query && final(self).mode == old(self).mode
                && final(self).searched == old(self).searched && final(self).selected == old(
                self,
            ).selected && final(self).scroll == old(self).scroll && final(self).ai_generation == old(
                self,
            ).ai_generation,
    {
        if generation != self.ai_generation {
            return None;
        }
        self.ai_inflight = false;
        match result {
            Err(e) => {
                let mut t = owned("AI search failed: ");
                push_str(&mut t, e.as_str());
                self.status = Some(t);
                None
            },
            Ok(out) => match ai_json_span(out.as_str()) {
                Err(why) => {
                    self.ai_unreadable(why.as_str());
                    None
                },
                Ok(span) => Some(span),
            },
        }
    }

    /// The AI reply could not be read.
    pub fn ai_unreadable(&mut self, why: &str)
        ensures
            final(self).status is Some,
            final(self).status.unwrap()@ == "AI reply unreadable: "@ + why@,
            final(self).groups == old(self).groups,
            final(self).query == old(self).query,
            final(self).mode == old(self).mode,
            final(self).searched == old(self).searched,
            final(self).selected == old(self).selected,
            final(self).scroll == old(self).scroll,
            final(self).ai_generation == old(self).ai_generation,
            final(self).ai_inflight == old(self).ai_inflight,
    {
        let mut t = owned("AI reply unreadable: ");
        push_str(&mut t, why);
        self.status = Some(t);
    }

    /// Shows the groups the AI's quotes were found in.
    pub fn finish_ai_search(&mut self, groups: Vec<SearchGroup>)
        requires
            total_hits(groups@) <= usize::MAX,
        ensures
            final(self).groups == groups,
            final(self).scroll == 0,
            final(self).status is Some,
            final(self).status.unwrap()@ == (if groups@.len() == 0 {
                "AI found nothing relevant"@
            } else {
                "AI: "@ + tally(total_hits(groups@), groups@.len())
            }),
            final(self).query == old(self).query,
            final(self).mode == old(self).mode,
            final(self).searched == old(self).searched,
            final(self).selected == old(self).selected,
            final(self).visible == old(self).visible,
            final(self).ai_generation == old(self).ai_generation,
            final(self).ai_inflight == old(self).ai_inflight,
    {
        let status = ai_status(&groups);
        self.status = Some(status);
        self.groups = groups;
        self.scroll = 0;
    }
}

/// The status line after an AI search: how many hits in how many agents.
pub open spec fn ai_status_text(groups: Seq<SearchGroup>) -> Seq<char> {
    if groups.len() == 0 {
        "AI found nothing relevant"@
    } else {
        "AI: "@ + tally(total_hits(groups), groups.len())
    }
}

pub fn ai_status(groups: &Vec<SearchGroup>) -> (r: String)
    requires
        total_hits(groups@) <= usize::MAX,
    ensures
        r@ == ai_status_text(groups@),
{
    let total = count_hits(groups);
    if groups.len() == 0 {
        owned("AI found nothing relevant")
    } else {
        let mut t = owned("AI: ");
        push_tally(&mut t, total, groups.len());
        t
    }
}

/// First index from `i` on where `c` occurs.
pub open spec fn index_from(s: Seq<char>, c: char, i: int) -> Option<int>
    decreases s.len() - i,
{
    if i < 0 || i >= s.len() {
        None
    } else if s[i] == c {
        Some(i)
    } else {
        index_from(s, c, i + 1)
    }
}

/// Last index below `n` where `c` occurs.
pub open spec fn last_index_before(s: Seq<char>, c: char, n: int) -> Option<int>
    decreases n,
{
    if n <= 0 || n > s.len() {
        None
    } else if s[n - 1] == c {
        Some(n - 1)
    } else {
        last_index_before(s, c, n - 1)
    }
}

/// The JSON array in an AI reply: from the first `[` to the last `]`, so
/// prose and code fences around it do no harm.
pub open spec fn json_span(s: Seq<char>) -> Result<Seq<char>, Seq<char>> {
    match (index_from(s, '[', 0), last_index_before(s, ']', s.len() as int)) {
        (Some(a), Some(b)) => if b <= a {
            Err("malformed JSON array"@)
        } else {
            Ok(s.subrange(a, b + 1))
        },
        _ => Err("no JSON array in reply"@),
    }
}

pub fn ai_json_span(output: &str) -> (r: Result<String, String>)
    ensures
        match r {
            Ok(x) => json_span(output@) == Ok::<Seq<char>, Seq<char>>(x@),
            Err(e) => json_span(output@) == Err::<Seq<char>, Seq<char>>(e@),
        },
{
    let cs = chars_of(output);
    let ghost s = output@;
    let mut a: usize = 0;
    while a < cs.len() && cs[a] != '['
        invariant
            cs@ == s,
            a <= s.len(),
            index_from(s, '[', 0) == index_from(s, '[', a as int),
        decreases s.len() - a,
    {
        a += 1;
    }
    if a == cs.len() {
        return Err(owned("no JSON array in reply"));
    }
    let mut b: usize = cs.len();
    while b > 0 && cs[b - 1] != ']'
        invariant
            cs@ == s,
            b <= s.len(),
            last_index_before(s, ']', s.len() as int) == last_index_before(s, ']', b as int),
        decreases b,
    {
        b -= 1;
    }
    if b == 0 {
        return Err(owned("no JSON array in reply"));
    }
    let end = b - 1;
    if end <= a {
        return Err(owned("malformed JSON array"));
    }
    let mut span: Vec<char> = Vec::new();
    let mut i: usize = a;
    while i <= end
        invariant
            cs@ == s,
            a <= i <= end + 1,
            end < s.len(),
            end < usize::MAX,
            span@ == s.subrange(a as int, i as int),
        decreases end + 1 - i,
    {
        span.push(cs[i]);
        i += 1;
    }
    Ok(string_of(&span))
}

/// The start of the AI prompt, before the user's request.
pub const PROMPT_HEAD: &'static str = "You are the search engine for a terminal multiplexer running several AI coding agents. \
     Below are the recent terminal transcripts of each agent pane, delimited by `### PANE n` headers.\n\n\
     The user is looking for: ";

/// The instructions after the user's request, before the transcripts.
pub const PROMPT_RULES: &'static str = "\n\nFind the passages most relevant to that request. For each pane that has something relevant, \
     return up to 3 short quotes (one line each, at most ~100 characters), copied VERBATIM from that pane's \
     transcript so they can be located by exact substring match. Prefer the most recent relevant passages. \
     Skip panes with nothing relevant.\n\n\
     Reply with JSON only, no prose, exactly this shape:\n\
     [{\"pane\": 1, \"quotes\": [\"exact text from pane 1\", \"...\"]}, {\"pane\": 3, \"quotes\": [\"...\"]}]\n\n";

/// Each section followed by a newline.
pub open spec fn sections_text(sections: Seq<String>) -> Seq<char>
    decreases sections.len(),
{
    if sections.len() == 0 {
        seq![]
    } else {
        sections_text(sections.drop_last()) + sections.last()@ + seq!['\n']
    }
}

/// The prompt: instructions around the request, then every pane section.
pub fn build_ai_prompt(query: &str, sections: &[String]) -> (r: String)
    ensures
        r@ == PROMPT_HEAD@ + query@ + PROMPT_RULES@ + sections_text(sections@),
{
    let mut prompt = String::new();
    push_str(&mut prompt, PROMPT_HEAD);
    push_str(&mut prompt, query);
    push_str(&mut prompt, PROMPT_RULES);
    let ghost head = prompt@;
    proof {
        assert(prompt@ =~= PROMPT_HEAD@ + query@ + PROMPT_RULES@);
        assert(sections@.take(0) =~= Seq::<String>::empty());
    }
    let mut i: usize = 0;
    while i < sections.len()
        invariant
            i <= sections@.len(),
            head == PROMPT_HEAD@ + query@ + PROMPT_RULES@,
            prompt@ == head + sections_text(sections@.take(i as int)),
        decreases sections@.len() - i,
    {
        push_str(&mut prompt, sections[i].as_str());
        push_char(&mut prompt, '\n');
        proof {
            assert(sections@.take(i + 1).drop_last() =~= sections@.take(i as int));
            assert(prompt@ =~= head + sections_text(sections@.take(i + 1)));
        }
        i += 1;
    }
    proof {
        assert(sections@.take(sections@.len() as int) =~= sections@);
    }
    prompt
}

/// The last `budget` characters of a text (all of it when shorter).
pub open spec fn tail_of(s: Seq<char>, budget: nat) -> Seq<char> {
    if s.len() > budget {
        s.subrange(s.len() - budget, s.len() as int)
    } else {
        s
    }
}

/// A pane's part of the AI prompt: "### PANE n — title (subtitle)" and its text.
pub open spec fn section_of(n: nat, title: Seq<char>, subtitle: Seq<char>, text: Seq<char>) -> Seq<char> {
    "### PANE "@ + decimal(n) + " — "@ + title + " ("@ + subtitle + ")\n"@ + text + "\n"@
}

pub fn ai_section(n: usize, title: &str, subtitle: &str, text: &str) -> (r: String)
    ensures
        r@ == section_of(n as nat, title@, subtitle@, text@),
{
    let mut out = owned("### PANE ");
    push_decimal(&mut out, n as u64);
    push_str(&mut out, " — ");
    push_str(&mut out, title);
    push_str(&mut out, " (");
    push_str(&mut out, subtitle);
    push_str(&mut out, ")\n");
    push_str(&mut out, text);
    push_str(&mut out, "\n");
    proof {
        assert(out@ =~= section_of(n as nat, title@, subtitle@, text@));
    }
    out
}

/// Total characters the pane sections of one prompt may hold.
pub const AI_MAX_PROMPT_CHARS: usize = 120_000;

/// The panes (by index into `cands`) that make it into the prompt, each with
/// its trimmed text cut to the budget left: empty texts are skipped, and
/// once the budget is spent no further pane is taken.
pub open spec fn ai_plan(cands: Seq<(AiPaneRef, String)>, i: int, budget: nat) -> Seq<(int, Seq<char>)>
    decreases cands.len() - i,
{
    if i < 0 || i >= cands.len() || budget == 0 {
        seq![]
    } else if trimmed(cands[i].1@).len() == 0 {
        ai_plan(cands, i + 1, budget)
    } else {
        let kept = tail_of(trimmed(cands[i].1@), budget);
        seq![(i, kept)] + ai_plan(cands, i + 1, (budget - kept.len()) as nat)
    }
}

/// The prompt sections and the panes they describe, in prompt order, for
/// candidate panes with their recent scrollback text.
pub fn ai_sections(cands: Vec<(AiPaneRef, String)>) -> (r: (Vec<String>, Vec<AiPaneRef>))
    ensures
        r.0@.len() == ai_plan(cands@, 0, AI_MAX_PROMPT_CHARS as nat).len(),
        r.1@.len() == r.0@.len(),
        forall|k: int|
            0 <= k < r.0@.len() ==> {
                let p = #[trigger] ai_plan(cands@, 0, AI_MAX_PROMPT_CHARS as nat)[k];
                &&& r.1@[k] == cands@[p.0].0
                &&& r.0@[k]@ == section_of(
                    (k + 1) as nat,
                    cands@[p.0].0.title@,
                    cands@[p.0].0.subtitle@,
                    p.1,
                )
            },
{
    let ghost all = cands@;
    let n = cands.len();
    let mut rest = cands;
    let mut sections: Vec<String> = Vec::new();
    let mut panes: Vec<AiPaneRef> = Vec::new();
    let mut budget: usize = AI_MAX_PROMPT_CHARS;
    let mut i: usize = 0;
    while rest.len() > 0 && budget > 0
        invariant
            i <= all.len(),
            all.len() <= usize::MAX,
            rest@ == all.subrange(i as int, all.len() as int),
            panes@.len() == sections@.len(),
            ai_plan(all, 0, AI_MAX_PROMPT_CHARS as nat) == ({
                let done = Seq::new(
                    sections@.len(),
                    |k: int| ai_plan(all, 0, AI_MAX_PROMPT_CHARS as nat)[k],
                );
                done
            }) + ai_plan(all, i as int, budget as nat),
            sections@.len() <= ai_plan(all, 0, AI_MAX_PROMPT_CHARS as nat).len(),
            forall|k: int|
                0 <= k < sections@.len() ==> {
                    let p = #[trigger] ai_plan(all, 0, AI_MAX_PROMPT_CHARS as nat)[k];
                    &&& panes@[k] == all[p.0].0
                    &&& sections@[k]@ == section_of(
                        (k + 1) as nat,
                        all[p.0].0.title@,
                        all[p.0].0.subtitle@,
                        p.1,
                    )
                },
            sections@.len() <= i,
        decreases all.len() - i,
    {
        let ghost before = ai_plan(all, 0, AI_MAX_PROMPT_CHARS as nat);
        let (pane, raw) = rest.remove(0);
        let text = trim_text(raw.as_str());
        let cs = chars_of(text.as_str());
        if cs.len() > 0 {
            let kept: String = if cs.len() > budget {
                let mut tail: Vec<char> = Vec::new();
                let mut j: usize = cs.len() - budget;
                while j < cs.len()
                    invariant
                        cs@ == text@,
                        cs@.len() > budget,
                        cs@.len() - budget <= j <= cs@.len(),
                        tail@ == cs@.subrange(cs@.len() - budget, j as int),
                    decreases cs@.len() - j,
                {
                    tail.push(cs[j]);
                    j += 1;
                }
                string_of(&tail)
            } else {
                text
            };
            let kept_len = if cs.len() > budget {
                budget
            } else {
                cs.len()
            };
            proof {
                assert(kept@ == tail_of(trimmed(all[i as int].1@), budget as nat));
                assert(kept@.len() == kept_len);
            }
            let section = ai_section(sections.len() + 1, pane.title.as_str(), pane.subtitle.as_str(), kept.as_str());
            sections.push(section);
            panes.push(pane);
            budget = budget - kept_len;
        }
        i += 1;
        proof {
            assert(rest@ =~= all.subrange(i as int, all.len() as int));
        }
    }
    (sections, panes)
}

/// One agent pane as the sidebar lists it.
pub struct AgentPanelEntry {
    pub ws_idx: usize,
    pub tab_idx: usize,
    pub pane_id: u64,
    /// The pane's number in the sidebar.
    pub index: usize,
    /// The workspace label the pane is listed under.
    pub primary_label: String,
    pub primary_tab_label: Option<String>,
    pub pane_label: Option<String>,
    pub terminal_title: Option<String>,
    pub terminal_title_stripped: Option<String>,
    /// The agent's own label, when it reports one.
    pub agent_label: Option<String>,
    /// The kind of agent detected in the pane, by name.
    pub agent: Option<String>,
    pub tokens: Vec<(String, String)>,
}

/// The value of a token when it is present and not blank.
pub open spec fn solid_token(tokens: Seq<(String, String)>, key: Seq<char>) -> Option<Seq<char>> {
    match lookup_from(pairs_view(tokens), key, 0) {
        Some(v) => if blank(v) {
            None
        } else {
            Some(v)
        },
        None => None,
    }
}

pub open spec fn agent_label_of(e: AgentPanelEntry) -> Option<Seq<char>> {
    match e.agent_label {
        Some(a) => Some(a@),
        None => None,
    }
}

/// "index · label": the topic token, else the agent's label, else the
/// primary label.
pub open spec fn title_text(e: AgentPanelEntry) -> Seq<char> {
    let label = match solid_token(e.tokens@, "topic"@) {
        Some(t) => t,
        None => match agent_label_of(e) {
            Some(a) => a,
            None => e.primary_label@,
        },
    };
    decimal(e.index as nat) + " · "@ + label
}

/// The primary label, followed by " · model" when a model (the `model`
/// token, else the agent's label) is known and differs from it.
pub open spec fn subtitle_text(e: AgentPanelEntry) -> Seq<char> {
    let model = match solid_token(e.tokens@, "model"@) {
        Some(m) => Some(m),
        None => agent_label_of(e),
    };
    match model {
        Some(m) => if m != e.primary_label@ {
            e.primary_label@ + " · "@ + m
        } else {
            e.primary_label@
        },
        None => e.primary_label@,
    }
}

fn solid_token_of<'a>(tokens: &'a Vec<(String, String)>, key: &str) -> (r: Option<&'a str>)
    ensures
        match solid_token(tokens@, key@) {
            Some(v) => r is Some && r.unwrap()@ == v,
            None => r is None,
        },
{
    match token_value(tokens, key) {
        Some(v) => if is_blank(v) {
            None
        } else {
            Some(v)
        },
        None => None,
    }
}

pub fn group_title(entry: &AgentPanelEntry) -> (r: String)
    ensures
        r@ == title_text(*entry),
{
    let label: &str = match solid_token_of(&entry.tokens, "topic") {
        Some(t) => t,
        None => match &entry.agent_label {
            Some(a) => a.as_str(),
            None => entry.primary_label.as_str(),
        },
    };
    let mut out = String::new();
    push_decimal(&mut out, entry.index as u64);
    push_str(&mut out, " · ");
    push_str(&mut out, label);
    proof {
        assert(out@ =~= title_text(*entry));
    }
    out
}

pub fn group_subtitle(entry: &AgentPanelEntry) -> (r: String)
    ensures
        r@ == subtitle_text(*entry),
{
    let model: Option<&str> = match solid_token_of(&entry.tokens, "model") {
        Some(m) => Some(m),
        None => match &entry.agent_label {
            Some(a) => Some(a.as_str()),
            None => None,
        },
    };
    match model {
        Some(m) => if !str_eq(m, entry.primary_label.as_str()) {
            let mut out = owned(entry.primary_label.as_str());
            push_str(&mut out, " · ");
            push_str(&mut out, m);
            out
        } else {
            owned(entry.primary_label.as_str())
        },
        None => owned(entry.primary_label.as_str()),
    }
}

proof fn lemma_locate_from(groups: Seq<SearchGroup>, flat: nat, i: int)
    requires
        0 <= i <= groups.len(),
    ensures
        (locate_from(groups, flat, i) is Some) == (hits_before(groups, i) + flat < total_hits(groups)),
    decreases groups.len() - i,
{
    if i < groups.len() {
        lemma_locate_from(groups, (flat - groups[i].hits@.len()) as nat, i + 1);
        lemma_hits_before_grows(groups, i + 1, groups.len() as int);
    }
}

/// Flat indices address exactly the hits that `hit_count` counts.
pub proof fn law_flat_indices_cover_the_hits(groups: Seq<SearchGroup>, flat: nat)
    ensures
        (locate_from(groups, flat, 0) is Some) == (flat < total_hits(groups)),
{
    lemma_locate_from(groups, flat, 0);
}

proof fn lemma_rows_upto_len(groups: Seq<SearchGroup>, n: int)
    requires
        0 <= n <= groups.len(),
    ensures
        rows_upto(groups, n).len() == hits_before(groups, n) + n + (if n > 0 {
            n - 1
        } else {
            0
        }),
    decreases n,
{
    if n > 0 {
        lemma_rows_upto_len(groups, n - 1);
    }
}

/// The results list has a header row per group, a gap between groups and
/// a row per hit.
pub proof fn law_rows_are_headers_gaps_and_hits(groups: Seq<SearchGroup>)
    ensures
        all_rows(groups).len() == total_hits(groups) + groups.len() + (if groups.len() > 0 {
            groups.len() - 1
        } else {
            0
        }),
{
    lemma_rows_upto_len(groups, groups.len() as int);
}

proof fn lemma_hits_before_grows(groups: Seq<SearchGroup>, i: int, j: int)
    requires
        0 <= i <= j <= groups.len(),
    ensures
        hits_before(groups, i) <= hits_before(groups, j),
    decreases j - i,
{
    if i < j {
        lemma_hits_before_grows(groups, i, j - 1);
    }
}

} // verus!
