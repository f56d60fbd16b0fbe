//! The message tree preview of a Pi conversation in the search pane: moving
//! the selection, scrolling the selected text, keys and clicks, the fork
//! request for the selected message and what its answer means.
use crate::conversations::{preview_of, preview_rects};
use crate::editor::Rect;
use crate::editor_input::{EditorKey, KeyCode, CONTROL};
use crate::json::{as_str, get, json_parse, parse_json, str_at, Json, JsonView};
use crate::pi_conversation::{ConversationMessage, ConversationMessageView};
use crate::schema::{AgentForkParams, BranchPosition, MessageRef, MessageRefView};
use crate::search_pane::{collapse_ws, collapsed, upto};
use crate::text::{chars_of, owned, push_str, string_of};
use vstd::prelude::*;

verus! {

pub struct ConversationPreview {
    /// The pane whose conversation is shown.
    pub target: String,
    pub messages: Vec<ConversationMessage>,
    pub selected: usize,
    /// First message shown in the tree.
    pub tree_scroll: usize,
    /// Characters of the selected text scrolled past.
    pub text_scroll: usize,
    pub status: String,
}

pub open spec fn messages_view(v: Seq<ConversationMessage>) -> Seq<ConversationMessageView> {
    v.map_values(|m: ConversationMessage| m@)
}

pub open spec fn clamp(x: int, lo: int, hi: int) -> int {
    if x < lo {
        lo
    } else if x > hi {
        hi
    } else {
        x
    }
}

/// Rows of the message tree in a search pane `pane`, at least one.
pub open spec fn tree_rows(pane: Rect) -> nat {
    let h = preview_of(pane).1.height as nat;
    if h < 1 {
        1
    } else {
        h
    }
}

/// The selection moved by `delta` within the messages, text scrolled back to
/// its start, and the tree scrolled just enough to show the selection.
pub open spec fn moved_selection(selected: int, tree_scroll: int, len: int, delta: int, rows: int) -> (
    int,
    int,
) {
    let s = clamp(selected + delta, 0, len - 1);
    let t1 = if s < tree_scroll {
        s
    } else {
        tree_scroll
    };
    let t2 = if s >= t1 + rows {
        s + 1 - rows
    } else {
        t1
    };
    (s, t2)
}

/// What a click on the preview asks for.
#[derive(Clone, Copy, Debug, PartialEq, Eq, Structural)]
pub enum PreviewRequest {
    Nothing,
    /// Close the preview and return to the results.
    Close,
    /// Fork the selected message.
    Fork(BranchPosition),
}

/// What the fork API answered.
pub enum ForkAnswer {
    /// Refused, with the message to show.
    Failed(String),
    /// The fork is being launched; the preview closes.
    Launched,
    /// Neither an error nor a result.
    Unrecognized,
}

/// Columns of the first control row that close the preview.
pub const CLOSE_COLUMNS: u16 = 17;

/// Columns of the second control row that hold the two fork buttons; the
/// second button starts at `CONTINUE_COLUMN`.
pub const FORK_COLUMNS: u16 = 23;

pub const CONTINUE_COLUMN: u16 = 13;

pub open spec fn rewrite_refusal() -> Seq<char> {
    "Rewrite needs a text-only user prompt"@
}

pub open spec fn continue_refusal() -> Seq<char> {
    "Cannot continue inside an unfinished tool turn"@
}

/// The fork answer as shown: the error's message (or a generic one) for an
/// error, a launch for a result; an unreadable answer counts as null.
pub open spec fn fork_answer_of(parsed: Result<JsonView, Seq<char>>) -> Option<Option<Seq<char>>> {
    let v = match parsed {
        Ok(v) => v,
        Err(_) => JsonView::Null,
    };
    match get(v, "error"@) {
        Some(e) => Some(Some(
            match str_at(e, "message"@) {
                Some(m) => m,
                None => "fork failed"@,
            },
        )),
        None => if get(v, "result"@) is Some {
            Some(None)
        } else {
            None
        },
    }
}

/// Reads the fork API's answer.
pub fn fork_answer(response: &str) -> (r: ForkAnswer)
    ensures
        match fork_answer_of(json_parse(response@)) {
            Some(Some(m)) => r matches ForkAnswer::Failed(s) && s@ == m,
            Some(None) => r is Launched,
            None => r is Unrecognized,
        },
{
    let parsed = match parse_json(response) {
        Ok(v) => v,
        Err(_) => Json::Null,
    };
    match parsed.get("error") {
        Some(e) => {
            let m = match e.str_at("message") {
                Some(m) => owned(m),
                None => owned("fork failed"),
            };
            ForkAnswer::Failed(m)
        },
        None => {
            if parsed.get("result").is_some() {
                ForkAnswer::Launched
            } else {
                ForkAnswer::Unrecognized
            }
        },
    }
}

impl ConversationPreview {
    pub fn selected_message(&self) -> (r: Option<&ConversationMessage>)
        ensures
            self.selected < self.messages.len() ==> r == Some(&self.messages@[self.selected as int]),
            self.selected >= self.messages.len() ==> r is None,
    {
        if self.selected < self.messages.len() {
            Some(&self.messages[self.selected])
        } else {
            None
        }
    }

    /// Moves the selection by `delta` messages, clamped to the list, in a
    /// search pane at `pane`; nothing happens without messages.
    pub fn move_selection(&mut self, delta: isize, pane: Rect)
        requires
            old(self).selected <= isize::MAX,
            old(self).messages.len() <= isize::MAX,
            isize::MIN <= old(self).selected + delta <= isize::MAX,
        ensures
            final(self).target == old(self).target,
            final(self).messages == old(self).messages,
            final(self).status == old(self).status,
            old(self).messages.len() == 0 ==> *final(self) == *old(self),
            old(self).messages.len() > 0 ==> {
                let (s, t) = moved_selection(
                    old(self).selected as int,
                    old(self).tree_scroll as int,
                    old(self).messages.len() as int,
                    delta as int,
                    tree_rows(pane) as int,
                );
                &&& final(self).selected == s
                &&& final(self).tree_scroll == t
                &&& final(self).text_scroll == 0
            },
    {
        let (_, tree, _, _) = preview_rects(pane);
        let rows: usize = if tree.height < 1 {
            1
        } else {
            tree.height as usize
        };
        let n = self.messages.len();
        if n == 0 {
            return;
        }
        let target = self.selected as isize + delta;
        let last = (n - 1) as isize;
        let s: usize = if target < 0 {
            0
        } else if target > last {
            n - 1
        } else {
            target as usize
        };
        self.selected = s;
        self.text_scroll = 0;
        if s < self.tree_scroll {
            self.tree_scroll = s;
        }
        if s - self.tree_scroll >= rows {
            self.tree_scroll = s + 1 - rows;
        }
    }

    /// Scrolls the selected message's text by `delta` characters, within its
    /// length (at most 65535); without a selected message it returns to the
    /// start.
    pub fn scroll_text(&mut self, delta: isize)
        requires
            old(self).text_scroll <= isize::MAX,
            isize::MIN <= old(self).text_scroll + delta <= isize::MAX,
        ensures
            final(self).target == old(self).target,
            final(self).messages == old(self).messages,
            final(self).selected == old(self).selected,
            final(self).tree_scroll == old(self).tree_scroll,
            final(self).status == old(self).status,
            final(self).text_scroll == clamp(
                old(self).text_scroll + delta,
                0,
                if old(self).selected < old(self).messages.len() {
                    let n = old(self).messages@[old(self).selected as int].text@.len() as int;
                    if n > 65535 {
                        65535
                    } else {
                        n
                    }
                } else {
                    0
                },
            ),
    {
        let max: usize = match self.selected_message() {
            Some(m) => {
                let n = chars_of(m.text.as_str()).len();
                if n > 65535 {
                    65535
                } else {
                    n
                }
            },
            None => 0,
        };
        let target = self.text_scroll as isize + delta;
        self.text_scroll = if target < 0 {
            0
        } else if target > max as isize {
            max
        } else {
            target as usize
        };
    }

    /// A click at `(col, row)` in a search pane at `pane`, with shift held
    /// or not. The first control row closes the preview, the second holds
    /// the two fork buttons (shift makes either continue), and a tree row
    /// selects its message, forking after it with shift. Blank space and the
    /// border do nothing.
    pub fn click(&mut self, col: u16, row: u16, shift: bool, pane: Rect) -> (r: PreviewRequest)
        requires
            pane.y as int + pane.height as int <= u16::MAX,
            pane.y < u16::MAX,
        ensures
            final(self).target == old(self).target,
            final(self).messages == old(self).messages,
            final(self).status == old(self).status,
            final(self).tree_scroll == old(self).tree_scroll,
            ({
                let (controls, tree, _, _) = preview_of(pane);
                let inside = controls.x <= col < controls.x + controls.width;
                let x = col - controls.x;
                let in_tree = row != controls.y && row != controls.y + 1 && tree.y <= row < tree.y
                    + tree.height;
                let index = old(self).tree_scroll + (row - tree.y);
                let picks = inside && in_tree && index < old(self).messages.len();
                &&& r == (if !inside {
                    PreviewRequest::Nothing
                } else if row == controls.y {
                    if x < CLOSE_COLUMNS {
                        PreviewRequest::Close
                    } else {
                        PreviewRequest::Nothing
                    }
                } else if row == controls.y + 1 {
                    if x < FORK_COLUMNS {
                        PreviewRequest::Fork(
                            if x >= CONTINUE_COLUMN || shift {
                                BranchPosition::Continue
                            } else {
                                BranchPosition::Rewrite
                            },
                        )
                    } else {
                        PreviewRequest::Nothing
                    }
                } else if picks && shift {
                    PreviewRequest::Fork(BranchPosition::Continue)
                } else {
                    PreviewRequest::Nothing
                })
                &&& final(self).selected == (if picks {
                    index
                } else {
                    old(self).selected as int
                })
                &&& final(self).text_scroll == (if picks {
                    0
                } else {
                    old(self).text_scroll
                })
            }),
    {
        let (controls, tree, _, _) = preview_rects(pane);
        if col < controls.x || col as u32 >= controls.x as u32 + controls.width as u32 {
            return PreviewRequest::Nothing;
        }
        let x = col - controls.x;
        if row == controls.y {
            return if x < CLOSE_COLUMNS {
                PreviewRequest::Close
            } else {
                PreviewRequest::Nothing
            };
        }
        if row == controls.y + 1 {
            if x < FORK_COLUMNS {
                return PreviewRequest::Fork(
                    if x >= CONTINUE_COLUMN || shift {
                        BranchPosition::Continue
                    } else {
                        BranchPosition::Rewrite
                    },
                );
            }
            return PreviewRequest::Nothing;
        }
        if row >= tree.y && row < tree.y + tree.height {
            let off = (row - tree.y) as usize;
            let n = self.messages.len();
            if self.tree_scroll < n && off < n - self.tree_scroll {
                self.selected = self.tree_scroll + off;
                self.text_scroll = 0;
                if shift {
                    return PreviewRequest::Fork(BranchPosition::Continue);
                }
            }
        }
        PreviewRequest::Nothing
    }

    /// A key while the preview is open (releases are ignored): Esc closes,
    /// Enter forks (continuing with a modifier, rewriting without), `Ctrl+B`
    /// rewrites, the arrows move the selection and the page keys scroll the
    /// text by five.
    pub fn key(&mut self, key: &EditorKey, pane: Rect) -> (r: PreviewRequest)
        requires
            old(self).selected < isize::MAX,
            old(self).messages.len() <= isize::MAX,
            old(self).text_scroll <= isize::MAX - 5,
        ensures
            final(self).target == old(self).target,
            final(self).messages == old(self).messages,
            final(self).status == old(self).status,
            r == match key.code {
                KeyCode::Esc => PreviewRequest::Close,
                KeyCode::Enter => PreviewRequest::Fork(
                    if key.modifiers & 7u8 != 0u8 {
                        BranchPosition::Continue
                    } else {
                        BranchPosition::Rewrite
                    },
                ),
                KeyCode::Char(c) => if c == 'b' && key.modifiers & CONTROL != 0u8 {
                    PreviewRequest::Fork(BranchPosition::Rewrite)
                } else {
                    PreviewRequest::Nothing
                },
                _ => PreviewRequest::Nothing,
            },
            (key.code == KeyCode::Up || key.code == KeyCode::Down) && old(self).messages.len()
                > 0 ==> {
                let (s, t) = moved_selection(
                    old(self).selected as int,
                    old(self).tree_scroll as int,
                    old(self).messages.len() as int,
                    if key.code == KeyCode::Up {
                        -1
                    } else {
                        1
                    },
                    tree_rows(pane) as int,
                );
                &&& final(self).selected == s
                &&& final(self).tree_scroll == t
                &&& final(self).text_scroll == 0
            },
            !(key.code == KeyCode::Up || key.code == KeyCode::Down || key.code == KeyCode::PageUp
                || key.code == KeyCode::PageDown) ==> {
                &&& final(self).selected == old(self).selected
                &&& final(self).tree_scroll == old(self).tree_scroll
                &&& final(self).text_scroll == old(self).text_scroll
            },
    {
        match key.code {
            KeyCode::Esc => PreviewRequest::Close,
            KeyCode::Enter => PreviewRequest::Fork(
                if key.modifiers & 7u8 != 0u8 {
                    BranchPosition::Continue
                } else {
                    BranchPosition::Rewrite
                },
            ),
            KeyCode::Char(c) => {
                if c == 'b' && key.modifiers & CONTROL != 0u8 {
                    PreviewRequest::Fork(BranchPosition::Rewrite)
                } else {
                    PreviewRequest::Nothing
                }
            },
            KeyCode::Up => {
                self.move_selection(-1, pane);
                PreviewRequest::Nothing
            },
            KeyCode::Down => {
                self.move_selection(1, pane);
                PreviewRequest::Nothing
            },
            KeyCode::PageUp => {
                self.scroll_text(-5);
                PreviewRequest::Nothing
            },
            KeyCode::PageDown => {
                self.scroll_text(5);
                PreviewRequest::Nothing
            },
            _ => PreviewRequest::Nothing,
        }
    }

    /// The fork request for the selected message at `position`, when the
    /// message allows it; otherwise the status says why, and there is no
    /// request. Without a selected message nothing happens.
    pub fn fork_request(&mut self, position: BranchPosition) -> (r: Option<AgentForkParams>)
        ensures
            final(self).target == old(self).target,
            final(self).messages == old(self).messages,
            final(self).selected == old(self).selected,
            final(self).tree_scroll == old(self).tree_scroll,
            final(self).text_scroll == old(self).text_scroll,
            old(self).selected >= old(self).messages.len() ==> r is None && final(self).status
                == old(self).status,
            old(self).selected < old(self).messages.len() ==> {
                let m = old(self).messages@[old(self).selected as int]@;
                let allowed = match position {
                    BranchPosition::Rewrite => m.can_rewrite,
                    BranchPosition::Continue => m.can_continue,
                };
                &&& allowed ==> (r matches Some(p) && p.target@ == old(self).target@
                    && p.reference@ == m.reference && p.position == position)
                &&& allowed ==> final(self).status == old(self).status
                &&& !allowed ==> r is None && final(self).status@ == match position {
                    BranchPosition::Rewrite => rewrite_refusal(),
                    BranchPosition::Continue => continue_refusal(),
                }
            },
    {
        if self.selected >= self.messages.len() {
            return None;
        }
        let message = &self.messages[self.selected];
        let allowed = match position {
            BranchPosition::Rewrite => message.can_rewrite,
            BranchPosition::Continue => message.can_continue,
        };
        if !allowed {
            self.status = match position {
                BranchPosition::Rewrite => owned("Rewrite needs a text-only user prompt"),
                BranchPosition::Continue => owned("Cannot continue inside an unfinished tool turn"),
            };
            return None;
        }
        let reference = MessageRef {
            session_path: message.reference.session_path.clone(),
            session_id: message.reference.session_id.clone(),
            entry_id: message.reference.entry_id.clone(),
            ancestry_hash: message.reference.ancestry_hash.clone(),
        };
        Some(AgentForkParams { target: self.target.clone(), reference, position })
    }
}

// ---------------------------------------------------------------------------
// Tree rows
// ---------------------------------------------------------------------------

/// How a message's tree row starts: the selection marker, else whether the
/// message is on the active branch.
pub open spec fn marker(selected: bool, active: bool) -> Seq<char> {
    if selected {
        seq!['\u{25b8}']
    } else if active {
        seq!['\u{2502}']
    } else {
        seq!['\u{251c}']
    }
}

/// A message's tree row: marker, one space per level of depth (at most
/// five), who wrote it, and its first 160 characters on one line.
pub open spec fn tree_row(m: ConversationMessageView, selected: bool) -> Seq<char> {
    let depth: nat = if m.depth > 5 {
        5
    } else {
        m.depth
    };
    marker(selected, m.active) + Seq::new(depth, |i: int| ' ') + (if m.role == "user"@ {
        "you"@
    } else {
        "ai"@
    }) + ": "@ + collapsed(upto(m.text, 160))
}

pub fn tree_line(m: &ConversationMessage, selected: bool) -> (r: String)
    ensures
        r@ == tree_row(m@, selected),
{
    let mut s = String::new();
    let mark = if selected {
        '\u{25b8}'
    } else if m.active {
        '\u{2502}'
    } else {
        '\u{251c}'
    };
    crate::text::push_char(&mut s, mark);
    let depth: usize = if m.depth > 5 {
        5
    } else {
        m.depth
    };
    let mut i: usize = 0;
    while i < depth
        invariant
            i <= depth <= 5,
            s@ == marker(selected, m.active) + Seq::new(i as nat, |k: int| ' '),
        decreases depth - i,
    {
        crate::text::push_char(&mut s, ' ');
        i += 1;
        proof {
            assert(s@ =~= marker(selected, m.active) + Seq::new(i as nat, |k: int| ' '));
        }
    }
    if crate::text::str_eq(m.role.as_str(), "user") {
        push_str(&mut s, "you");
    } else {
        push_str(&mut s, "ai");
    }
    push_str(&mut s, ": ");
    let cs = chars_of(m.text.as_str());
    let take: usize = if cs.len() > 160 {
        160
    } else {
        cs.len()
    };
    let head = crate::mentions::slice_string(&cs, 0, take);
    proof {
        assert(head@ =~= upto(m.text@, 160));
    }
    let line = collapse_ws(head.as_str());
    push_str(&mut s, line.as_str());
    proof {
        assert(s@ =~= tree_row(m@, selected));
    }
    s
}

} // verus!
