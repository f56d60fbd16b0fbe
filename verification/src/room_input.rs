//! Keys and pointer events on an open room: the composer keys, transcript
//! scrolling, drag selection and composer clicks. What needs the rest of the
//! application (showing or hiding the room, copying, sending, pasting, panel
//! shortcuts) is handed back as an effect for the caller to perform.
use crate::editor::{sat_sub as sub_nat, Editor, EditorView, Position, Rect};
use crate::editor_input::{
    applied, bound_command, click_cursor, command_for, entered, jump_result, page_step,
    apply_command, EditorKey, KeyCode, ALT, CONTROL, SHIFT, SUPER,
};
use crate::panel_focus::Mode;
use crate::search_pane::{contains, within};
use crate::presentation::TranscriptRole;
use crate::selection::{hit, hit_point, lines_view, Point, Selection};
use crate::text::push_char;
use vstd::prelude::*;

verus! {

#[derive(Clone, Copy, Debug, PartialEq, Eq, Structural)]
pub enum KeyKind {
    Press,
    Repeat,
    Release,
}

/// How a key reaches an open room.
#[derive(Clone, Copy, Debug, PartialEq, Eq, Structural)]
pub enum RoomKeyRoute {
    /// Not the room's: the key goes on to the rest of the application.
    Pass,
    /// `Ctrl+Alt+R` pressed: hide an open room, or open the room.
    ToggleRoom,
    /// Taken with no effect.
    Swallow,
    /// Try the panel shortcuts, then the composer.
    Composer,
}

/// Releases belong to the terminal that got the key-down; popups and modal
/// modes keep their keys. `Ctrl+Alt+R` toggles the room from the three panel
/// focuses; other keys reach the composer only while the room is shown with
/// terminal focus.
pub open spec fn room_key_route(
    key: EditorKey,
    kind: KeyKind,
    mode: Mode,
    popup_open: bool,
    room_active: bool,
) -> RoomKeyRoute {
    if kind == KeyKind::Release || popup_open || !(mode == Mode::Terminal || mode
        == Mode::Navigate || mode == Mode::SearchPane) {
        RoomKeyRoute::Pass
    } else if key.code == KeyCode::Char('r') && key.modifiers == CONTROL + ALT {
        if kind == KeyKind::Press {
            RoomKeyRoute::ToggleRoom
        } else {
            RoomKeyRoute::Swallow
        }
    } else if !room_active || mode != Mode::Terminal {
        RoomKeyRoute::Pass
    } else {
        RoomKeyRoute::Composer
    }
}

pub fn route_room_key(
    key: &EditorKey,
    kind: KeyKind,
    mode: Mode,
    popup_open: bool,
    room_active: bool,
) -> (r: RoomKeyRoute)
    ensures
        r == room_key_route(*key, kind, mode, popup_open, room_active),
{
    if kind == KeyKind::Release || popup_open || !(mode == Mode::Terminal || mode == Mode::Navigate
        || mode == Mode::SearchPane) {
        RoomKeyRoute::Pass
    } else if key.code == KeyCode::Char('r') && key.modifiers == CONTROL + ALT {
        if kind == KeyKind::Press {
            RoomKeyRoute::ToggleRoom
        } else {
            RoomKeyRoute::Swallow
        }
    } else if !room_active || mode != Mode::Terminal {
        RoomKeyRoute::Pass
    } else {
        RoomKeyRoute::Composer
    }
}

/// Columns the composer wraps at: its width less one for the caret, or the
/// terminal's before the composer has been laid out; at least one.
pub open spec fn wrap_width(composer_width: u16, terminal_width: u16) -> usize {
    let w = if composer_width == 0 {
        terminal_width
    } else {
        composer_width
    };
    if w <= 1 {
        1
    } else {
        (w - 1) as usize
    }
}

pub fn composer_wrap_width(composer_width: u16, terminal_width: u16) -> (r: usize)
    ensures
        r == wrap_width(composer_width, terminal_width),
{
    let w = if composer_width == 0 {
        terminal_width
    } else {
        composer_width
    };
    if w <= 1 {
        1
    } else {
        (w - 1) as usize
    }
}

/// The room as its keys and pointer see it.
pub struct RoomSurface {
    pub visible: bool,
    /// Transcript lines scrolled back from the newest.
    pub scroll: usize,
    pub selection: Option<Selection>,
    pub composer: String,
    pub editor: Editor,
}

pub struct RoomSurfaceView {
    pub visible: bool,
    pub scroll: usize,
    pub selection: Option<Selection>,
    pub composer: Seq<char>,
    pub editor: EditorView,
}

impl View for RoomSurface {
    type V = RoomSurfaceView;

    open spec fn view(&self) -> RoomSurfaceView {
        RoomSurfaceView {
            visible: self.visible,
            scroll: self.scroll,
            selection: self.selection,
            composer: self.composer@,
            editor: self.editor@,
        }
    }
}

/// What the caller does after a composer key.
#[derive(Clone, Copy, Debug, PartialEq, Eq, Structural)]
pub enum ComposerEffect {
    /// Nothing more to do.
    Done,
    /// Copy the selected transcript text.
    Copy,
    /// Send the draft.
    Send,
    /// Paste the clipboard into the draft.
    Paste,
}

pub open spec fn sat_add(a: usize, b: usize) -> usize {
    if a + b > usize::MAX {
        usize::MAX
    } else {
        (a + b) as usize
    }
}

pub open spec fn sat_sub(a: usize, b: usize) -> usize {
    if a > b {
        (a - b) as usize
    } else {
        0
    }
}

/// `c` or `C` with control, or control and shift.
pub open spec fn control_letter(key: EditorKey, lower: char, upper: char) -> bool {
    (key.code == KeyCode::Char(lower) || key.code == KeyCode::Char(upper)) && (key.modifiers
        == CONTROL || key.modifiers == CONTROL + SHIFT)
}

/// A composer key: the character jump, then the editor bindings, then the
/// room's own keys. Every key is taken.
pub open spec fn composer_key_result(
    s: RoomSurfaceView,
    key: EditorKey,
    width: usize,
    page_rows: usize,
) -> (RoomSurfaceView, ComposerEffect) {
    let (e1, taken) = jump_result(s.editor, s.composer, key);
    let s1 = RoomSurfaceView { editor: e1, ..s };
    if taken {
        (s1, ComposerEffect::Done)
    } else {
        match bound_command(key, page_rows) {
            Some(c) => {
                let (e2, t2) = applied(e1, s.composer, c, width);
                (RoomSurfaceView { editor: e2, composer: t2, ..s1 }, ComposerEffect::Done)
            },
            None => match key.code {
                KeyCode::Esc => (RoomSurfaceView { visible: false, ..s1 }, ComposerEffect::Done),
                KeyCode::PageUp => if key.modifiers == 0 {
                    (RoomSurfaceView { scroll: sat_add(s.scroll, 5), ..s1 }, ComposerEffect::Done)
                } else {
                    (s1, ComposerEffect::Done)
                },
                KeyCode::PageDown => if key.modifiers == 0 {
                    (RoomSurfaceView { scroll: sat_sub(s.scroll, 5), ..s1 }, ComposerEffect::Done)
                } else {
                    (s1, ComposerEffect::Done)
                },
                KeyCode::Enter => if key.modifiers == 0 {
                    let (e2, t2, send) = entered(e1, s.composer);
                    (
                        RoomSurfaceView { editor: e2, composer: t2, ..s1 },
                        if send {
                            ComposerEffect::Send
                        } else {
                            ComposerEffect::Done
                        },
                    )
                } else {
                    (s1, ComposerEffect::Done)
                },
                KeyCode::Char(ch) => if control_letter(key, 'c', 'C') {
                    (s1, ComposerEffect::Copy)
                } else if control_letter(key, 'v', 'V') {
                    (s1, ComposerEffect::Paste)
                } else if key.modifiers & 14u8 == 0u8 {
                    let (e2, t2) = e1.type_text_spec(s.composer, seq![ch]);
                    (RoomSurfaceView { editor: e2, composer: t2, ..s1 }, ComposerEffect::Done)
                } else {
                    (s1, ComposerEffect::Done)
                },
                _ => (s1, ComposerEffect::Done),
            },
        }
    }
}

fn is_control_letter(key: &EditorKey, lower: char, upper: char) -> (r: bool)
    ensures
        r == control_letter(*key, lower, upper),
{
    (key.code == KeyCode::Char(lower) || key.code == KeyCode::Char(upper)) && (key.modifiers
        == CONTROL || key.modifiers == CONTROL + SHIFT)
}

impl RoomSurface {
    /// Handles a key routed to the composer; the draft wraps at `width`
    /// columns and a page step moves `page_rows` rows.
    pub fn composer_key(&mut self, key: &EditorKey, width: usize, page_rows: usize) -> (r:
        ComposerEffect)
        requires
            old(self)@.editor.wf(old(self)@.composer),
            page_step(page_rows) != isize::MIN,
        ensures
            (final(self)@, r) == composer_key_result(old(self)@, *key, width, page_rows),
            final(self)@.editor.wf(final(self)@.composer),
    {
        if self.editor.jump_key(self.composer.as_str(), key) {
            return ComposerEffect::Done;
        }
        match command_for(key, page_rows) {
            Some(c) => {
                apply_command(&mut self.editor, &mut self.composer, c, width);
                return ComposerEffect::Done;
            },
            None => {},
        }
        match key.code {
            KeyCode::Esc => {
                self.visible = false;
                ComposerEffect::Done
            },
            KeyCode::PageUp => {
                if key.modifiers == 0 {
                    self.scroll = self.scroll.saturating_add(5);
                }
                ComposerEffect::Done
            },
            KeyCode::PageDown => {
                if key.modifiers == 0 {
                    self.scroll = self.scroll.saturating_sub(5);
                }
                ComposerEffect::Done
            },
            KeyCode::Enter => {
                if key.modifiers == 0 {
                    if self.editor.enter(&mut self.composer) {
                        return ComposerEffect::Send;
                    }
                }
                ComposerEffect::Done
            },
            KeyCode::Char(ch) => {
                if is_control_letter(key, 'c', 'C') {
                    ComposerEffect::Copy
                } else if is_control_letter(key, 'v', 'V') {
                    ComposerEffect::Paste
                } else if key.modifiers & 14u8 == 0u8 {
                    let mut typed = String::new();
                    push_char(&mut typed, ch);
                    proof {
                        assert(typed@ =~= seq![ch]);
                    }
                    self.editor.type_text(&mut self.composer, typed.as_str());
                    ComposerEffect::Done
                } else {
                    ComposerEffect::Done
                }
            },
            _ => ComposerEffect::Done,
        }
    }
}

// ---------------------------------------------------------------------------
// Pointer events
// ---------------------------------------------------------------------------

#[derive(Clone, Copy, Debug, PartialEq, Eq, Structural)]
pub enum MouseButton {
    Left,
    Right,
    Middle,
}

#[derive(Clone, Copy, Debug, PartialEq, Eq, Structural)]
pub enum MouseKind {
    Down(MouseButton),
    Up(MouseButton),
    Drag(MouseButton),
    Moved,
    ScrollUp,
    ScrollDown,
    ScrollLeft,
    ScrollRight,
}

/// Where the room's parts are on screen, and what else a pointer event
/// depends on.
#[derive(Clone, Copy, Debug, PartialEq, Eq, Structural)]
pub struct RoomPointer {
    pub mode: Mode,
    pub popup_open: bool,
    /// The room is shown in the main area.
    pub room_active: bool,
    pub copy_on_select: bool,
    /// The sidebar entry that opens the room.
    pub room_entry: Rect,
    pub terminal_area: Rect,
    pub transcript_area: Rect,
    pub composer_area: Rect,
    /// The transcript line shown on the first row of its area.
    pub transcript_begin: usize,
}

/// What the caller does after a pointer event.
#[derive(Clone, Copy, Debug, PartialEq, Eq, Structural)]
pub enum PointerEffect {
    /// Not the room's event.
    Pass,
    Done,
    /// Copy the finished selection.
    Copy,
    /// Open the room.
    SelectRoom,
    /// Give the terminal area focus.
    FocusTerminal,
}

pub open spec fn left(k: MouseKind) -> bool {
    k == MouseKind::Down(MouseButton::Left)
}

/// A drag that started in the transcript owns the whole gesture, even outside
/// it: each move and the release extend the selection to the point under the
/// pointer when there is one, and the release ends it. The room's sidebar
/// entry takes presses. In the shown room, the wheel scrolls the transcript
/// three lines, and a press focuses the terminal area and either starts a
/// selection in the transcript or moves the caret in the composer.
pub open spec fn pointer_result(
    s: RoomSurfaceView,
    p: RoomPointer,
    kind: MouseKind,
    pos: Position,
    lines: Seq<Seq<char>>,
    roles: Seq<TranscriptRole>,
) -> (RoomSurfaceView, PointerEffect) {
    let at = hit_point(lines, roles, p.transcript_begin as nat, p.transcript_area, pos);
    if p.popup_open || !(p.mode == Mode::Terminal || p.mode == Mode::Navigate || p.mode
        == Mode::SearchPane) {
        (s, PointerEffect::Pass)
    } else if p.room_active && (s.selection matches Some(sel) && sel.dragging) && (kind
        == MouseKind::Drag(MouseButton::Left) || kind == MouseKind::Up(MouseButton::Left)) {
        let sel = s.selection->Some_0;
        let moved = match at {
            Some(end) => Selection { end, ..sel },
            None => sel,
        };
        if kind == MouseKind::Up(MouseButton::Left) {
            (
                RoomSurfaceView { selection: Some(Selection { dragging: false, ..moved }), ..s },
                if p.copy_on_select {
                    PointerEffect::Copy
                } else {
                    PointerEffect::Done
                },
            )
        } else {
            (RoomSurfaceView { selection: Some(moved), ..s }, PointerEffect::Done)
        }
    } else if within(p.room_entry, pos.x, pos.y) && !(kind == MouseKind::ScrollUp || kind
        == MouseKind::ScrollDown) {
        (
            s,
            if left(kind) {
                PointerEffect::SelectRoom
            } else {
                PointerEffect::Done
            },
        )
    } else if p.room_active && within(p.terminal_area, pos.x, pos.y) {
        if kind == MouseKind::ScrollUp {
            (RoomSurfaceView { scroll: sat_add(s.scroll, 3), ..s }, PointerEffect::Done)
        } else if kind == MouseKind::ScrollDown {
            (RoomSurfaceView { scroll: sat_sub(s.scroll, 3), ..s }, PointerEffect::Done)
        } else if left(kind) {
            if within(p.transcript_area, pos.x, pos.y) {
                (
                    RoomSurfaceView {
                        selection: match at {
                            Some(pt) => Some(Selection { anchor: pt, end: pt, dragging: true }),
                            None => None,
                        },
                        ..s
                    },
                    PointerEffect::FocusTerminal,
                )
            } else if within(p.composer_area, pos.x, pos.y) {
                (
                    RoomSurfaceView {
                        selection: None,
                        editor: (EditorView {
                            cursor: click_cursor(s.editor, s.composer, p.composer_area, pos) as usize,
                            ..s.editor
                        }).exit_history_spec().moved_spec().normalized(s.composer),
                        ..s
                    },
                    PointerEffect::FocusTerminal,
                )
            } else {
                (RoomSurfaceView { selection: None, ..s }, PointerEffect::FocusTerminal)
            }
        } else {
            (s, PointerEffect::Done)
        }
    } else {
        (s, PointerEffect::Pass)
    }
}

impl RoomSurface {
    /// Handles a pointer event over the room.
    pub fn pointer(
        &mut self,
        p: &RoomPointer,
        kind: MouseKind,
        pos: Position,
        lines: &[String],
        roles: &[TranscriptRole],
    ) -> (r: PointerEffect)
        requires
            old(self)@.editor.wf(old(self)@.composer),
            p.transcript_begin + sub_nat(pos.y as nat, p.transcript_area.y as nat) <= usize::MAX,
            old(self)@.editor.top + sub_nat(pos.y as nat, p.composer_area.y as nat) <= usize::MAX,
        ensures
            (final(self)@, r) == pointer_result(old(self)@, *p, kind, pos, lines_view(lines@), roles@),
            final(self)@.editor.wf(final(self)@.composer),
    {
        if p.popup_open || !(p.mode == Mode::Terminal || p.mode == Mode::Navigate || p.mode
            == Mode::SearchPane) {
            return PointerEffect::Pass;
        }
        let dragging = match self.selection {
            Some(sel) => sel.dragging,
            None => false,
        };
        let release = kind == MouseKind::Up(MouseButton::Left);
        if p.room_active && dragging && (kind == MouseKind::Drag(MouseButton::Left) || release) {
            let at = hit(lines, roles, p.transcript_begin, p.transcript_area, pos);
            let mut sel = match self.selection {
                Some(sel) => sel,
                None => {
                    return PointerEffect::Done;
                },
            };
            match at {
                Some(end) => {
                    sel.end = end;
                },
                None => {},
            }
            if release {
                sel.dragging = false;
                self.selection = Some(sel);
                return if p.copy_on_select {
                    PointerEffect::Copy
                } else {
                    PointerEffect::Done
                };
            }
            self.selection = Some(sel);
            return PointerEffect::Done;
        }
        let press = kind == MouseKind::Down(MouseButton::Left);
        if contains(p.room_entry, pos.x, pos.y) && !(kind == MouseKind::ScrollUp || kind
            == MouseKind::ScrollDown) {
            return if press {
                PointerEffect::SelectRoom
            } else {
                PointerEffect::Done
            };
        }
        if p.room_active && contains(p.terminal_area, pos.x, pos.y) {
            if kind == MouseKind::ScrollUp {
                self.scroll = self.scroll.saturating_add(3);
            } else if kind == MouseKind::ScrollDown {
                self.scroll = self.scroll.saturating_sub(3);
            } else if press {
                self.selection = None;
                if contains(p.transcript_area, pos.x, pos.y) {
                    let at = hit(lines, roles, p.transcript_begin, p.transcript_area, pos);
                    self.selection = match at {
                        Some(pt) => Some(Selection { anchor: pt, end: pt, dragging: true }),
                        None => None,
                    };
                } else if contains(p.composer_area, pos.x, pos.y) {
                    self.editor.click(self.composer.as_str(), p.composer_area, pos);
                }
                return PointerEffect::FocusTerminal;
            }
            return PointerEffect::Done;
        }
        PointerEffect::Pass
    }
}

} // verus!
