//! Key bindings and mouse clicks of the room editor, following the Pi editor:
//! which key runs which editing command, where a click puts the cursor, and
//! the two-key character jump (`Ctrl+]` then a
//! character forward, `Ctrl+Alt+]` then a character backward).
//!
//! A key is a code and a modifier set; the modifier bits are the terminal's
//! (shift 1, control 2, alt 4, super 8, hyper 16, meta 32).
use crate::bytes::{at_boundary, blen, bslice, byte_at, byte_len, slice};
use crate::editor::{
    byte_at_column, column_scan, grapheme_starts, pastes_view, rows_view, sat_sub, snap, snap_spec,
    word_target_spec, wrap_spec, Editor, EditorView, Position, Rect,
};
use crate::text::chars_of;
use vstd::prelude::*;
use vstd::utf8::{encode_scalar, encode_utf8};

verus! {

pub const SHIFT: u8 = 1;

pub const CONTROL: u8 = 2;

pub const ALT: u8 = 4;

pub const SUPER: u8 = 8;

pub const HYPER: u8 = 16;

pub const META: u8 = 32;

#[derive(Clone, Copy, Debug, PartialEq, Eq, Structural)]
pub enum KeyCode {
    Char(char),
    Left,
    Right,
    Up,
    Down,
    Home,
    End,
    PageUp,
    PageDown,
    Backspace,
    Delete,
    Enter,
    Esc,
    Tab,
    BackTab,
    /// Any other key.
    Other,
}

#[derive(Clone, Copy, Debug, PartialEq, Eq, Structural)]
pub struct EditorKey {
    pub code: KeyCode,
    pub modifiers: u8,
}

impl EditorKey {
    pub fn new(code: KeyCode, modifiers: u8) -> (r: Self)
        ensures
            r.code == code,
            r.modifiers == modifiers,
    {
        EditorKey { code, modifiers }
    }
}

/// An editing command a key can run.
#[derive(Clone, Copy, Debug, PartialEq, Eq, Structural)]
pub enum EditCommand {
    Vertical { delta: isize, history: bool },
    WordLeft,
    WordRight,
    Left,
    Right,
    Home,
    End,
    Backspace { word: bool },
    Delete,
    Kill { backwards: bool, line: bool },
    Yank { pop: bool },
    Undo,
    Newline,
}

/// Rows a page step moves: the page height, at least five.
pub open spec fn page_step(page_rows: usize) -> isize {
    (if page_rows < 5 {
        5
    } else {
        page_rows
    }) as isize
}

/// The command bound to a key; the first binding that matches wins.
pub open spec fn bound_command(k: EditorKey, page_rows: usize) -> Option<EditCommand> {
    let m = k.modifiers;
    let plain = m == 0;
    let ctrl = m == CONTROL;
    let alt = m == ALT;
    let shift = m == SHIFT;
    match k.code {
        KeyCode::Up => if plain {
            Some(EditCommand::Vertical { delta: -1isize, history: true })
        } else {
            None
        },
        KeyCode::Down => if plain {
            Some(EditCommand::Vertical { delta: 1isize, history: true })
        } else {
            None
        },
        KeyCode::PageUp => if ctrl {
            Some(EditCommand::Vertical { delta: (-page_step(page_rows)) as isize, history: false })
        } else {
            None
        },
        KeyCode::PageDown => if ctrl {
            Some(EditCommand::Vertical { delta: page_step(page_rows), history: false })
        } else {
            None
        },
        KeyCode::Left => if ctrl || alt {
            Some(EditCommand::WordLeft)
        } else if plain {
            Some(EditCommand::Left)
        } else {
            None
        },
        KeyCode::Right => if ctrl || alt {
            Some(EditCommand::WordRight)
        } else if plain {
            Some(EditCommand::Right)
        } else {
            None
        },
        KeyCode::Home => if plain || ctrl {
            Some(EditCommand::Home)
        } else {
            None
        },
        KeyCode::End => if plain || ctrl {
            Some(EditCommand::End)
        } else {
            None
        },
        KeyCode::Backspace => if plain || shift {
            Some(EditCommand::Backspace { word: false })
        } else if alt {
            Some(EditCommand::Backspace { word: true })
        } else {
            None
        },
        KeyCode::Delete => if plain || shift {
            Some(EditCommand::Delete)
        } else if alt {
            Some(EditCommand::Kill { backwards: false, line: false })
        } else {
            None
        },
        KeyCode::Enter => if shift {
            Some(EditCommand::Newline)
        } else {
            None
        },
        KeyCode::Char(c) => if alt && c == 'b' {
            Some(EditCommand::WordLeft)
        } else if alt && c == 'f' {
            Some(EditCommand::WordRight)
        } else if ctrl && c == 'b' {
            Some(EditCommand::Left)
        } else if ctrl && c == 'f' {
            Some(EditCommand::Right)
        } else if ctrl && c == 'a' {
            Some(EditCommand::Home)
        } else if ctrl && c == 'e' {
            Some(EditCommand::End)
        } else if ctrl && c == 'd' {
            Some(EditCommand::Delete)
        } else if ctrl && c == 'w' {
            Some(EditCommand::Backspace { word: true })
        } else if alt && c == 'd' {
            Some(EditCommand::Kill { backwards: false, line: false })
        } else if ctrl && c == 'u' {
            Some(EditCommand::Kill { backwards: true, line: true })
        } else if ctrl && c == 'k' {
            Some(EditCommand::Kill { backwards: false, line: true })
        } else if ctrl && c == 'y' {
            Some(EditCommand::Yank { pop: false })
        } else if alt && c == 'y' {
            Some(EditCommand::Yank { pop: true })
        } else if ctrl && c == '-' {
            Some(EditCommand::Undo)
        } else if ctrl && c == 'j' {
            Some(EditCommand::Newline)
        } else {
            None
        },
        KeyCode::Esc | KeyCode::Tab | KeyCode::BackTab | KeyCode::Other => None,
    }
}

/// The editor and draft after a command.
pub open spec fn applied(e: EditorView, t: Seq<char>, c: EditCommand, width: usize) -> (
    EditorView,
    Seq<char>,
) {
    match c {
        EditCommand::Vertical { delta, history } => e.vertical_spec(t, width, delta, history),
        EditCommand::WordLeft => (
            EditorView {
                cursor: word_target_spec(t, e.pastes, e.normalized(t).cursor as nat, true) as usize,
                ..e.normalized(t).moved_spec()
            },
            t,
        ),
        EditCommand::WordRight => (
            EditorView {
                cursor: word_target_spec(t, e.pastes, e.normalized(t).cursor as nat, false) as usize,
                ..e.normalized(t).moved_spec()
            },
            t,
        ),
        EditCommand::Left => (e.left_spec(t), t),
        EditCommand::Right => (e.right_spec(t), t),
        EditCommand::Home => (e.home_spec(t), t),
        EditCommand::End => (e.end_spec(t), t),
        EditCommand::Backspace { word } => e.backspace_spec(t, word),
        EditCommand::Delete => e.delete_spec(t),
        EditCommand::Kill { backwards, line } => e.kill_spec(t, backwards, line),
        EditCommand::Yank { pop } => e.yank_spec(t, pop),
        EditCommand::Undo => e.undo_spec(t),
        EditCommand::Newline => e.type_text_spec(t, seq!['\n']),
    }
}

/// The first newline at or after `c` is at `d` when none lies in `c..d` and
/// `d` holds one; there is none when none lies from `c` to the end.
proof fn lemma_first_newline(bs: Seq<u8>, c: int, d: int)
    requires
        0 <= c <= d <= bs.len(),
        d == bs.len() || bs[d] == 10,
        forall|x: int| c <= x < d ==> bs[x] != 10,
    ensures
        crate::editor::next_nl_from(bs, c) == if d < bs.len() {
            Some(d as nat)
        } else {
            None::<nat>
        },
    decreases d - c,
{
    if c < d {
        lemma_first_newline(bs, c + 1, d);
    }
}

/// Ctrl+K kills from the cursor to the end of its logical line. Where the
/// first newline at or after the cursor (or the draft's end) lies past the
/// cursor, exactly the bytes between them go, and none of them is a newline;
/// with the cursor on a newline, that newline alone goes. Outside a kill run,
/// what went (with folded pastes expanded) becomes the newest kill-ring entry.
pub proof fn law_ctrl_k_kills_to_the_line_end(e: EditorView, t: Seq<char>, d: int, page_rows: usize, width: usize)
    requires
        blen(t) <= usize::MAX,
        e.normalized(t).cursor <= blen(t),
        at_boundary(t, e.normalized(t).cursor as int),
        e.normalized(t).cursor <= d <= blen(t),
        d == blen(t) || encode_utf8(t)[d] == 10,
        forall|x: int| e.normalized(t).cursor <= x < d ==> encode_utf8(t)[x] != 10,
    ensures
        bound_command(EditorKey { code: KeyCode::Char('k'), modifiers: CONTROL }, page_rows) matches Some(cmd) && ({
            let c = e.normalized(t).cursor as int;
            let bs = encode_utf8(t);
            let (f, u) = applied(e, t, cmd, width);
            &&& d > c ==> encode_utf8(u) == bs.subrange(0, c) + bs.subrange(d, bs.len() as int)
            &&& d > c && e.action != crate::editor::Action::Kill ==> f.ring.last() == crate::editor::expanded_range(
                t,
                e.pastes,
                c as nat,
                d as nat,
            )
            &&& d == c && c < bs.len() ==> encode_utf8(u) == bs.subrange(0, c) + bs.subrange(c + 1, bs.len() as int)
        }),
{
    let bs = encode_utf8(t);
    let c = e.normalized(t).cursor as int;
    let cmd = EditCommand::Kill { backwards: false, line: true };
    assert(bound_command(EditorKey { code: KeyCode::Char('k'), modifiers: CONTROL }, page_rows) == Some(cmd));
    lemma_first_newline(bs, c, d);
    assert(crate::editor::line_end(t, c as nat) == d);
    let n = e.normalized(t);
    let target: nat = if d == c {
        crate::editor::min_nat((d + 1) as nat, blen(t))
    } else {
        d as nat
    };
    assert(applied(e, t, cmd, width) == e.kill_spec(t, false, true));
    assert(e.kill_spec(t, false, true) == n.erase_spec(t, target as usize, true));
    let b = target as int;
    let e2 = n.exit_history_spec().save_spec(t);
    assert(e2.cursor == c && e2.action == e.action && e2.ring == e.ring && e2.pastes == e.pastes);
    if b != c {
        assert(applied(e, t, cmd, width).1 == crate::editor::replaced(t, c, b, Seq::<char>::empty()));
    }
    let empty = Seq::<char>::empty();
    assert(encode_utf8(empty) =~= Seq::<u8>::empty()) by {
        reveal_with_fuel(encode_utf8, 1);
    }
    if d > c {
        if d < bs.len() {
            assert(!vstd::utf8::is_continuation_byte(bs[d]));
        }
        crate::editor::lemma_replaced(t, c, d, empty);
        assert(bs.subrange(0, c) + encode_utf8(empty) + bs.subrange(d, bs.len() as int) =~= bs.subrange(0, c)
            + bs.subrange(d, bs.len() as int));
    } else if c < bs.len() {
        crate::editor::lemma_after_ascii(t, c);
        crate::editor::lemma_replaced(t, c, c + 1, empty);
        assert(bs.subrange(0, c) + encode_utf8(empty) + bs.subrange(c + 1, bs.len() as int) =~= bs.subrange(0, c)
            + bs.subrange(c + 1, bs.len() as int));
    }
}

fn plain_or(m: u8, other: u8) -> (r: bool)
    ensures
        r == (m == 0 || m == other),
{
    m == 0 || m == other
}

/// The command bound to a key.
pub fn command_for(key: &EditorKey, page_rows: usize) -> (r: Option<EditCommand>)
    requires
        page_step(page_rows) != isize::MIN,
    ensures
        r == bound_command(*key, page_rows),
{
    let m = key.modifiers;
    let plain = m == 0;
    let ctrl = m == CONTROL;
    let alt = m == ALT;
    let shift = m == SHIFT;
    let page: isize = (if page_rows < 5 {
        5
    } else {
        page_rows
    }) as isize;
    match key.code {
        KeyCode::Up => if plain {
            Some(EditCommand::Vertical { delta: -1, history: true })
        } else {
            None
        },
        KeyCode::Down => if plain {
            Some(EditCommand::Vertical { delta: 1, history: true })
        } else {
            None
        },
        KeyCode::PageUp => if ctrl {
            Some(EditCommand::Vertical { delta: -page, history: false })
        } else {
            None
        },
        KeyCode::PageDown => if ctrl {
            Some(EditCommand::Vertical { delta: page, history: false })
        } else {
            None
        },
        KeyCode::Left => if ctrl || alt {
            Some(EditCommand::WordLeft)
        } else if plain {
            Some(EditCommand::Left)
        } else {
            None
        },
        KeyCode::Right => if ctrl || alt {
            Some(EditCommand::WordRight)
        } else if plain {
            Some(EditCommand::Right)
        } else {
            None
        },
        KeyCode::Home => if plain_or(m, CONTROL) {
            Some(EditCommand::Home)
        } else {
            None
        },
        KeyCode::End => if plain_or(m, CONTROL) {
            Some(EditCommand::End)
        } else {
            None
        },
        KeyCode::Backspace => if plain_or(m, SHIFT) {
            Some(EditCommand::Backspace { word: false })
        } else if alt {
            Some(EditCommand::Backspace { word: true })
        } else {
            None
        },
        KeyCode::Delete => if plain_or(m, SHIFT) {
            Some(EditCommand::Delete)
        } else if alt {
            Some(EditCommand::Kill { backwards: false, line: false })
        } else {
            None
        },
        KeyCode::Enter => if shift {
            Some(EditCommand::Newline)
        } else {
            None
        },
        KeyCode::Char(c) => if alt && c == 'b' {
            Some(EditCommand::WordLeft)
        } else if alt && c == 'f' {
            Some(EditCommand::WordRight)
        } else if ctrl && c == 'b' {
            Some(EditCommand::Left)
        } else if ctrl && c == 'f' {
            Some(EditCommand::Right)
        } else if ctrl && c == 'a' {
            Some(EditCommand::Home)
        } else if ctrl && c == 'e' {
            Some(EditCommand::End)
        } else if ctrl && c == 'd' {
            Some(EditCommand::Delete)
        } else if ctrl && c == 'w' {
            Some(EditCommand::Backspace { word: true })
        } else if alt && c == 'd' {
            Some(EditCommand::Kill { backwards: false, line: false })
        } else if ctrl && c == 'u' {
            Some(EditCommand::Kill { backwards: true, line: true })
        } else if ctrl && c == 'k' {
            Some(EditCommand::Kill { backwards: false, line: true })
        } else if ctrl && c == 'y' {
            Some(EditCommand::Yank { pop: false })
        } else if alt && c == 'y' {
            Some(EditCommand::Yank { pop: true })
        } else if ctrl && c == '-' {
            Some(EditCommand::Undo)
        } else if ctrl && c == 'j' {
            Some(EditCommand::Newline)
        } else {
            None
        },
        KeyCode::Esc | KeyCode::Tab | KeyCode::BackTab | KeyCode::Other => None,
    }
}

/// Runs one command on the editor and draft.
pub fn apply_command(editor: &mut Editor, text: &mut String, command: EditCommand, width: usize)
    requires
        old(editor)@.wf(old(text)@),
    ensures
        (final(editor)@, final(text)@) == applied(old(editor)@, old(text)@, command, width),
        final(editor)@.wf(final(text)@),
{
    match command {
        EditCommand::Vertical { delta, history } => {
            editor.vertical(text, width, delta, history);
            assert((editor@, text@) == applied(old(editor)@, old(text)@, command, width));
        },
        EditCommand::WordLeft => editor.word_left(text.as_str()),
        EditCommand::WordRight => editor.word_right(text.as_str()),
        EditCommand::Left => editor.left(text.as_str()),
        EditCommand::Right => editor.right(text.as_str()),
        EditCommand::Home => editor.home(text.as_str()),
        EditCommand::End => editor.end(text.as_str()),
        EditCommand::Backspace { word } => editor.backspace(text, word),
        EditCommand::Delete => editor.delete(text),
        EditCommand::Kill { backwards, line } => editor.kill(text, backwards, line),
        EditCommand::Yank { pop } => editor.yank(text, pop),
        EditCommand::Undo => editor.undo(text),
        EditCommand::Newline => {
            let nl = "\n";
            proof {
                reveal_strlit("\n");
                assert(nl@ =~= seq!['\n']);
            }
            editor.type_text(text, nl);
            assert((editor@, text@) == applied(old(editor)@, old(text)@, command, width));
        },
    }
}

/// Handles a key the editor has a binding for; returns whether it had one.
/// An unbound key leaves the editor and draft as they were.
pub fn handle_key(
    editor: &mut Editor,
    text: &mut String,
    key: &EditorKey,
    width: usize,
    page_rows: usize,
) -> (r: bool)
    requires
        old(editor)@.wf(old(text)@),
        page_step(page_rows) != isize::MIN,
    ensures
        r == bound_command(*key, page_rows).is_some(),
        (final(editor)@, final(text)@) == match bound_command(*key, page_rows) {
            Some(c) => applied(old(editor)@, old(text)@, c, width),
            None => (old(editor)@, old(text)@),
        },
        final(editor)@.wf(final(text)@),
{
    match command_for(key, page_rows) {
        Some(c) => {
            apply_command(editor, text, c, width);
            true
        },
        None => false,
    }
}

// ---------------------------------------------------------------------------
// Character jump
// ---------------------------------------------------------------------------

/// `Ctrl+]` (forward) or `Ctrl+Alt+]` (backward) arms a character jump.
pub open spec fn jump_start(k: EditorKey) -> bool {
    k.code == KeyCode::Char(']') && (k.modifiers == CONTROL || k.modifiers == CONTROL + ALT)
}

/// Byte offset of the `j`-th character of `t`.
pub open spec fn char_offset(t: Seq<char>, j: int) -> nat {
    blen(t.take(j))
}

/// Offset of the last `ch` among the first `j` characters that starts before
/// byte `cursor`.
pub open spec fn last_before(t: Seq<char>, ch: char, cursor: nat, j: int) -> Option<nat>
    decreases j,
{
    if j <= 0 {
        None
    } else if t[j - 1] == ch && char_offset(t, j - 1) < cursor {
        Some(char_offset(t, j - 1))
    } else {
        last_before(t, ch, cursor, j - 1)
    }
}

/// Offset of the first `ch` from character `j` on that starts after byte
/// `cursor`.
pub open spec fn first_after(t: Seq<char>, ch: char, cursor: nat, j: int) -> Option<nat>
    decreases t.len() - j,
{
    if j >= t.len() || j < 0 {
        None
    } else if t[j] == ch && char_offset(t, j) > cursor {
        Some(char_offset(t, j))
    } else {
        first_after(t, ch, cursor, j + 1)
    }
}

/// The editor after a key while a jump may be armed, and whether the key was
/// taken. An armed jump is disarmed by any key; a plain character (no
/// control, alt or super) then moves the cursor to its next occurrence after
/// the cursor, or its last before it, when there is one.
pub open spec fn jump_result(e: EditorView, t: Seq<char>, k: EditorKey) -> (EditorView, bool) {
    match e.jump {
        Some(backwards) => {
            let e1 = EditorView { jump: None, ..e };
            if jump_start(k) {
                (e1, true)
            } else {
                match k.code {
                    KeyCode::Char(ch) => if k.modifiers & 14u8 == 0u8 {
                        let e2 = e1.normalized(t).moved_spec();
                        let found = if backwards {
                            last_before(t, ch, e2.cursor as nat, t.len() as int)
                        } else {
                            first_after(t, ch, e2.cursor as nat, 0)
                        };
                        match found {
                            Some(i) => (
                                EditorView { cursor: snap_spec(t, e2.pastes, i) as usize, ..e2 },
                                true,
                            ),
                            None => (e2, true),
                        }
                    } else {
                        (e1, false)
                    },
                    _ => (e1, false),
                }
            }
        },
        None => if jump_start(k) {
            (EditorView { jump: Some(k.modifiers & ALT != 0u8), ..e }, true)
        } else {
            (e, false)
        },
    }
}

/// Bytes `c` takes in UTF-8.
fn utf8_width(c: char) -> (r: usize)
    ensures
        r == blen(seq![c]),
{
    proof {
        assert(seq![c].drop_first() =~= Seq::<char>::empty());
        assert(encode_utf8(Seq::<char>::empty()) == Seq::<u8>::empty());
        assert(encode_utf8(seq![c]) == encode_scalar(c as u32) + encode_utf8(seq![c].drop_first()));
        assert(encode_utf8(seq![c]) =~= encode_scalar(c as u32));
    }
    let u = c as u32;
    if u <= 0x7F {
        1
    } else if u <= 0x7FF {
        2
    } else if u <= 0xFFFF {
        3
    } else {
        4
    }
}

/// Byte offset of each character of `text`, and of its end.
fn char_offsets(text: &str) -> (r: Vec<usize>)
    ensures
        r.len() == text@.len() + 1,
        forall|j: int| 0 <= j <= text@.len() ==> r@[j] == char_offset(text@, j),
{
    let cs = chars_of(text);
    let total = byte_len(text);
    let mut offs: Vec<usize> = Vec::new();
    offs.push(0);
    let mut off: usize = 0;
    let mut j: usize = 0;
    proof {
        assert(text@.take(0) =~= Seq::<char>::empty());
    }
    while j < cs.len()
        invariant
            cs@ == text@,
            total == blen(text@),
            j <= cs.len(),
            offs.len() == j + 1,
            off == char_offset(text@, j as int),
            forall|i: int| 0 <= i <= j ==> offs@[i] == char_offset(text@, i),
        decreases cs.len() - j,
    {
        let w = utf8_width(cs[j]);
        proof {
            let t = text@;
            assert(t.take(j + 1) =~= t.take(j as int) + seq![t[j as int]]);
            crate::bytes::lemma_encode_concat(t.take(j as int), seq![t[j as int]]);
            assert(t =~= t.take(j + 1) + t.skip(j + 1));
            crate::bytes::lemma_encode_concat(t.take(j + 1), t.skip(j + 1));
        }
        off = off + w;
        offs.push(off);
        j += 1;
    }
    offs
}

/// Where a jump to `ch` lands, before snapping to a cluster: the last `ch`
/// starting before `cursor`, or the first starting after it.
fn find_char(text: &str, ch: char, cursor: usize, backwards: bool) -> (r: Option<usize>)
    ensures
        ({
            let expected = if backwards {
                last_before(text@, ch, cursor as nat, text@.len() as int)
            } else {
                first_after(text@, ch, cursor as nat, 0)
            };
            match r {
                Some(i) => expected == Some(i as nat),
                None => expected is None,
            }
        }),
{
    let cs = chars_of(text);
    let offs = char_offsets(text);
    let n = cs.len();
    if backwards {
        let mut j = n;
        while j > 0
            invariant
                backwards,
                cs@ == text@,
                n == cs.len(),
                offs.len() == n + 1,
                forall|i: int| 0 <= i <= n ==> offs@[i] == char_offset(text@, i),
                j <= n,
                last_before(text@, ch, cursor as nat, n as int) == last_before(
                    text@,
                    ch,
                    cursor as nat,
                    j as int,
                ),
            decreases j,
        {
            let o = offs[j - 1];
            proof {
                assert(o == char_offset(text@, j - 1));
                assert(cs@[j - 1] == text@[j - 1]);
            }
            if cs[j - 1] == ch && o < cursor {
                return Some(o);
            }
            j -= 1;
        }
        None
    } else {
        let mut j: usize = 0;
        while j < n
            invariant
                !backwards,
                cs@ == text@,
                n == cs.len(),
                offs.len() == n + 1,
                forall|i: int| 0 <= i <= n ==> offs@[i] == char_offset(text@, i),
                j <= n,
                first_after(text@, ch, cursor as nat, 0) == first_after(
                    text@,
                    ch,
                    cursor as nat,
                    j as int,
                ),
            decreases n - j,
        {
            let o = offs[j];
            proof {
                assert(o == char_offset(text@, j as int));
                assert(cs@[j as int] == text@[j as int]);
            }
            if cs[j] == ch && o > cursor {
                return Some(o);
            }
            j += 1;
        }
        None
    }
}

fn jump_starts(key: &EditorKey) -> (r: bool)
    ensures
        r == jump_start(*key),
{
    key.code == KeyCode::Char(']') && (key.modifiers == CONTROL || key.modifiers == CONTROL + ALT)
}

impl Editor {
    /// Handles a key as part of a character jump; returns whether the key
    /// was taken.
    pub fn jump_key(&mut self, text: &str, key: &EditorKey) -> (r: bool)
        requires
            old(self)@.wf(text@),
        ensures
            (final(self)@, r) == jump_result(old(self)@, text@, *key),
            final(self)@.wf(text@),
    {
        let start = jump_starts(key);
        match self.jump {
            Some(backwards) => {
                self.jump = None;
                if start {
                    return true;
                }
                match key.code {
                    KeyCode::Char(ch) => {
                        if key.modifiers & 14u8 == 0u8 {
                            self.normalize(text);
                            self.moved();
                            let found = find_char(text, ch, self.cursor, backwards);
                            match found {
                                Some(i) => {
                                    self.cursor = snap(&self.pastes, text, i);
                                },
                                None => {},
                            }
                            return true;
                        }
                    },
                    _ => {},
                }
                false
            },
            None => {
                if start {
                    self.jump = Some(key.modifiers & ALT != 0u8);
                    return true;
                }
                false
            },
        }
    }
}

// ---------------------------------------------------------------------------
// Clicks in the composer
// ---------------------------------------------------------------------------

/// Where a click at `p` in the composer `area` puts the cursor: on the
/// cluster under the click in the visual row it hits (rows are wrapped one
/// column short of the area, counted from the editor's top row), or at the
/// end of the draft below the last row.
pub open spec fn click_cursor(e: EditorView, t: Seq<char>, area: Rect, p: Position) -> nat {
    let rows = wrap_spec(t, sat_sub(area.width as nat, 1) as usize, e.pastes);
    let r = e.top + sat_sub(p.y as nat, area.y as nat);
    if r < rows.len() {
        let line = bslice(t, rows[r].0 as int, rows[r].1 as int);
        rows[r].0 + column_scan(line, grapheme_starts(line), sat_sub(p.x as nat, area.x as nat), 0, 0)
    } else {
        blen(t)
    }
}

impl Editor {
    /// A click in the composer: the cursor moves under the click, history
    /// browsing ends and the cursor settles on a cluster.
    pub fn click(&mut self, text: &str, area: Rect, position: Position)
        requires
            old(self)@.wf(text@),
            old(self)@.top + sat_sub(position.y as nat, area.y as nat) <= usize::MAX,
        ensures
            final(self)@ == (EditorView {
                cursor: click_cursor(old(self)@, text@, area, position) as usize,
                ..old(self)@
            }).exit_history_spec().moved_spec().normalized(text@),
            final(self)@.wf(text@),
    {
        let width: usize = if area.width > 0 {
            (area.width - 1) as usize
        } else {
            0
        };
        let rows = self.rows(text, width);
        let dy: usize = if position.y > area.y {
            (position.y - area.y) as usize
        } else {
            0
        };
        let row = self.top + dy;
        let ghost rv = rows_view(rows@);
        if row < rows.len() {
            let start = rows[row].start;
            let end = rows[row].end;
            proof {
                assert(rv[row as int] == (start as nat, end as nat));
                assert(crate::editor::range_wf(text@, start as int, end as int));
            }
            let line = slice(text, start, end);
            let dx: usize = if position.x > area.x {
                (position.x - area.x) as usize
            } else {
                0
            };
            let col = byte_at_column(line, dx);
            self.cursor = start + col;
        } else {
            self.cursor = byte_len(text);
        }
        self.clicked(text);
    }
}

// ---------------------------------------------------------------------------
// Enter in the composer
// ---------------------------------------------------------------------------

/// The editor and draft after a plain Enter, and whether the draft is to be
/// sent: a backslash just before the cursor turns into a line break instead.
pub open spec fn entered(e: EditorView, t: Seq<char>) -> (EditorView, Seq<char>, bool) {
    let e1 = e.normalized(t);
    let c = e1.cursor as int;
    if c > 0 && encode_utf8(t)[c - 1] == 0x5Cu8 {
        let (e2, t2) = e1.backspace_spec(t, false);
        let (e3, t3) = e2.type_text_spec(t2, seq!['\n']);
        (e3, t3, false)
    } else {
        (e1, t, true)
    }
}

impl Editor {
    /// A plain Enter: continues the draft on a new line after a trailing
    /// backslash, else asks for the draft to be sent (returns `true`).
    pub fn enter(&mut self, text: &mut String) -> (send: bool)
        requires
            old(self)@.wf(old(text)@),
        ensures
            (final(self)@, final(text)@, send) == entered(old(self)@, old(text)@),
            final(self)@.wf(final(text)@),
    {
        self.normalize(text.as_str());
        let c = self.cursor;
        if c > 0 && byte_at(text.as_str(), c - 1) == 0x5Cu8 {
            self.backspace(text, false);
            let nl = "\n";
            proof {
                reveal_strlit("\n");
                assert(nl@ =~= seq!['\n']);
            }
            self.type_text(text, nl);
            false
        } else {
            true
        }
    }
}

} // verus!
