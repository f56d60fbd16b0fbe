use herdr::editor::{Editor, Position, Rect};
use herdr::editor_input::{EditorKey, KeyCode as K, ALT, CONTROL, SHIFT};
use herdr::panel_focus::Mode;
use herdr::presentation::TranscriptRole;
use herdr::room_input::{
    composer_wrap_width, route_room_key, ComposerEffect, KeyKind, MouseButton, MouseKind,
    PointerEffect, RoomKeyRoute, RoomPointer, RoomSurface,
};
use herdr::selection::Point;

fn surface(text: &str) -> RoomSurface {
    let mut editor = Editor::default();
    let mut composer = String::new();
    for ch in text.chars() {
        editor.type_text(&mut composer, &ch.to_string());
    }
    RoomSurface {
        visible: true,
        scroll: 0,
        selection: None,
        composer,
        editor,
    }
}

fn key(code: K, modifiers: u8) -> EditorKey {
    EditorKey::new(code, modifiers)
}

#[test]
fn room_keys_route_by_kind_mode_and_room_state() {
    let toggle = key(K::Char('r'), CONTROL | ALT);
    let plain = key(K::Char('x'), 0);
    assert_eq!(
        route_room_key(&toggle, KeyKind::Press, Mode::Navigate, false, false),
        RoomKeyRoute::ToggleRoom
    );
    assert_eq!(
        route_room_key(&toggle, KeyKind::Repeat, Mode::Terminal, false, true),
        RoomKeyRoute::Swallow
    );
    assert_eq!(
        route_room_key(&toggle, KeyKind::Release, Mode::Terminal, false, true),
        RoomKeyRoute::Pass
    );
    assert_eq!(
        route_room_key(&toggle, KeyKind::Press, Mode::Modal, false, true),
        RoomKeyRoute::Pass
    );
    assert_eq!(
        route_room_key(&plain, KeyKind::Press, Mode::Terminal, true, true),
        RoomKeyRoute::Pass
    );
    assert_eq!(
        route_room_key(&plain, KeyKind::Press, Mode::Navigate, false, true),
        RoomKeyRoute::Pass
    );
    assert_eq!(
        route_room_key(&plain, KeyKind::Press, Mode::Terminal, false, false),
        RoomKeyRoute::Pass
    );
    assert_eq!(
        route_room_key(&plain, KeyKind::Press, Mode::Terminal, false, true),
        RoomKeyRoute::Composer
    );
}

#[test]
fn composer_wraps_one_column_short() {
    assert_eq!(composer_wrap_width(0, 80), 79);
    assert_eq!(composer_wrap_width(30, 80), 29);
    assert_eq!(composer_wrap_width(1, 80), 1);
    assert_eq!(composer_wrap_width(0, 0), 1);
}

#[test]
fn composer_keys_type_copy_paste_scroll_hide_and_send() {
    let mut s = surface("");
    assert_eq!(s.composer_key(&key(K::Char('h'), 0), 20, 5), ComposerEffect::Done);
    assert_eq!(s.composer_key(&key(K::Char('I'), SHIFT), 20, 5), ComposerEffect::Done);
    assert_eq!(s.composer, "hI");
    assert_eq!(s.composer_key(&key(K::Char('x'), ALT), 20, 5), ComposerEffect::Done);
    assert_eq!(s.composer, "hI");
    assert_eq!(s.composer_key(&key(K::Char('c'), CONTROL), 20, 5), ComposerEffect::Copy);
    assert_eq!(
        s.composer_key(&key(K::Char('V'), CONTROL | SHIFT), 20, 5),
        ComposerEffect::Paste
    );
    assert_eq!(s.composer_key(&key(K::PageUp, 0), 20, 5), ComposerEffect::Done);
    assert_eq!(s.scroll, 5);
    s.scroll = 3;
    s.composer_key(&key(K::PageDown, 0), 20, 5);
    assert_eq!(s.scroll, 0);
    assert_eq!(s.composer_key(&key(K::Tab, 0), 20, 5), ComposerEffect::Done);
    assert_eq!(s.composer, "hI");
    assert_eq!(s.composer_key(&key(K::Enter, 0), 20, 5), ComposerEffect::Send);
    assert_eq!(s.composer_key(&key(K::Esc, 0), 20, 5), ComposerEffect::Done);
    assert!(!s.visible);
}

#[test]
fn composer_enter_after_backslash_adds_a_line_instead_of_sending() {
    let mut s = surface("first\\");
    assert_eq!(s.composer_key(&key(K::Enter, 0), 20, 5), ComposerEffect::Done);
    assert_eq!(s.composer, "first\n");
    assert_eq!(s.composer_key(&key(K::Enter, SHIFT), 20, 5), ComposerEffect::Done);
    assert_eq!(s.composer, "first\n\n");
}

fn pointer() -> RoomPointer {
    RoomPointer {
        mode: Mode::Terminal,
        popup_open: false,
        room_active: true,
        copy_on_select: true,
        room_entry: Rect::new(0, 0, 10, 1),
        terminal_area: Rect::new(20, 0, 40, 20),
        transcript_area: Rect::new(20, 5, 40, 10),
        composer_area: Rect::new(20, 16, 40, 3),
        transcript_begin: 0,
    }
}

#[test]
fn pointer_drags_a_selection_and_copies_on_release() {
    let lines: Vec<String> = vec!["hello".into(), "world".into()];
    let roles = [TranscriptRole::Agent, TranscriptRole::Agent];
    let p = pointer();
    let mut s = surface("");
    let down = MouseKind::Down(MouseButton::Left);
    assert_eq!(
        s.pointer(&p, down, Position::new(21, 5), &lines, &roles),
        PointerEffect::FocusTerminal
    );
    let sel = s.selection.unwrap();
    assert_eq!(sel.anchor, Point { row: 0, byte: 1 });
    assert!(sel.dragging);
    let drag = MouseKind::Drag(MouseButton::Left);
    assert_eq!(
        s.pointer(&p, drag, Position::new(23, 6), &lines, &roles),
        PointerEffect::Done
    );
    assert_eq!(s.selection.unwrap().end, Point { row: 1, byte: 3 });
    let up = MouseKind::Up(MouseButton::Left);
    assert_eq!(
        s.pointer(&p, up, Position::new(70, 30), &lines, &roles),
        PointerEffect::Copy
    );
    let sel = s.selection.unwrap();
    assert!(!sel.dragging);
    assert_eq!(sel.end, Point { row: 1, byte: 5 });
}

#[test]
fn pointer_wheel_entry_composer_and_outside() {
    let lines: Vec<String> = vec!["x".into()];
    let roles = [TranscriptRole::Agent];
    let p = pointer();
    let mut s = surface("abc\ndef");
    assert_eq!(
        s.pointer(&p, MouseKind::ScrollUp, Position::new(30, 2), &lines, &roles),
        PointerEffect::Done
    );
    assert_eq!(s.scroll, 3);
    s.pointer(&p, MouseKind::ScrollDown, Position::new(30, 2), &lines, &roles);
    s.pointer(&p, MouseKind::ScrollDown, Position::new(30, 2), &lines, &roles);
    assert_eq!(s.scroll, 0);
    let down = MouseKind::Down(MouseButton::Left);
    assert_eq!(
        s.pointer(&p, down, Position::new(3, 0), &lines, &roles),
        PointerEffect::SelectRoom
    );
    assert_eq!(
        s.pointer(&p, MouseKind::Moved, Position::new(3, 0), &lines, &roles),
        PointerEffect::Done
    );
    assert_eq!(
        s.pointer(&p, down, Position::new(22, 17), &lines, &roles),
        PointerEffect::FocusTerminal
    );
    assert_eq!(s.editor.cursor, 6);
    assert_eq!(
        s.pointer(&p, down, Position::new(70, 2), &lines, &roles),
        PointerEffect::Pass
    );
    let mut modal = pointer();
    modal.mode = Mode::Modal;
    assert_eq!(
        s.pointer(&modal, down, Position::new(30, 2), &lines, &roles),
        PointerEffect::Pass
    );
}
