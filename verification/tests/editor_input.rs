use herdr::editor::{Editor, Position, Rect};
use herdr::editor_input::{
    command_for, handle_key, EditCommand, EditorKey, KeyCode as K, ALT, CONTROL, SHIFT, SUPER,
};

const NONE: u8 = 0;

fn typed(s: &str) -> (Editor, String) {
    let mut e = Editor::default();
    let mut text = String::new();
    for ch in s.chars() {
        e.type_text(&mut text, &ch.to_string());
    }
    (e, text)
}

fn press(e: &mut Editor, text: &mut String, code: K, modifiers: u8) -> bool {
    let key = EditorKey::new(code, modifiers);
    e.jump_key(text, &key) || handle_key(e, text, &key, 79, 7)
}

#[test]
fn room_editor_pi_aliases_and_unbound_modified_enter() {
    let aliases = [
        (K::Left, NONE, K::Char('b'), CONTROL),
        (K::Right, NONE, K::Char('f'), CONTROL),
        (K::Home, CONTROL, K::Char('a'), CONTROL),
        (K::End, CONTROL, K::Char('e'), CONTROL),
        (K::Left, ALT, K::Char('b'), ALT),
        (K::Right, CONTROL, K::Char('f'), ALT),
        (K::Backspace, NONE, K::Backspace, SHIFT),
        (K::Delete, SHIFT, K::Char('d'), CONTROL),
        (K::Char('w'), CONTROL, K::Backspace, ALT),
        (K::Delete, ALT, K::Char('d'), ALT),
        (K::Enter, SHIFT, K::Char('j'), CONTROL),
    ];
    for (a, am, b, bm) in aliases {
        let (mut e, mut t) = typed("first\na界e\u{301} two words\nlast");
        let (mut f, mut u) = typed(&t);
        e.cursor = "first\na界e\u{301} two".len();
        f.cursor = e.cursor;
        assert!(press(&mut e, &mut t, a, am));
        assert!(press(&mut f, &mut u, b, bm));
        assert_eq!((t, e.cursor), (u, f.cursor));
    }
    let (mut e, mut t) = typed("first\nsecond");
    press(&mut e, &mut t, K::Home, CONTROL);
    assert_eq!(e.cursor, 6);
    press(&mut e, &mut t, K::End, CONTROL);
    assert_eq!(e.cursor, t.len());
    for (k, m) in [
        (K::Enter, CONTROL),
        (K::Enter, ALT),
        (K::Char('z'), CONTROL),
        (K::Backspace, CONTROL),
    ] {
        assert!(!press(&mut e, &mut t, k, m));
    }
    press(&mut e, &mut t, K::Char(']'), CONTROL | ALT);
    press(&mut e, &mut t, K::Char('s'), NONE);
    assert_eq!(e.cursor, 6);
    press(&mut e, &mut t, K::Char(']'), CONTROL);
    press(&mut e, &mut t, K::Char('d'), NONE);
    assert_eq!(e.cursor, 11);
}

#[test]
fn page_keys_move_at_least_five_rows() {
    let key = EditorKey::new(K::PageUp, CONTROL);
    assert_eq!(
        command_for(&key, 2),
        Some(EditCommand::Vertical { delta: -5, history: false })
    );
    let key = EditorKey::new(K::PageDown, CONTROL);
    assert_eq!(
        command_for(&key, 9),
        Some(EditCommand::Vertical { delta: 9, history: false })
    );
    assert_eq!(command_for(&EditorKey::new(K::PageDown, NONE), 9), None);
    assert_eq!(
        command_for(&EditorKey::new(K::Up, NONE), 9),
        Some(EditCommand::Vertical { delta: -1, history: true })
    );
    assert_eq!(command_for(&EditorKey::new(K::Other, NONE), 9), None);
}

#[test]
fn unbound_key_leaves_draft_and_cursor() {
    let (mut e, mut t) = typed("abc");
    let before = e.cursor;
    assert!(!handle_key(&mut e, &mut t, &EditorKey::new(K::Char('q'), SUPER), 10, 5));
    assert_eq!((t.as_str(), e.cursor), ("abc", before));
}

#[test]
fn jump_is_disarmed_by_a_modified_key_and_misses_keep_the_cursor() {
    let (mut e, mut t) = typed("one two");
    e.cursor = 0;
    assert!(press(&mut e, &mut t, K::Char(']'), CONTROL));
    assert_eq!(e.jump, Some(false));
    assert!(!e.jump_key(&t, &EditorKey::new(K::Char('t'), CONTROL)));
    assert_eq!(e.jump, None);
    assert_eq!(e.cursor, 0);
    assert!(press(&mut e, &mut t, K::Char(']'), CONTROL));
    assert!(press(&mut e, &mut t, K::Char('z'), NONE));
    assert_eq!(e.cursor, 0);
    assert!(press(&mut e, &mut t, K::Char(']'), CONTROL));
    assert!(press(&mut e, &mut t, K::Char('o'), NONE));
    assert_eq!(e.cursor, 6);
    assert!(press(&mut e, &mut t, K::Char(']'), CONTROL | ALT));
    assert_eq!(e.jump, Some(true));
    assert!(press(&mut e, &mut t, K::Char(']'), CONTROL));
    assert_eq!(e.jump, None);
}

#[test]
fn click_puts_the_cursor_under_the_pointer_or_at_the_end() {
    let (mut e, t) = typed("abc\ndef");
    let area = Rect::new(2, 1, 10, 3);
    e.top = 0;
    e.click(&t, area, Position::new(4, 2));
    assert_eq!(e.cursor, 6);
    e.click(&t, area, Position::new(2, 3));
    assert_eq!(e.cursor, t.len());
    e.click(&t, area, Position::new(0, 0));
    assert_eq!(e.cursor, 0);
    e.top = 1;
    e.click(&t, area, Position::new(3, 1));
    assert_eq!(e.cursor, 5);
}

#[test]
fn click_lands_on_the_start_of_a_wide_cluster() {
    let (mut e, t) = typed("a界b");
    e.click(&t, Rect::new(0, 0, 10, 2), Position::new(2, 0));
    assert_eq!(e.cursor, 1);
    e.click(&t, Rect::new(0, 0, 10, 2), Position::new(3, 0));
    assert_eq!(e.cursor, 4);
}

#[test]
fn enter_after_a_backslash_continues_the_line() {
    let (mut e, mut t) = typed("ab\\");
    assert!(!e.enter(&mut t));
    assert_eq!(t, "ab\n");
    assert_eq!(e.cursor, 3);
    let (mut e, mut t) = typed("ab\\c");
    e.cursor = 3;
    assert!(!e.enter(&mut t));
    assert_eq!(t, "ab\nc");
    let (mut e, mut t) = typed("ab");
    assert!(e.enter(&mut t));
    assert_eq!(t, "ab");
    let (mut e, mut t) = typed("\\ab");
    assert!(e.enter(&mut t));
    assert_eq!(t, "\\ab");
}
