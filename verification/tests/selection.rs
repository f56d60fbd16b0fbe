use herdr::editor::{Position, Rect};
use herdr::presentation::TranscriptRole::{Agent, AgentHeader, Human, Spacer};
use herdr::selection::{hit, Point, Selection};

fn sel(anchor: (usize, usize), end: (usize, usize)) -> Selection {
    Selection {
        anchor: Point { row: anchor.0, byte: anchor.1 },
        end: Point { row: end.0, byte: end.1 },
        dragging: false,
    }
}

#[test]
fn bounds_order_the_endpoints() {
    let s = sel((3, 1), (1, 5));
    assert_eq!(s.bounds(), (Point { row: 1, byte: 5 }, Point { row: 3, byte: 1 }));
    let t = sel((2, 4), (2, 1));
    assert_eq!(t.bounds(), (Point { row: 2, byte: 1 }, Point { row: 2, byte: 4 }));
}

#[test]
fn range_clamps_to_the_row() {
    let s = sel((1, 2), (3, 9));
    assert_eq!(s.range(0, 10), 0..0);
    assert_eq!(s.range(1, 10), 2..10);
    assert_eq!(s.range(2, 10), 0..10);
    assert_eq!(s.range(3, 5), 0..5);
    assert_eq!(s.range(4, 10), 0..0);
}

#[test]
fn text_keeps_wrap_newlines_in_either_direction() {
    let lines: Vec<String> = ["", "界hi", "", "", "Aporia", "agent"]
        .map(String::from)
        .into();
    let start = Point { row: 1, byte: 0 };
    let end = Point { row: 5, byte: 3 };
    for (anchor, end) in [(start, end), (end, start)] {
        let selection = Selection { anchor, end, dragging: false };
        assert_eq!(selection.text(&lines).unwrap(), "界hi\n\n\nAporia\nage");
    }
    assert_eq!(sel((1, 0), (1, 0)).text(&lines), None);
    assert_eq!(sel((1, 0), (6, 0)).text(&lines), None);
}

#[test]
fn room_padding_selection_maps_each_role_without_copying_insets() {
    let lines: Vec<String> = ["", "界hi", "", "", "Aporia", "agent"]
        .map(String::from)
        .into();
    let roles = [Human, Human, Human, Spacer, AgentHeader, Agent];
    let area = Rect::new(10, 10, 20, 6);
    let start = hit(&lines, &roles, 0, area, Position::new(11, 11)).unwrap();
    assert_eq!(start, Point { row: 1, byte: 0 });
    assert_eq!(
        hit(&lines, &roles, 0, area, Position::new(12, 11)).unwrap(),
        start
    );
    let end = hit(&lines, &roles, 0, area, Position::new(13, 15)).unwrap();
    for (anchor, end) in [(start, end), (end, start)] {
        let selection = Selection {
            anchor,
            end,
            dragging: false,
        };
        assert_eq!(selection.text(&lines).unwrap(), "界hi\n\n\nAporia\nage");
    }
    assert_eq!(
        hit(&lines, &roles, 4, area, Position::new(10, 10)).unwrap(),
        Point { row: 4, byte: 0 }
    );
    assert_eq!(
        hit(&lines, &roles, 4, area, Position::new(13, 11)).unwrap(),
        Point { row: 5, byte: 3 }
    );
}

#[test]
fn hit_needs_lines_and_an_area_and_clamps_below() {
    let lines: Vec<String> = vec!["ab".into(), "cd".into()];
    let roles = [Spacer, Spacer];
    assert_eq!(hit(&[], &roles, 0, Rect::new(0, 0, 5, 5), Position::new(1, 1)), None);
    assert_eq!(hit(&lines, &roles, 0, Rect::new(0, 0, 0, 5), Position::new(1, 1)), None);
    assert_eq!(
        hit(&lines, &roles, 0, Rect::new(0, 0, 5, 5), Position::new(9, 9)),
        Some(Point { row: 1, byte: 2 })
    );
}
