use linebuffer::cursor::Cursor;
use linebuffer::selection::Selection;

#[test]
fn cursor_equality_ignores_sticky_column() {
    let a = Cursor::new(1, 2, 3);
    let b = Cursor::new(1, 2, 9);
    assert_eq!(a, b);
    let c = Cursor::new(1, 3, 3);
    assert_ne!(a, c);
    let d = Cursor::new(2, 2, 3);
    assert_ne!(a, d);
}

#[test]
fn cursor_default_is_origin() {
    let c = Cursor::default();
    assert_eq!(c.row, 0);
    assert_eq!(c.column, 0);
    assert_eq!(c.sticky_column, 0);
}

#[test]
fn selection_normalized_swaps_reversed_carets() {
    let s = Selection::new(Cursor::new(2, 1, 0), Cursor::new(0, 3, 0));
    let n = s.normalized();
    assert_eq!(n.start.row, 0);
    assert_eq!(n.start.column, 3);
    assert_eq!(n.end.row, 2);
    assert_eq!(n.end.column, 1);
}

#[test]
fn selection_normalized_swaps_within_a_row() {
    let s = Selection::new(Cursor::new(1, 5, 0), Cursor::new(1, 2, 0));
    let n = s.normalized();
    assert_eq!(n.start.column, 2);
    assert_eq!(n.end.column, 5);
}

#[test]
fn selection_normalized_keeps_an_ordered_pair() {
    let s = Selection::new(Cursor::new(0, 1, 0), Cursor::new(2, 0, 0));
    let n = s.normalized();
    assert_eq!(n.start.row, 0);
    assert_eq!(n.start.column, 1);
    assert_eq!(n.end.row, 2);
    assert_eq!(n.end.column, 0);
}

#[test]
fn selection_emptiness_ignores_sticky_column() {
    let s = Selection::new(Cursor::new(1, 2, 7), Cursor::new(1, 2, 0));
    assert!(s.is_empty());
    let t = Selection::new(Cursor::new(1, 2, 0), Cursor::new(1, 3, 0));
    assert!(!t.is_empty());
}

#[test]
fn selection_default_is_collapsed_at_origin() {
    let s = Selection::default();
    assert!(s.is_empty());
    assert_eq!(s.start.row, 0);
    assert_eq!(s.end.column, 0);
}
