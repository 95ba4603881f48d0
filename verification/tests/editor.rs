use playrite::editor::Editor;
use playrite::keys::{KeyCode, KeyEvent};

fn press(code: KeyCode) -> KeyEvent {
    KeyEvent::plain(code)
}

#[test]
fn grapheme_editing_and_paste() {
    let mut e = Editor::new("café 👩‍🚀".into());
    e.key(press(KeyCode::Backspace), 20, true);
    assert_eq!(e.text, "café ");
    e.insert("e\u{301}");
    e.key(press(KeyCode::Backspace), 20, true);
    assert_eq!(e.text, "café ");
    e.insert("hello\r\nworld\x1b");
    assert_eq!(e.text, "café hello\nworld");
}

#[test]
fn wrapping_tracks_wide_characters_and_cursor() {
    let e = Editor::new("ab界c".into());
    let w = e.wrapped(4);
    assert_eq!(w.lines, ["ab界", "c"]);
    assert_eq!((w.row, w.col), (1, 1));
    let mut e = Editor::new("abcdef".into());
    e.key(press(KeyCode::Up), 4, true);
    assert_eq!(e.cursor, 2);
}

#[test]
fn new_editor_puts_the_cursor_at_the_end_in_bytes() {
    let e = Editor::new("café".into());
    assert_eq!(e.cursor, 5);
    assert_eq!(e.scroll, 0);
    let d = Editor::default();
    assert_eq!((d.text.as_str(), d.cursor), ("", 0));
}

#[test]
fn sanitising_turns_tabs_and_carriage_returns_into_text() {
    let mut e = Editor::new(String::new());
    e.insert("a\tb\rc\u{7}d\r\n");
    assert_eq!(e.text, "a    b\ncd\n");
    assert_eq!(e.cursor, e.text.len());
}

#[test]
fn combining_marks_join_the_cluster_before_the_cursor() {
    let mut e = Editor::new("e".into());
    e.key(press(KeyCode::Left), 20, true);
    assert_eq!(e.cursor, 0);
    e.insert("x");
    assert_eq!(e.text, "xe");
    assert_eq!(e.cursor, 1);
    e.key(press(KeyCode::End), 20, true);
    e.insert("\u{301}");
    assert_eq!(e.text, "xe\u{301}");
    assert_eq!(e.cursor, 4);
    e.key(press(KeyCode::Left), 20, true);
    assert_eq!(e.cursor, 1);
    e.key(press(KeyCode::Delete), 20, true);
    assert_eq!(e.text, "x");
    assert_eq!(e.cursor, 1);
}

#[test]
fn home_end_and_line_feeds() {
    let mut e = Editor::new("one\ntwo\nthree".into());
    e.key(press(KeyCode::Home), 40, true);
    assert_eq!(e.cursor, 8);
    e.key(press(KeyCode::Left), 40, true);
    e.key(press(KeyCode::Home), 40, true);
    assert_eq!(e.cursor, 4);
    e.key(press(KeyCode::End), 40, true);
    assert_eq!(e.cursor, 7);
    e.key(press(KeyCode::Enter), 40, false);
    assert_eq!(e.text, "one\ntwo\nthree");
    e.key(press(KeyCode::Enter), 40, true);
    assert_eq!(e.text, "one\ntwo\n\nthree");
}

#[test]
fn control_and_alt_keys_leave_the_field_alone() {
    let mut e = Editor::new("abc".into());
    e.key(KeyEvent::with_control(KeyCode::Char('x')), 20, true);
    let alt = KeyEvent { code: KeyCode::Backspace, control: false, alt: true, release: false };
    e.key(alt, 20, true);
    assert_eq!(e.text, "abc");
    assert_eq!(e.cursor, 3);
}

#[test]
fn words_move_to_the_next_line_when_they_fit_there() {
    let e = Editor::new("one two three".into());
    let w = e.wrapped(8);
    assert_eq!(w.lines, ["one two ", "three"]);
    assert_eq!(w.positions.last(), Some(&(13, 1, 5)));
    let e = Editor::new("abcd".into());
    let w = e.wrapped(4);
    assert_eq!(w.lines, ["abcd", ""]);
    assert_eq!((w.row, w.col), (1, 0));
    let e = Editor::new("a\nb".into());
    let w = e.wrapped(1);
    assert_eq!(w.lines, ["a", "b"]);
    assert_eq!(w.positions, vec![(0, 0, 0), (1, 0, 1), (2, 1, 0), (3, 1, 1)]);
}

#[test]
fn vertical_moves_keep_the_column() {
    let mut e = Editor::new("abcdef".into());
    e.key(press(KeyCode::Home), 4, true);
    assert_eq!(e.cursor, 0);
    e.key(press(KeyCode::Down), 4, true);
    assert_eq!(e.cursor, 4);
    e.key(press(KeyCode::Down), 4, true);
    assert_eq!(e.cursor, 4);
    e.key(press(KeyCode::Up), 4, false);
    assert_eq!(e.cursor, 4);
}

#[test]
fn wrapped_lines_hold_all_the_text_in_order() {
    let text = "Some lights are kept for ships.\nOthers are kept for the people who never learned to leave. 界界界";
    let e = Editor::new(text.into());
    for width in [1, 2, 5, 12, 40] {
        let w = e.wrapped(width);
        assert_eq!(w.lines.concat(), text.replace('\n', ""));
        assert_eq!(w.positions.len(), text.chars().count() + 1);
        assert_eq!(w.positions.last().map(|p| p.0), Some(text.len()));
    }
}

#[test]
fn the_cursor_column_counts_display_width() {
    let mut e = Editor::new("a界b".into());
    assert_eq!(e.cursor_column(), 4);
    e.key(press(KeyCode::Left), 20, false);
    assert_eq!(e.cursor_column(), 3);
    e.key(press(KeyCode::Home), 20, false);
    assert_eq!(e.cursor_column(), 0);
}

#[test]
fn clusters_wrap_by_their_given_widths() {
    let clusters = vec![(0, "ab".to_string()), (2, " ".to_string()), (3, "cd".to_string())];
    let widths = vec![2, 1, 2];
    let w = playrite::editor::wrap_clusters(&clusters, &widths, 3, 5, 3);
    assert_eq!(w.lines, vec!["ab ".to_string(), "cd".to_string()]);
    assert_eq!(w.positions, vec![(0, 0, 0), (2, 0, 2), (3, 1, 0), (5, 1, 2)]);
    assert_eq!((w.row, w.col), (1, 0));
}

#[test]
fn a_word_that_fits_a_line_moves_to_the_next() {
    let clusters = vec![(0, "a".to_string()), (1, " ".to_string()), (2, "b".to_string()), (3, "c".to_string())];
    let widths = vec![1, 1, 1, 1];
    let w = playrite::editor::wrap_clusters(&clusters, &widths, 3, 4, 9);
    assert_eq!(w.lines, vec!["a ".to_string(), "bc".to_string()]);
    assert_eq!(w.positions, vec![(0, 0, 0), (1, 0, 1), (2, 1, 0), (3, 1, 1), (4, 1, 2)]);
    assert_eq!((w.row, w.col), (0, 0));
}

#[test]
fn line_feeds_end_lines_and_tiny_widths_count_as_two() {
    let clusters = vec![(0, "x".to_string()), (1, "\n".to_string()), (2, "yz".to_string())];
    let widths = vec![1, 0, 2];
    let w = playrite::editor::wrap_clusters(&clusters, &widths, 0, 4, 4);
    assert_eq!(w.lines, vec!["x".to_string(), "yz".to_string(), "".to_string()]);
    assert_eq!(w.positions, vec![(0, 0, 0), (1, 0, 1), (2, 1, 0), (4, 2, 0)]);
    assert_eq!((w.row, w.col), (2, 0));
}

#[test]
fn the_cursor_snaps_to_the_next_cluster_start() {
    let clusters = vec![(0, "a".to_string()), (1, "e\u{301}".to_string()), (4, "b".to_string())];
    assert_eq!(playrite::editor::snap_to_cluster(&clusters, 2, 5), 4);
    assert_eq!(playrite::editor::snap_to_cluster(&clusters, 1, 5), 1);
    assert_eq!(playrite::editor::snap_to_cluster(&clusters, 5, 5), 5);
    assert_eq!(playrite::editor::snap_to_cluster(&clusters, 0, 5), 0);
}
