use tachylyte::editor_state::{
    byte_to_utf16, next_boundary, prev_boundary, previous_boundary, utf16_to_byte, Cursor, EditorEvent, EditorState,
    Selection, SyntaxKind,
};
use tachylyte::markdown::{Span, ViewMode};

fn utf16_to_byte_range(s: &str, r: std::ops::Range<usize>) -> std::ops::Range<usize> {
    utf16_to_byte(s, r.start)..utf16_to_byte(s, r.end)
}

#[test]
fn unicode_editing() {
    let mut e = EditorState::new("a🙂c");
    e.set_cursor(Cursor(5));
    e.delete_backward();
    assert_eq!(e.source(), "ac");
}

#[test]
fn selection_and_undo() {
    let mut e = EditorState::new("hello");
    e.set_selection(Selection {
        anchor: Cursor(0),
        head: Cursor(5),
    });
    e.insert_text("hi");
    assert_eq!(e.source(), "hi");
    e.undo();
    assert_eq!(e.source(), "hello");
}

#[test]
fn modes_find_projection() {
    let mut e = EditorState::new("# A\nA");
    e.set_mode(ViewMode::Reading);
    e.set_find_query("A");
    assert_eq!(e.find_results().len(), 2);
    assert_eq!(e.projection().len(), 2);
    assert_eq!(e.mode(), ViewMode::Reading);
}

#[test]
fn astral_utf16_ranges_are_character_safe() {
    let source = "a🙂b";
    assert_eq!(utf16_to_byte(source, 1), 1);
    assert_eq!(utf16_to_byte(source, 3), 5);
    assert_eq!(byte_to_utf16(source, 5), 3);
    assert_eq!(utf16_to_byte_range(source, 1..3), 1..5);
}

#[test]
fn ime_composition_tracks_and_unmarks() {
    let mut e = EditorState::new("ab");
    e.set_cursor(Cursor(1));
    e.replace_marked_text(None, "é", Some(1..2));
    assert_eq!(e.source(), "aéb");
    assert_eq!(e.marked_range(), Some(1..3));
    assert_eq!(
        e.selection(),
        Selection {
            anchor: Cursor(1),
            head: Cursor(3)
        }
    );
    e.unmark_text();
    assert_eq!(e.marked_range(), None);
}

#[test]
fn undo_restores_selection_and_projection_spans() {
    let mut e = EditorState::new("one\ntwo");
    e.set_selection(Selection {
        anchor: Cursor(1),
        head: Cursor(3),
    });
    e.insert_text("X");
    e.undo();
    assert_eq!(
        e.selection(),
        Selection {
            anchor: Cursor(1),
            head: Cursor(3)
        }
    );
    let lines = e.projection();
    assert_eq!(lines[0].span, Span::new(0, 3));
    assert_eq!(lines[1].span, Span::new(4, 7));
}

#[test]
fn events_report_changes_dirtiness_and_saves() {
    let mut e = EditorState::new("ab");
    e.set_cursor(Cursor(2));
    e.insert_text("c");
    assert!(e.is_dirty());
    e.request_save();
    e.mark_clean();
    assert!(!e.is_dirty());
    e.set_mode(ViewMode::Source);
    e.set_mode(ViewMode::LivePreview);
    let ev = e.take_events();
    assert_eq!(
        ev,
        vec![
            EditorEvent::Changed { revision: 1 },
            EditorEvent::DirtyChanged(true),
            EditorEvent::SaveRequested,
            EditorEvent::ModeChanged(ViewMode::LivePreview),
        ]
    );
    assert!(e.take_events().is_empty());
}

#[test]
fn redo_reapplies_and_new_edits_drop_redo() {
    let mut e = EditorState::new("x");
    e.set_cursor(Cursor(1));
    e.insert_text("y");
    e.undo();
    assert_eq!(e.source(), "x");
    e.redo();
    assert_eq!(e.source(), "xy");
    e.undo();
    e.insert_text("z");
    e.redo();
    assert_eq!(e.source(), "xz");
}

#[test]
fn deletes_whole_characters_and_stop_at_the_ends() {
    let mut e = EditorState::new("é");
    e.set_cursor(Cursor(0));
    e.delete_backward();
    assert_eq!(e.source(), "é");
    e.delete_forward();
    assert_eq!(e.source(), "");
    e.delete_forward();
    assert_eq!(e.source(), "");
}

#[test]
fn selections_snap_to_character_boundaries() {
    let mut e = EditorState::new("aé");
    e.set_selection(Selection {
        anchor: Cursor(2),
        head: Cursor(99),
    });
    assert_eq!(
        e.selection(),
        Selection {
            anchor: Cursor(1),
            head: Cursor(3)
        }
    );
    assert_eq!(Selection { anchor: Cursor(3), head: Cursor(1) }.range(), 1..3);
    assert_eq!(prev_boundary("aé", 2), 1);
    assert_eq!(previous_boundary("aé", 3), 1);
    assert_eq!(next_boundary("aé", 1), 3);
    e.set_marked_range(Some(3..2));
    assert_eq!(e.marked_range(), Some(1..3));
}

#[test]
fn find_is_non_overlapping_and_projection_kinds() {
    let mut e = EditorState::new("aaa\n```\n  # h\r\n<!-- c");
    e.set_find_query("aa");
    let f = e.find_results();
    assert_eq!(f.len(), 1);
    assert_eq!(f[0].span, Span::new(0, 2));
    let p = e.projection();
    let kinds: Vec<SyntaxKind> = p.iter().map(|l| l.tokens[0].kind).collect();
    assert_eq!(kinds, vec![SyntaxKind::Plain, SyntaxKind::Code, SyntaxKind::Heading, SyntaxKind::Comment]);
    assert_eq!(p[2].text, "  # h");
    assert_eq!(p[2].number, 3);
    e.set_find_query("");
    assert!(e.find_results().is_empty());
}

#[test]
fn set_cursor_moves_back_to_a_character_boundary() {
    let mut e = EditorState::new("a🙂c");
    e.set_cursor(Cursor(3));
    assert_eq!(e.cursor(), Cursor(1));
    assert_eq!(e.selection(), Selection { anchor: Cursor(1), head: Cursor(1) });
    e.set_cursor(Cursor(99));
    assert_eq!(e.cursor(), Cursor(6));
}
