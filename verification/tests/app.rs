use playrite::app::{App, Confirm, Effect, FormKind, Modal};
use playrite::document::{Disk, Document};
use playrite::keys::{KeyCode, KeyEvent};
use playrite::story::{Kind, Story};

fn app() -> App {
    App::new(Document::new("unused.json".into(), Story::demo()))
}

fn key(app: &mut App, code: KeyCode) -> Effect {
    app.key(KeyEvent::plain(code), 0)
}

fn ctrl(app: &mut App, c: char) -> Effect {
    app.key(KeyEvent::with_control(KeyCode::Char(c)), 0)
}

fn type_text(app: &mut App, text: &str) {
    for c in text.chars() {
        key(app, KeyCode::Char(c));
    }
}

#[test]
fn edit_add_assign_reorder_and_undo() {
    let mut a = app();
    key(&mut a, KeyCode::Char('n'));
    key(&mut a, KeyCode::Char('2'));
    a.paste("Hello, **world**!\nA second line.");
    key(&mut a, KeyCode::Tab);
    assert_eq!(a.block().character, Some(1));
    key(&mut a, KeyCode::Esc);
    key(&mut a, KeyCode::Char('J'));
    assert_eq!(a.selected, 2);
    key(&mut a, KeyCode::Char('u'));
    assert_eq!(
        a.document.story.blocks[1].text,
        "Hello, **world**!\nA second line."
    );
    assert_eq!(a.document.story.blocks[1].character, Some(1));
}

#[test]
fn quit_requires_explicit_choice_and_delete_can_be_undone() {
    let mut a = app();
    key(&mut a, KeyCode::Char('q'));
    assert!(!a.quit);
    key(&mut a, KeyCode::Esc);
    key(&mut a, KeyCode::Char('d'));
    key(&mut a, KeyCode::Char('y'));
    assert_eq!(a.document.story.blocks.len(), 11);
    key(&mut a, KeyCode::Char('u'));
    assert_eq!(a.document.story.blocks.len(), 12);
}

#[test]
fn export_requires_explicit_overwrite() {
    let mut a = app();
    ctrl(&mut a, 'e');
    assert!(matches!(key(&mut a, KeyCode::Enter), Effect::CheckExport));
    assert!(matches!(a.export_checked(false, true), Effect::Nothing));
    assert!(matches!(a.modal, Some(Modal::Confirm(Confirm::Overwrite(_)))));
    match key(&mut a, KeyCode::Char('y')) {
        Effect::WriteExport { html, overwrite, .. } => {
            assert!(overwrite);
            assert!(html.starts_with("<!doctype html>"));
        }
        _ => panic!("expected an export"),
    }
    let mut a = app();
    ctrl(&mut a, 'e');
    key(&mut a, KeyCode::Enter);
    match a.export_checked(false, false) {
        Effect::WriteExport { overwrite, .. } => assert!(!overwrite),
        _ => panic!("expected an export"),
    }
    assert!(playrite::export::write(&Story::default(), "story.json").is_err());
}

#[test]
fn the_manuscript_is_never_the_export_target() {
    let mut a = app();
    ctrl(&mut a, 'e');
    key(&mut a, KeyCode::Enter);
    assert!(matches!(a.export_checked(true, true), Effect::Nothing));
    match &a.modal {
        Some(Modal::Form(f)) => {
            assert_eq!(f.error, "The export must use a different path from your story.")
        }
        _ => panic!("the dialog stays open"),
    }
}

#[test]
fn typing_is_grouped_into_one_undo_step() {
    let mut a = app();
    key(&mut a, KeyCode::Down);
    key(&mut a, KeyCode::Enter);
    assert!(a.editing);
    let before = a.document.story.blocks[1].text.clone();
    a.key(KeyEvent::plain(KeyCode::Char('!')), 1_000_000_000);
    a.key(KeyEvent::plain(KeyCode::Char('?')), 1_700_000_000);
    assert!(a.document.story.blocks[1].text.ends_with("!?"));
    assert_eq!(a.undo.len(), 1);
    a.key(KeyEvent::plain(KeyCode::Char('.')), 2_400_000_001);
    assert_eq!(a.undo.len(), 2);
    key(&mut a, KeyCode::Esc);
    key(&mut a, KeyCode::Char('u'));
    key(&mut a, KeyCode::Char('u'));
    assert_eq!(a.document.story.blocks[1].text, before);
    key(&mut a, KeyCode::Char('r'));
    assert!(a.document.story.blocks[1].text.ends_with("!?"));
    assert_eq!(a.status, "Change restored");
}

#[test]
fn undo_keeps_at_most_one_hundred_groups() {
    let mut a = app();
    for _ in 0..120 {
        key(&mut a, KeyCode::Char('D'));
    }
    assert_eq!(a.undo.len(), 100);
    assert_eq!(a.document.story.blocks.len(), 132);
}

#[test]
fn changing_type_keeps_text_and_speaker() {
    let mut a = app();
    key(&mut a, KeyCode::Char('j'));
    key(&mut a, KeyCode::Char('j'));
    key(&mut a, KeyCode::Char('j'));
    let text = a.block().text.clone();
    assert_eq!(a.block().character, Some(1));
    key(&mut a, KeyCode::Char('7'));
    assert_eq!(a.block().kind, Kind::Divider);
    assert_eq!(a.status, "Block changed to Scene break");
    key(&mut a, KeyCode::Enter);
    assert!(!a.editing);
    key(&mut a, KeyCode::Char('2'));
    assert_eq!(a.block().kind, Kind::Dialogue);
    assert_eq!(a.block().text, text);
    assert_eq!(a.block().character, Some(1));
}

#[test]
fn removing_a_character_keeps_text_and_can_be_undone() {
    let mut a = app();
    let texts: Vec<String> = a.document.story.blocks.iter().map(|b| b.text.clone()).collect();
    key(&mut a, KeyCode::Char('c'));
    key(&mut a, KeyCode::Char('d'));
    key(&mut a, KeyCode::Char('y'));
    assert_eq!(a.document.story.characters.len(), 1);
    assert!(a.document.story.blocks.iter().all(|b| b.character != Some(1)));
    let after: Vec<String> = a.document.story.blocks.iter().map(|b| b.text.clone()).collect();
    assert_eq!(after, texts);
    assert!(a.document.story.validate().is_ok());
    key(&mut a, KeyCode::Esc);
    key(&mut a, KeyCode::Char('u'));
    assert_eq!(a.document.story, Story::demo());
}

#[test]
fn new_characters_get_the_first_free_id() {
    let mut a = app();
    key(&mut a, KeyCode::Char('c'));
    key(&mut a, KeyCode::Char('n'));
    match &a.modal {
        Some(Modal::Form(f)) => {
            assert!(matches!(f.kind, FormKind::Character(None)));
            assert_eq!(f.fields[2].editor.text, "#705589");
        }
        _ => panic!("expected the character dialog"),
    }
    type_text(&mut a, "  Ada  ");
    key(&mut a, KeyCode::Enter);
    assert_eq!(a.document.story.characters.len(), 3);
    assert_eq!(a.document.story.characters[2].id, 3);
    assert_eq!(a.document.story.characters[2].name, "Ada");
    assert_eq!(a.cast_selected, 2);
    assert!(matches!(a.modal, Some(Modal::Cast)));
    key(&mut a, KeyCode::Char('n'));
    key(&mut a, KeyCode::Tab);
    key(&mut a, KeyCode::Tab);
    a.key(KeyEvent::with_control(KeyCode::Char('u')), 0);
    type_text(&mut a, "red");
    key(&mut a, KeyCode::Enter);
    match &a.modal {
        Some(Modal::Form(f)) => {
            assert_eq!(f.error, "A name and a valid #RRGGBB color are required.")
        }
        _ => panic!("the dialog stays open"),
    }
    key(&mut a, KeyCode::Esc);
    assert!(matches!(a.modal, Some(Modal::Cast)));
}

#[test]
fn palette_cycles_in_the_color_field() {
    let mut a = app();
    key(&mut a, KeyCode::Char('c'));
    key(&mut a, KeyCode::Char('e'));
    a.key(KeyEvent::with_control(KeyCode::Char('p')), 0);
    match &a.modal {
        Some(Modal::Form(f)) => assert_eq!(f.fields[2].editor.text, "#386d73"),
        _ => panic!("expected the character dialog"),
    }
}

#[test]
fn story_details_need_a_title() {
    let mut a = app();
    key(&mut a, KeyCode::Char('t'));
    a.key(KeyEvent::with_control(KeyCode::Char('u')), 0);
    key(&mut a, KeyCode::Enter);
    match &a.modal {
        Some(Modal::Form(f)) => assert_eq!(f.error, "Give your story a title."),
        _ => panic!("the dialog stays open"),
    }
    type_text(&mut a, "New title");
    key(&mut a, KeyCode::Enter);
    assert_eq!(a.document.story.title, "New title");
    assert_eq!(a.status, "Story details updated");
}

#[test]
fn bold_markers_surround_the_cursor() {
    let mut a = app();
    key(&mut a, KeyCode::Char('j'));
    key(&mut a, KeyCode::Enter);
    a.key(KeyEvent::with_control(KeyCode::Char('b')), 0);
    type_text(&mut a, "x");
    assert!(a.block().text.ends_with("**x**"));
    a.key(KeyEvent::with_control(KeyCode::Char('i')), 0);
    assert!(a.block().text.ends_with("**x****"));
    assert_eq!(a.editor.cursor, a.editor.text.len() - 3);
}

#[test]
fn saving_checks_the_file_first() {
    let mut a = app();
    assert!(matches!(ctrl(&mut a, 's'), Effect::Save { quit: false }));
    let bytes = match a.save_checked(&Disk::Missing, false) {
        Effect::WriteSave { bytes, overwrite, .. } => {
            assert!(!overwrite);
            bytes
        }
        _ => panic!("expected a save"),
    };
    a.save_done(bytes.clone(), false, Ok(()));
    assert_eq!(a.status, "Saved unused.json");
    assert!(!a.document.dirty());
    key(&mut a, KeyCode::Char('q'));
    assert!(a.quit);
    let mut a = app();
    assert!(matches!(a.save_checked(&Disk::Contents(bytes), false), Effect::Nothing));
    assert!(a.error);
    assert!(a.status.starts_with("Story changed on disk"));
}

#[test]
fn saving_from_the_quit_question_ends_the_session() {
    let mut a = app();
    key(&mut a, KeyCode::Char('q'));
    assert!(matches!(key(&mut a, KeyCode::Char('s')), Effect::Save { quit: true }));
    let bytes = match a.save_checked(&Disk::Missing, true) {
        Effect::WriteSave { bytes, quit, .. } => {
            assert!(quit);
            bytes
        }
        _ => panic!("expected a save"),
    };
    a.save_done(bytes, true, Err("disk full".into()));
    assert!(!a.quit);
    assert_eq!(a.status, "disk full");
}

#[test]
fn copies_continue_at_the_new_path() {
    let mut a = app();
    key(&mut a, KeyCode::F(4));
    a.key(KeyEvent::with_control(KeyCode::Char('u')), 0);
    type_text(&mut a, "copy.playrite");
    let (path, bytes) = match key(&mut a, KeyCode::Enter) {
        Effect::WriteCopy { path, bytes } => (path, bytes),
        _ => panic!("expected a copy"),
    };
    assert_eq!(path, "copy.playrite");
    a.copy_done(path, bytes, Ok(()));
    assert_eq!(a.document.path, "copy.playrite");
    assert!(!a.document.dirty());
    assert!(a.modal.is_none());
    assert_eq!(a.status, "Saved copy to copy.playrite");
}

#[test]
fn scene_breaks_are_not_written_in() {
    let mut a = app();
    key(&mut a, KeyCode::End);
    key(&mut a, KeyCode::Up);
    key(&mut a, KeyCode::Up);
    key(&mut a, KeyCode::Up);
    key(&mut a, KeyCode::Up);
    assert_eq!(a.block().kind, Kind::Divider);
    key(&mut a, KeyCode::Char('i'));
    assert!(!a.editing);
    assert_eq!(
        a.status,
        "Scene breaks have no text. Press 1–8 to change the block type."
    );
}

#[test]
fn help_scrolls_and_closes() {
    let mut a = app();
    key(&mut a, KeyCode::Char('?'));
    for _ in 0..30 {
        key(&mut a, KeyCode::Down);
    }
    assert_eq!(a.help_scroll, 23);
    key(&mut a, KeyCode::PageUp);
    assert_eq!(a.help_scroll, 17);
    key(&mut a, KeyCode::Enter);
    assert!(a.modal.is_none());
    assert_eq!(a.help_scroll, 0);
}

#[test]
fn key_releases_are_ignored() {
    let mut a = app();
    let release = KeyEvent { code: KeyCode::Char('q'), control: false, alt: false, release: true };
    a.key(release, 0);
    assert!(a.modal.is_none());
    assert!(!a.quit);
}

#[test]
fn new_dialogue_after_dialogue_keeps_the_speaker() {
    let mut a = app();
    key(&mut a, KeyCode::Char('j'));
    key(&mut a, KeyCode::Char('j'));
    key(&mut a, KeyCode::Char('j'));
    assert_eq!(a.block().character, Some(1));
    key(&mut a, KeyCode::Char('n'));
    key(&mut a, KeyCode::Char('2'));
    assert_eq!(a.selected, 4);
    assert!(a.editing);
    assert_eq!(a.block().kind, Kind::Dialogue);
    assert_eq!(a.block().character, Some(1));
    assert_eq!(a.block().text, "");
    key(&mut a, KeyCode::Esc);
    key(&mut a, KeyCode::Char('n'));
    key(&mut a, KeyCode::Char('1'));
    assert_eq!(a.block().character, None);
}

#[test]
fn dialogs_suggest_files_next_to_the_manuscript() {
    let mut a = app();
    key(&mut a, KeyCode::F(5));
    match &a.modal {
        Some(Modal::Form(f)) => {
            assert!(matches!(f.kind, FormKind::Export));
            assert_eq!(f.fields[0].editor.text, "unused.html");
        }
        _ => panic!("expected the export dialog"),
    }
    key(&mut a, KeyCode::Esc);
    key(&mut a, KeyCode::F(4));
    match &a.modal {
        Some(Modal::Form(f)) => assert_eq!(f.fields[0].editor.text, "unused.copy.playrite"),
        _ => panic!("expected the copy dialog"),
    }
}

#[test]
fn a_long_session_keeps_the_story_valid() {
    let mut a = app();
    let keys = [
        KeyCode::Char('c'),
        KeyCode::Char('d'),
        KeyCode::Char('y'),
        KeyCode::Esc,
        KeyCode::Tab,
        KeyCode::Tab,
        KeyCode::Char('J'),
        KeyCode::Char('D'),
        KeyCode::Char('d'),
        KeyCode::Char('y'),
        KeyCode::Char('u'),
        KeyCode::Char('u'),
        KeyCode::Char('r'),
        KeyCode::Char('3'),
        KeyCode::Tab,
    ];
    for code in keys {
        key(&mut a, code);
        assert!(a.document.story.validate().is_ok());
        for s in a.undo.iter().chain(a.redo.iter()) {
            assert!(s.validate().is_ok());
        }
        assert!(a.selected < a.document.story.blocks.len());
        assert_eq!(a.editor.text, a.document.story.blocks[a.selected].text);
    }
}

#[test]
fn deleting_every_block_leaves_a_blank_one() {
    let mut a = App::new(Document::new("x.playrite".into(), Story::default()));
    key(&mut a, KeyCode::Char('d'));
    key(&mut a, KeyCode::Char('y'));
    assert_eq!(a.document.story.blocks.len(), 1);
    assert_eq!(a.document.story.blocks[0].kind, Kind::Narration);
    assert_eq!(a.status, "Block deleted · u to undo");
}

#[test]
fn the_export_target_is_the_trimmed_dialog_field() {
    let mut a = app();
    assert!(a.export_target().is_none());
    ctrl(&mut a, 'e');
    a.key(KeyEvent::with_control(KeyCode::Char('u')), 0);
    type_text(&mut a, " out.html ");
    assert_eq!(a.export_target().as_deref(), Some("out.html"));
}

#[test]
fn answering_yes_deletes_the_selected_block() {
    let mut a = app();
    let blocks = a.document.story.blocks.clone();
    key(&mut a, KeyCode::Down);
    let s = a.selected;
    key(&mut a, KeyCode::Char('d'));
    assert!(matches!(a.modal, Some(Modal::Confirm(Confirm::DeleteBlock))));
    assert!(matches!(key(&mut a, KeyCode::Char('y')), Effect::Nothing));
    let mut expected = blocks.clone();
    expected.remove(s);
    assert_eq!(a.document.story.blocks, expected);
    assert_eq!(a.selected, s.min(expected.len() - 1));
    assert_eq!(a.editor.text, a.document.story.blocks[a.selected].text);
    assert!(a.modal.is_none());
}

#[test]
fn undo_then_redo_by_keys_restores_the_change() {
    let mut a = app();
    key(&mut a, KeyCode::Char('2'));
    let changed = a.document.story.clone();
    ctrl(&mut a, 'z');
    assert_eq!(a.status, "Change undone");
    ctrl(&mut a, 'y');
    assert_eq!(a.document.story, changed);
    assert_eq!(a.editor.text, a.document.story.blocks[a.selected].text);
    assert_eq!(a.status, "Change restored");
}

#[test]
fn a_type_change_is_one_undo_group() {
    let mut a = app();
    let before = a.document.story.clone();
    key(&mut a, KeyCode::Char('3'));
    assert_eq!(a.undo.last(), Some(&before));
    assert!(a.redo.is_empty());
}

#[test]
fn a_pause_of_exactly_seven_hundred_milliseconds_keeps_the_group() {
    let mut a = app();
    key(&mut a, KeyCode::Down);
    key(&mut a, KeyCode::Enter);
    a.key(KeyEvent::plain(KeyCode::Char('a')), 5_000_000_000);
    a.key(KeyEvent::plain(KeyCode::Char('b')), 5_700_000_000);
    assert_eq!(a.undo.len(), 1);
    a.key(KeyEvent::plain(KeyCode::Char('c')), 6_400_000_001);
    assert_eq!(a.undo.len(), 2);
}
