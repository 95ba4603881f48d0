use playrite::story::{valid_color, Kind, Story};

#[test]
fn reject_bad_references_and_colors() {
    let mut story = Story::demo();
    story.blocks[0].character = Some(999);
    assert!(story.validate().is_err());
    assert!(!valid_color("#000;xx"));
    assert!(!valid_color("éaaaaa"));
    assert!(valid_color("#aAbB09"));
}

#[test]
fn validation_messages_name_the_first_problem() {
    let mut story = Story::demo();
    story.characters[1].name = " \t".into();
    assert_eq!(story.validate().unwrap_err(), "Character names cannot be empty");
    let mut story = Story::demo();
    story.characters[0].color = "red".into();
    assert_eq!(
        story.validate().unwrap_err(),
        "Invalid character color: red (expected #RRGGBB)"
    );
    let mut story = Story::demo();
    story.blocks.clear();
    assert_eq!(story.validate().unwrap_err(), "A story must contain at least one block");
    let mut story = Story::demo();
    story.blocks[2].character = Some(7);
    assert_eq!(story.validate().unwrap_err(), "A block references a missing character");
    assert!(Story::demo().validate().is_ok());
    assert!(Story::default().validate().is_ok());
}

#[test]
fn word_count_skips_notes_and_scene_breaks() {
    let story = Story::demo();
    let expected: usize = story
        .blocks
        .iter()
        .filter(|b| b.kind != Kind::Note && b.kind != Kind::Divider)
        .map(|b| b.text.split_whitespace().count())
        .sum();
    assert_eq!(story.word_count(), expected);
    let mut story = Story::default();
    story.blocks[0].text = " one\u{a0}two\u{3000}three\n".into();
    assert_eq!(story.word_count(), 3);
    story.blocks[0].kind = Kind::Note;
    assert_eq!(story.word_count(), 0);
}

#[test]
fn character_lookup_finds_ids() {
    let story = Story::demo();
    assert_eq!(story.character(Some(2)).unwrap().name, "Ellis");
    assert!(story.character(Some(3)).is_none());
    assert!(story.character(None).is_none());
}

#[test]
fn labels_and_markers() {
    assert_eq!(Kind::Quote.label(), "Quotation");
    assert_eq!(Kind::Divider.label(), "Scene break");
    assert_eq!(Kind::Note.marker(), "·");
    assert_eq!(Kind::from_index(5), Kind::Scene);
}
