use playrite::view::{screen_fits, shows_preview};
use playrite::story::{Kind, Story, StoryBlock};
use playrite::view::{
    centered, clamp_preview, field_scroll, follow, lift_color, outline_label, outline_snippet,
    preview_text, run_lines, shows_speaker, speaker_line,
};

#[test]
fn scrolling_follows_the_selection() {
    assert_eq!(follow(5, 0, 3), 3);
    assert_eq!(follow(1, 4, 3), 1);
    assert_eq!(follow(4, 3, 3), 3);
    assert_eq!(field_scroll(10, 5), 6);
    assert_eq!(field_scroll(3, 5), 0);
    assert_eq!(clamp_preview(10, &vec![0, 25, 10], 10), 4);
    assert_eq!(clamp_preview(2, &vec![0, 25, 10], 10), 2);
    assert_eq!(clamp_preview(3, &vec![], 10), 0);
}

#[test]
fn dialogs_are_centred() {
    assert_eq!(centered(0, 0, 80, 24, 76, 10), (2, 7, 76, 10));
    assert_eq!(centered(3, 1, 40, 10, 76, 29), (5, 2, 36, 8));
}

#[test]
fn character_colors_are_lifted_for_the_dark_background() {
    assert_eq!(lift_color("#9b513c"), (210, 136, 115));
    assert_eq!(lift_color("#ffffff"), (255, 255, 255));
    assert_eq!(lift_color("nope"), (239, 230, 215));
    assert_eq!(lift_color(""), (239, 230, 215));
    assert_eq!(lift_color("##+0a0b0c"), (65, 66, 67));
    assert_eq!(lift_color("#1ffffffff"), (239, 230, 215));
}

#[test]
fn outline_entries_show_number_type_speaker_and_first_line() {
    let story = Story::demo();
    assert_eq!(outline_label(0, true, Kind::Narration), "▸ 01 Narration");
    assert_eq!(outline_label(11, false, Kind::Note), "  12 Private note");
    assert_eq!(outline_snippet(&story, &story.blocks[7]), "· · ·");
    assert_eq!(outline_snippet(&story, &story.blocks[3]), "Mara: You took the long way.");
    let b = StoryBlock { kind: Kind::Narration, character: None, text: "a\r\nb".into() };
    assert_eq!(outline_snippet(&story, &b), "a");
    let b = StoryBlock { kind: Kind::Narration, character: None, text: "a\r".into() };
    assert_eq!(outline_snippet(&story, &b), "a\r");
    let b = StoryBlock { kind: Kind::Dialogue, character: Some(1), text: "\nlater".into() };
    assert_eq!(outline_snippet(&story, &b), "Start writing…");
    assert_eq!(speaker_line(&story, &story.blocks[0]), "Unassigned  ·  Tab to change");
    assert_eq!(speaker_line(&story, &story.blocks[4]), "Ellis  ·  Tab to change");
}

#[test]
fn the_preview_quotes_dialogue_and_names_speakers() {
    let b = StoryBlock { kind: Kind::Dialogue, character: None, text: "Hi".into() };
    assert_eq!(preview_text(&b), "“Hi”");
    let b = StoryBlock { kind: Kind::Dialogue, character: None, text: String::new() };
    assert_eq!(preview_text(&b), "");
    let b = StoryBlock { kind: Kind::Narration, character: None, text: "Hi".into() };
    assert_eq!(preview_text(&b), "Hi");
    assert!(shows_speaker(Kind::Quote));
    assert!(!shows_speaker(Kind::Scene));
}

#[test]
fn formatted_text_splits_into_lines_at_line_feeds() {
    let lines = run_lines("a **b\nc** d");
    let shape: Vec<Vec<(String, bool)>> = lines
        .iter()
        .map(|l| l.iter().map(|r| (r.text.clone(), r.format.bold)).collect())
        .collect();
    assert_eq!(
        shape,
        vec![
            vec![("a ".to_string(), false), ("b".to_string(), true)],
            vec![("c".to_string(), true), (" d".to_string(), false)],
        ]
    );
    assert_eq!(run_lines("").len(), 1);
    assert_eq!(run_lines("x\n").len(), 2);
}

#[test]
fn the_desk_needs_fifty_six_by_eighteen_and_previews_from_one_hundred_ten() {
    assert!(screen_fits(56, 18));
    assert!(!screen_fits(55, 18));
    assert!(!screen_fits(56, 17));
    assert!(shows_preview(110));
    assert!(!shows_preview(109));
}
