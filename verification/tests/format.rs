use playrite::format::{decode, encode};
use playrite::story::{Kind, Story, StoryBlock};

fn untitled() -> Story {
    let mut story = Story::default();
    story.title = String::new();
    story
}

#[test]
fn minimal_wire_layout_is_stable() {
    let story = untitled();
    // Signature, version, three empty strings, no characters, one block,
    // narration tag, no character, and empty text (all integers LE).
    let bytes = b"PLAYRITE\x01\0\0\0\0\0\0\0\0\0\0\0\0\0\0\0\0\0\0\0\x01\0\0\0\0\0\0\0\0\0";
    assert_eq!(encode(&story).unwrap(), bytes);
    assert_eq!(decode(bytes).unwrap(), story);
}

#[test]
fn preserves_all_fields_and_block_types() {
    let text = "🕯 café 水\0\r\n\t\\ **words**\n\n";
    let mut story = Story::demo();
    story.title = text.into();
    story.subtitle = text.into();
    story.author = text.into();
    story.characters[0].id = 0;
    story.characters[0].name = text.into();
    story.characters[0].description = text.into();
    story.characters[0].color = "#AaBb09".into();
    story.characters[1].id = u64::MAX;
    story.blocks = (0..8)
        .map(Kind::from_index)
        .flat_map(|kind| {
            [None, Some(0), Some(u64::MAX)].map(|character| StoryBlock {
                kind,
                character,
                text: text.into(),
            })
        })
        .collect();
    assert_eq!(decode(&encode(&story).unwrap()).unwrap(), story);
}

#[test]
fn rejects_every_truncation_and_trailing_data() {
    let mut bytes = encode(&Story::demo()).unwrap();
    for end in 0..bytes.len() {
        assert!(decode(&bytes[..end]).is_err(), "accepted prefix {end}");
    }
    bytes.push(0);
    assert!(decode(&bytes).unwrap_err().contains("trailing"));
}

#[test]
fn rejects_invalid_headers_lengths_counts_tags_and_utf8() {
    let bytes = encode(&untitled()).unwrap();
    for (offset, value, message) in [
        (0, 0, "signature"),
        (8, 2, "version"),
        (12, 255, "Truncated"),
        (24, 255, "Truncated"),
        (28, 255, "Truncated"),
        (32, 8, "block type"),
        (33, 2, "reference tag"),
        (34, 255, "Truncated"),
    ] {
        let mut invalid = bytes.clone();
        invalid[offset] = value;
        assert!(decode(&invalid).unwrap_err().contains(message));
    }
    let mut invalid = bytes;
    invalid[34..38].copy_from_slice(&1u32.to_le_bytes());
    invalid.push(255);
    assert!(decode(&invalid).unwrap_err().contains("UTF-8"));
    invalid[34..38].copy_from_slice(&u32::MAX.to_le_bytes());
    assert!(decode(&invalid).unwrap_err().contains("Truncated"));
}

#[test]
fn validates_binary_character_references_and_empty_stories() {
    let mut story = Story::demo();
    story.blocks[0].character = Some(999);
    assert!(encode(&story).is_err());
    let mut bytes = encode(&Story::demo()).unwrap();
    // The first character ID follows the header, metadata and count.
    let id_offset = 12 + 12 + story.title.len() + story.subtitle.len() + story.author.len() + 4;
    bytes[id_offset..id_offset + 8].copy_from_slice(&999u64.to_le_bytes());
    assert!(decode(&bytes).unwrap_err().contains("missing character"));
    let mut bytes = encode(&untitled()).unwrap();
    bytes.truncate(32);
    bytes[28..32].fill(0);
    assert!(decode(&bytes).unwrap_err().contains("at least one block"));
}

#[test]
fn legacy_json_is_left_to_the_json_reader() {
    assert!(playrite::format::is_legacy_json(b" \n\t{\"version\": 1}"));
    assert!(!playrite::format::is_legacy_json(b"PLAYRITE"));
    assert!(!playrite::format::is_legacy_json(b"   "));
    assert!(decode(b"  {}").unwrap_err().contains("JSON"));
}

#[test]
fn round_trip_of_the_demo_story() {
    let story = Story::demo();
    let bytes = encode(&story).unwrap();
    assert_eq!(&bytes[..8], b"PLAYRITE");
    assert_eq!(decode(&bytes).unwrap(), story);
}

#[test]
fn oversized_and_invalid_stories_are_not_encoded() {
    let mut story = Story::demo();
    story.version = 2;
    assert_eq!(encode(&story).unwrap_err(), "Unsupported story version: 2");
    let mut story = Story::demo();
    story.characters[1].id = 1;
    assert_eq!(encode(&story).unwrap_err(), "Duplicate character ID: 1");
}
