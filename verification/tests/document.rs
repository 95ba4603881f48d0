use playrite::document::{Disk, Document};
use playrite::format::encode;
use playrite::story::Story;

/// Saves through the same steps as the application: read what is at the path, decide,
/// then record what was written.
fn save(doc: &mut Document, disk: &mut Option<Vec<u8>>) -> Result<(), String> {
    let found = match disk {
        Some(bytes) => Disk::Contents(bytes.clone()),
        None => Disk::Missing,
    };
    let (bytes, _overwrite) = doc.prepare_save(&found)?;
    *disk = Some(bytes.clone());
    doc.mark_saved(bytes);
    Ok(())
}

#[test]
fn round_trip_and_external_edit_protection() {
    let mut disk: Option<Vec<u8>> = None;
    let mut doc = Document::new("story.json".into(), Story::demo());
    assert!(doc.dirty());
    save(&mut doc, &mut disk).unwrap();
    assert!(!doc.dirty());
    let reopened = Document::open("story.json".into(), Disk::Contents(disk.clone().unwrap())).unwrap();
    assert_eq!(reopened.story, doc.story);
    disk = Some(b"external edit".to_vec());
    doc.story.title = "Changed".into();
    assert!(save(&mut doc, &mut disk).is_err());
    assert_eq!(disk.as_deref(), Some(&b"external edit"[..]));
    let bytes = doc.copy_bytes().unwrap();
    doc.copied_to("copy.json".into(), bytes);
    assert!(!doc.dirty());
    assert_eq!(doc.path, "copy.json");
}

#[test]
fn a_missing_file_starts_a_blank_story() {
    let doc = Document::open("new.playrite".into(), Disk::Missing).unwrap();
    assert_eq!(doc.story, Story::default());
    assert!(doc.dirty());
}

#[test]
fn unreadable_and_corrupt_files_are_reported_with_their_path() {
    let e = Document::open("a.playrite".into(), Disk::Unreadable("permission denied".into()));
    assert_eq!(e.err().unwrap(), "Cannot open a.playrite: permission denied");
    let e = Document::open("b.playrite".into(), Disk::Contents(b"PLAYRITX".to_vec()));
    assert_eq!(
        e.err().unwrap(),
        "Cannot read b.playrite: Not a Playrite manuscript (missing PLAYRITE signature)"
    );
}

#[test]
fn saving_needs_a_valid_story_and_an_unchanged_file() {
    let mut story = Story::demo();
    story.blocks[0].character = Some(42);
    let doc = Document::new("x.playrite".into(), story);
    assert_eq!(
        doc.prepare_save(&Disk::Missing).err().unwrap(),
        "A block references a missing character"
    );
    let doc = Document::new("x.playrite".into(), Story::demo());
    assert_eq!(
        doc.prepare_save(&Disk::Unreadable("busy".into())).err().unwrap(),
        "busy"
    );
    let bytes = encode(&Story::demo()).unwrap();
    let doc = Document::open("x.playrite".into(), Disk::Contents(bytes.clone())).unwrap();
    assert!(!doc.dirty());
    let (written, overwrite) = doc.prepare_save(&Disk::Contents(bytes.clone())).unwrap();
    assert_eq!(written, bytes);
    assert!(overwrite);
    assert!(doc.prepare_save(&Disk::Missing).is_err());
}

#[test]
fn legacy_stories_keep_their_bytes() {
    let bytes = b"{\"version\": 1}".to_vec();
    let doc = Document::opened("old.json".into(), bytes.clone(), Story::demo()).unwrap();
    assert!(!doc.dirty());
    assert!(doc.prepare_save(&Disk::Contents(bytes)).is_ok());
    let mut bad = Story::demo();
    bad.version = 2;
    let e = Document::opened("old.json".into(), Vec::new(), bad);
    assert_eq!(e.err().unwrap(), "Cannot read old.json: Unsupported story version: 2");
}
