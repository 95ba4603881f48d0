//! A manuscript open for editing: the story, the path it lives at, and what was last
//! read from or written to that path. Reading and writing files is the caller's part;
//! this module decides what to read, what to write and when a save must be refused.
use vstd::prelude::*;
use vstd::string::*;
use crate::format::{decode, encode, spec_decode, spec_encode};
use crate::story::{default_story, story_error, valid_story, Story, StoryView};
use crate::text::push_str;

verus! {

/// What was last read from or written to the manuscript's path: the bytes, and the story
/// they hold.
pub struct Saved {
    pub bytes: Vec<u8>,
    pub story: Story,
}

/// What reading the manuscript's path found.
pub enum Disk {
    /// No file is there.
    Missing,
    /// The file could not be read; the reason.
    Unreadable(String),
    /// The file's bytes.
    Contents(Vec<u8>),
}

/// A manuscript open for editing.
pub struct Document {
    pub story: Story,
    pub path: String,
    pub saved: Option<Saved>,
}

/// [`Saved`] as plain values.
pub struct SavedView {
    pub bytes: Seq<u8>,
    pub story: StoryView,
}

/// [`Disk`] as plain values.
pub enum DiskView {
    Missing,
    Unreadable(Seq<char>),
    Contents(Seq<u8>),
}

/// [`Document`] as plain values.
pub struct DocumentView {
    pub story: StoryView,
    pub path: Seq<char>,
    pub saved: Option<SavedView>,
}

impl View for Disk {
    type V = DiskView;

    open spec fn view(&self) -> DiskView {
        match self {
            Disk::Missing => DiskView::Missing,
            Disk::Unreadable(e) => DiskView::Unreadable(e@),
            Disk::Contents(b) => DiskView::Contents(b@),
        }
    }
}

impl View for Document {
    type V = DocumentView;

    open spec fn view(&self) -> DocumentView {
        DocumentView {
            story: self.story@,
            path: self.path@,
            saved: match self.saved {
                None => None,
                Some(s) => Some(SavedView { bytes: s.bytes@, story: s.story@ }),
            },
        }
    }
}

/// The story differs from the one last read or written, or nothing was.
pub open spec fn is_dirty(d: DocumentView) -> bool {
    match d.saved {
        None => true,
        Some(s) => s.story != d.story,
    }
}

/// The message when the file changed since it was read or written.
pub open spec fn changed_message() -> Seq<char> {
    "Story changed on disk; save refused to protect those changes. Your edits remain in the editor. Use F4 to save a copy."@
}

/// `prefix`, the path, `": "` and a reason.
pub open spec fn about_path(prefix: Seq<char>, path: Seq<char>, reason: Seq<char>) -> Seq<char> {
    prefix + path + ": "@ + reason
}

/// What opening a path gives: a new default story where there is no file, the decoded
/// story where there is one, and an error otherwise.
pub open spec fn open_outcome(path: Seq<char>, disk: DiskView) -> Result<DocumentView, Seq<char>> {
    match disk {
        DiskView::Missing => Ok(DocumentView { story: default_story(), path, saved: None }),
        DiskView::Unreadable(e) => Err(about_path("Cannot open "@, path, e)),
        DiskView::Contents(b) => match spec_decode(b) {
            Ok(s) => Ok(DocumentView { story: s, path, saved: Some(SavedView { bytes: b, story: s }) }),
            Err(e) => Err(about_path("Cannot read "@, path, e)),
        },
    }
}

/// What saving decides, given what the path holds now: the bytes to write and whether
/// they may replace a file, or why the save is refused. A save goes ahead only when the
/// file is still what was last read or written, or when nothing was and nothing is there.
pub open spec fn save_outcome(d: DocumentView, disk: DiskView) -> Result<(Seq<u8>, bool), Seq<char>> {
    if !valid_story(d.story) {
        Err(story_error(d.story)->0)
    } else {
        let unchanged = match (disk, d.saved) {
            (DiskView::Contents(c), Some(s)) => c == s.bytes,
            (DiskView::Missing, None) => true,
            _ => false,
        };
        if !unchanged {
            match disk {
                DiskView::Unreadable(e) => Err(e),
                _ => Err(changed_message()),
            }
        } else {
            match spec_encode(d.story) {
                Ok(b) => Ok((b, d.saved is Some)),
                Err(e) => Err(e),
            }
        }
    }
}

/// Whether two byte strings are equal.
fn same_bytes(a: &Vec<u8>, b: &Vec<u8>) -> (r: bool)
    ensures
        r == (a@ == b@),
{
    if a.len() != b.len() {
        return false;
    }
    let mut i: usize = 0;
    while i < a.len()
        invariant
            i <= a@.len(),
            a@.len() == b@.len(),
            forall|k: int| 0 <= k < i ==> a@[k] == b@[k],
        decreases a@.len() - i,
    {
        if a[i] != b[i] {
            return false;
        }
        i += 1;
    }
    assert(a@ =~= b@);
    true
}

/// `prefix`, the path, `": "` and a reason, as a string.
fn path_message(prefix: &str, path: &String, reason: &String) -> (r: String)
    ensures
        r@ == about_path(prefix@, path@, reason@),
{
    let mut m = String::new();
    push_str(&mut m, prefix);
    push_str(&mut m, path.as_str());
    push_str(&mut m, ": ");
    push_str(&mut m, reason.as_str());
    proof {
        reveal_strlit(": ");
    }
    assert(m@ =~= about_path(prefix@, path@, reason@));
    m
}

impl Document {
    /// A document for `story` at `path` that has not been read from or written to disk.
    pub fn new(path: String, story: Story) -> (r: Document)
        ensures
            r@ == (DocumentView { story: story@, path: path@, saved: None }),
    {
        Document { story, path, saved: None }
    }

    /// Opens the manuscript at `path` from what reading it found: a missing file starts
    /// a blank story, a readable one must decode to a valid story.
    pub fn open(path: String, disk: Disk) -> (r: Result<Document, String>)
        ensures
            match open_outcome(path@, disk@) {
                Ok(d) => r matches Ok(doc) && doc@ == d,
                Err(e) => r matches Err(m) && m@ == e,
            },
    {
        proof {
            reveal_strlit("Cannot open ");
            reveal_strlit("Cannot read ");
        }
        match disk {
            Disk::Missing => Ok(Document::new(path, Story::default())),
            Disk::Unreadable(e) => Err(path_message("Cannot open ", &path, &e)),
            Disk::Contents(bytes) => match decode(bytes.as_slice()) {
                Ok(story) => {
                    let copy = story.duplicate();
                    Ok(Document { story, path, saved: Some(Saved { bytes, story: copy }) })
                },
                Err(e) => Err(path_message("Cannot read ", &path, &e)),
            },
        }
    }

    /// A document for a story read from `bytes` by another reader (the legacy JSON
    /// layout); the story must be valid.
    pub fn opened(path: String, bytes: Vec<u8>, story: Story) -> (r: Result<Document, String>)
        ensures
            valid_story(story@) ==> (r matches Ok(doc) && doc@ == (DocumentView {
                story: story@,
                path: path@,
                saved: Some(SavedView { bytes: bytes@, story: story@ }),
            })),
            !valid_story(story@) ==> (r matches Err(m) && m@ == about_path(
                "Cannot read "@,
                path@,
                story_error(story@)->0,
            )),
    {
        proof {
            reveal_strlit("Cannot read ");
        }
        match story.validate() {
            Ok(()) => {
                let copy = story.duplicate();
                Ok(Document { story, path, saved: Some(Saved { bytes, story: copy }) })
            },
            Err(e) => Err(path_message("Cannot read ", &path, &e)),
        }
    }

    /// Whether the story has changes that were not saved.
    pub fn dirty(&self) -> (r: bool)
        ensures
            r == is_dirty(self@),
    {
        match &self.saved {
            None => true,
            Some(s) => !s.story.same(&self.story),
        }
    }

    /// Decides a save given what the path holds now: the bytes to write and whether they
    /// may replace an existing file, or why the save is refused.
    pub fn prepare_save(&self, disk: &Disk) -> (r: Result<(Vec<u8>, bool), String>)
        ensures
            match save_outcome(self@, disk@) {
                Ok((b, o)) => r matches Ok((v, w)) && v@ == b && w == o,
                Err(e) => r matches Err(m) && m@ == e,
            },
    {
        self.story.validate()?;
        let unchanged = match (disk, &self.saved) {
            (Disk::Contents(c), Some(s)) => same_bytes(c, &s.bytes),
            (Disk::Missing, None) => true,
            _ => false,
        };
        if !unchanged {
            proof {
                reveal_strlit(
                    "Story changed on disk; save refused to protect those changes. Your edits remain in the editor. Use F4 to save a copy.",
                );
            }
            return match disk {
                Disk::Unreadable(e) => Err(e.clone()),
                _ => Err(
                    String::from_str(
                        "Story changed on disk; save refused to protect those changes. Your edits remain in the editor. Use F4 to save a copy.",
                    ),
                ),
            };
        }
        let bytes = encode(&self.story)?;
        Ok((bytes, self.saved.is_some()))
    }

    /// Records that `bytes`, holding the current story, are now what the path holds.
    pub fn mark_saved(&mut self, bytes: Vec<u8>)
        ensures
            final(self)@ == (DocumentView {
                saved: Some(SavedView { bytes: bytes@, story: old(self)@.story }),
                ..old(self)@
            }),
    {
        let copy = self.story.duplicate();
        self.saved = Some(Saved { bytes, story: copy });
    }

    /// The bytes of a copy of the story under a new name, or why there are none.
    pub fn copy_bytes(&self) -> (r: Result<Vec<u8>, String>)
        ensures
            match spec_encode(self@.story) {
                Ok(b) => r matches Ok(v) && v@ == b,
                Err(e) => r matches Err(m) && m@ == e,
            },
    {
        encode(&self.story)
    }

    /// Records that a copy holding `bytes` was written to `path`, which the document now
    /// edits.
    pub fn copied_to(&mut self, path: String, bytes: Vec<u8>)
        ensures
            final(self)@ == (DocumentView {
                story: old(self)@.story,
                path: path@,
                saved: Some(SavedView { bytes: bytes@, story: old(self)@.story }),
            }),
    {
        self.path = path;
        self.mark_saved(bytes);
    }
}

/// After a save, the document has no unsaved changes.
pub proof fn law_saved_is_clean(d: DocumentView, bytes: Seq<u8>)
    ensures
        !is_dirty(DocumentView { saved: Some(SavedView { bytes, story: d.story }), ..d }),
{
}

/// What a save writes, opening reads back: the same story, with nothing unsaved.
pub proof fn law_save_then_open(d: DocumentView, disk: DiskView)
    requires
        save_outcome(d, disk) is Ok,
    ensures
        open_outcome(d.path, DiskView::Contents(save_outcome(d, disk)->Ok_0.0)) matches Ok(n)
            && n.story == d.story && !is_dirty(n),
{
    crate::format::law_decode_encode(d.story);
}

/// A save is refused, and nothing is written, when the file changed since it was last
/// read or written.
pub proof fn law_changed_file_refused(d: DocumentView, current: Seq<u8>)
    requires
        valid_story(d.story),
        d.saved matches Some(s) && s.bytes != current,
    ensures
        save_outcome(d, DiskView::Contents(current)) == Err::<(Seq<u8>, bool), Seq<char>>(changed_message()),
{
}

/// A new manuscript is never written over a file that appeared at its path.
pub proof fn law_new_never_overwrites(d: DocumentView, current: Seq<u8>)
    requires
        valid_story(d.story),
        d.saved is None,
    ensures
        save_outcome(d, DiskView::Contents(current)) == Err::<(Seq<u8>, bool), Seq<char>>(changed_message()),
{
}

} // verus!
