//! The writing desk's state machine: the outline, the writing pane, the dialogs, the undo
//! history and the decision behind every key. Terminal input, files and the clock belong
//! to the caller: each key arrives with the current time in nanoseconds, and the work
//! this module cannot do itself comes back as an [`Effect`], whose outcome the caller
//! reports through the matching `*_done` or `*_checked` method.
use vstd::prelude::*;
use vstd::string::*;
use crate::document::{is_dirty, save_outcome, Disk, Document, DocumentView, SavedView};
use crate::editor::{fresh, insert_cursor, insert_text, key_effect, roomy, Editor, EditorView};
use crate::export::{html_path, named_after, render_html, with_extension};
use crate::format::spec_encode;
use crate::keys::{KeyCode, KeyEvent};
use crate::story::{
    block_words, is_color, kind_at, kind_label, palette, story_error, valid_color, valid_story,
    BlockView, Character, CharacterView, Kind, Story, StoryBlock, StoryView, PALETTE_LEN,
};
use crate::text::{byte_len, is_blank, is_ws, push_str, trim, trimmed, utf8_size};

verus! {

broadcast use vstd::seq_lib::group_seq_properties;

// ---------------------------------------------------------------------------------------
// Types
// ---------------------------------------------------------------------------------------

/// A labelled text field of a dialog.
pub struct Field {
    pub label: &'static str,
    pub editor: Editor,
}

/// What a dialog edits.
#[derive(Clone, Copy, Debug, PartialEq, Eq)]
pub enum FormKind {
    Metadata,
    /// A character: an existing one by ID, or a new one.
    Character(Option<u64>),
    Export,
    SaveCopy,
}

/// A dialog of text fields.
pub struct Form {
    pub kind: FormKind,
    pub title: &'static str,
    pub fields: Vec<Field>,
    pub selected: usize,
    pub error: String,
}

/// A question that needs an explicit answer.
pub enum Confirm {
    Quit,
    DeleteBlock,
    DeleteCharacter(u64),
    /// Replace the file at this path with an export.
    Overwrite(String),
}

/// What is shown over the manuscript.
pub enum Modal {
    Help,
    Add,
    Cast,
    Form(Form),
    Confirm(Confirm),
}

/// Work for the caller after a key.
pub enum Effect {
    Nothing,
    /// Read the manuscript's path and pass what was found to [`App::save_checked`];
    /// `quit` says whether a successful save ends the session.
    Save { quit: bool },
    /// Write `bytes` to `path` (replacing a file only when `overwrite`) and report the
    /// outcome to [`App::save_done`].
    WriteSave { path: String, bytes: Vec<u8>, overwrite: bool, quit: bool },
    /// Find whether the export path of the open dialog is the manuscript's own file and
    /// whether a file is there, and pass both to [`App::export_checked`].
    CheckExport,
    /// Write `html` to `path` (replacing a file only when `overwrite`) and report the
    /// outcome to [`App::export_done`].
    WriteExport { path: String, html: String, overwrite: bool },
    /// Write `bytes` to the new file `path` and report the outcome to [`App::copy_done`].
    WriteCopy { path: String, bytes: Vec<u8> },
}

/// The whole state of a writing session.
pub struct App {
    pub document: Document,
    pub selected: usize,
    pub editing: bool,
    pub editor: Editor,
    pub modal: Option<Modal>,
    pub cast_selected: usize,
    pub status: String,
    pub error: bool,
    pub editor_width: usize,
    pub outline_scroll: usize,
    pub preview_scroll: u16,
    pub help_scroll: u16,
    pub undo: Vec<Story>,
    pub redo: Vec<Story>,
    /// When the writing pane last changed the text, in nanoseconds, while a run of
    /// typing is grouped into one undo step.
    pub last_edit: Option<u64>,
    pub quit: bool,
}

// ---------------------------------------------------------------------------------------
// Views
// ---------------------------------------------------------------------------------------

pub struct FieldView {
    pub label: Seq<char>,
    pub editor: EditorView,
}

pub struct FormView {
    pub kind: FormKind,
    pub title: Seq<char>,
    pub fields: Seq<FieldView>,
    pub selected: usize,
    pub error: Seq<char>,
}

pub enum ConfirmView {
    Quit,
    DeleteBlock,
    DeleteCharacter(u64),
    Overwrite(Seq<char>),
}

pub enum ModalView {
    Help,
    Add,
    Cast,
    Form(FormView),
    Confirm(ConfirmView),
}

pub enum EffectView {
    Nothing,
    Save { quit: bool },
    WriteSave { path: Seq<char>, bytes: Seq<u8>, overwrite: bool, quit: bool },
    CheckExport,
    WriteExport { path: Seq<char>, html: Seq<char>, overwrite: bool },
    WriteCopy { path: Seq<char>, bytes: Seq<u8> },
}

pub struct AppView {
    pub document: DocumentView,
    pub selected: usize,
    pub editing: bool,
    pub editor: EditorView,
    pub modal: Option<ModalView>,
    pub cast_selected: usize,
    pub status: Seq<char>,
    pub error: bool,
    pub editor_width: usize,
    pub outline_scroll: usize,
    pub preview_scroll: u16,
    pub help_scroll: u16,
    pub undo: Seq<StoryView>,
    pub redo: Seq<StoryView>,
    pub last_edit: Option<u64>,
    pub quit: bool,
}

impl View for Field {
    type V = FieldView;

    open spec fn view(&self) -> FieldView {
        FieldView { label: self.label@, editor: self.editor@ }
    }
}

impl View for Form {
    type V = FormView;

    open spec fn view(&self) -> FormView {
        FormView {
            kind: self.kind,
            title: self.title@,
            fields: self.fields@.map_values(|f: Field| f@),
            selected: self.selected,
            error: self.error@,
        }
    }
}

impl View for Confirm {
    type V = ConfirmView;

    open spec fn view(&self) -> ConfirmView {
        match self {
            Confirm::Quit => ConfirmView::Quit,
            Confirm::DeleteBlock => ConfirmView::DeleteBlock,
            Confirm::DeleteCharacter(id) => ConfirmView::DeleteCharacter(*id),
            Confirm::Overwrite(p) => ConfirmView::Overwrite(p@),
        }
    }
}

impl View for Modal {
    type V = ModalView;

    open spec fn view(&self) -> ModalView {
        match self {
            Modal::Help => ModalView::Help,
            Modal::Add => ModalView::Add,
            Modal::Cast => ModalView::Cast,
            Modal::Form(f) => ModalView::Form(f@),
            Modal::Confirm(c) => ModalView::Confirm(c@),
        }
    }
}

impl View for Effect {
    type V = EffectView;

    open spec fn view(&self) -> EffectView {
        match self {
            Effect::Nothing => EffectView::Nothing,
            Effect::Save { quit } => EffectView::Save { quit: *quit },
            Effect::WriteSave { path, bytes, overwrite, quit } => EffectView::WriteSave {
                path: path@,
                bytes: bytes@,
                overwrite: *overwrite,
                quit: *quit,
            },
            Effect::CheckExport => EffectView::CheckExport,
            Effect::WriteExport { path, html, overwrite } => EffectView::WriteExport {
                path: path@,
                html: html@,
                overwrite: *overwrite,
            },
            Effect::WriteCopy { path, bytes } => EffectView::WriteCopy { path: path@, bytes: bytes@ },
        }
    }
}

/// The modal as plain values.
pub open spec fn modal_view(m: Option<Modal>) -> Option<ModalView> {
    match m {
        None => None,
        Some(m) => Some(m@),
    }
}

/// Stories as plain values.
pub open spec fn story_views(v: Seq<Story>) -> Seq<StoryView> {
    v.map_values(|s: Story| s@)
}

impl View for App {
    type V = AppView;

    open spec fn view(&self) -> AppView {
        AppView {
            document: self.document@,
            selected: self.selected,
            editing: self.editing,
            editor: self.editor@,
            modal: modal_view(self.modal),
            cast_selected: self.cast_selected,
            status: self.status@,
            error: self.error,
            editor_width: self.editor_width,
            outline_scroll: self.outline_scroll,
            preview_scroll: self.preview_scroll,
            help_scroll: self.help_scroll,
            undo: story_views(self.undo@),
            redo: story_views(self.redo@),
            last_edit: self.last_edit,
            quit: self.quit,
        }
    }
}

// ---------------------------------------------------------------------------------------
// The invariant
// ---------------------------------------------------------------------------------------

/// The most change groups that undo keeps.
pub const UNDO_LIMIT: usize = 100;

/// An editor whose cursor lies between characters.
pub open spec fn editor_ok(e: EditorView) -> bool {
    crate::editor::cursor_ok(e.text, e.cursor as int) && byte_len(e.text) <= usize::MAX
}

/// The number of fields each kind of dialog has.
pub open spec fn field_count(k: FormKind) -> nat {
    match k {
        FormKind::Metadata => 3,
        FormKind::Character(_) => 3,
        FormKind::Export => 1,
        FormKind::SaveCopy => 1,
    }
}

/// A dialog with its kind's fields, a selected field and well-placed cursors.
pub open spec fn form_ok(f: FormView) -> bool {
    &&& f.fields.len() == field_count(f.kind)
    &&& f.selected < f.fields.len()
    &&& forall|i: int| 0 <= i < f.fields.len() ==> editor_ok(#[trigger] f.fields[i].editor)
}

/// What every state of a session satisfies: there is a block and it is selected, the
/// writing pane holds the selected block's text, the cast selection is a character when
/// there are any, open dialogs are well formed, and undo keeps at most the limit.
pub open spec fn app_ok(v: AppView) -> bool {
    &&& frame_ok(v)
    &&& v.editor.text == v.document.story.blocks[v.selected as int].text
}

/// The invariant but for the writing pane showing the selected block's text; it also
/// bounds the undo and redo stacks together by the limit, and every story on them has a
/// block.
pub open spec fn frame_ok(v: AppView) -> bool {
    let story = v.document.story;
    &&& story.blocks.len() >= 1
    &&& v.selected < story.blocks.len()
    &&& editor_ok(v.editor)
    &&& (v.cast_selected == 0 || v.cast_selected < story.characters.len())
    &&& (v.modal matches Some(ModalView::Form(f)) ==> form_ok(f))
    &&& v.undo.len() + v.redo.len() <= UNDO_LIMIT
    &&& forall|i: int| 0 <= i < v.undo.len() ==> (#[trigger] v.undo[i]).blocks.len() >= 1
    &&& forall|i: int| 0 <= i < v.redo.len() ==> (#[trigger] v.redo[i]).blocks.len() >= 1
}

/// Every text a key could edit is small enough for the editor's arithmetic.
pub open spec fn app_roomy(v: AppView) -> bool {
    &&& roomy(v.editor.text)
    &&& v.document.story.characters.len() < u64::MAX
    &&& block_words(v.document.story.blocks) <= usize::MAX
    &&& v.editor_width <= usize::MAX / 4
    &&& (v.modal matches Some(ModalView::Form(f)) ==> forall|i: int|
        0 <= i < f.fields.len() ==> roomy(#[trigger] f.fields[i].editor.text))
}

impl App {
    /// The session invariant.
    pub open spec fn wf(&self) -> bool {
        app_ok(self@)
    }
}

// ---------------------------------------------------------------------------------------
// Small steps
// ---------------------------------------------------------------------------------------

/// The first message of a session.
pub open spec fn welcome() -> Seq<char> {
    "Welcome. Enter to write · n to add a block · c for characters · ? for help"@
}

/// A new session on a document: the first block selected, in the outline.
pub open spec fn initial(d: DocumentView) -> AppView {
    AppView {
        document: d,
        selected: 0,
        editing: false,
        editor: fresh(d.story.blocks[0].text),
        modal: None,
        cast_selected: 0,
        status: welcome(),
        error: false,
        editor_width: 40,
        outline_scroll: 0,
        preview_scroll: 0,
        help_scroll: 0,
        undo: Seq::empty(),
        redo: Seq::empty(),
        last_edit: None,
        quit: false,
    }
}

/// The session with another story.
pub open spec fn with_story(v: AppView, s: StoryView) -> AppView {
    AppView { document: DocumentView { story: s, ..v.document }, ..v }
}

/// A story with block `i` replaced.
pub open spec fn with_block(s: StoryView, i: int, b: BlockView) -> StoryView {
    StoryView { blocks: s.blocks.update(i, b), ..s }
}

/// A status line that reports progress.
pub open spec fn say(v: AppView, m: Seq<char>) -> AppView {
    AppView { status: m, error: false, ..v }
}

/// A status line that reports a failure.
pub open spec fn complain(v: AppView, m: Seq<char>) -> AppView {
    AppView { status: m, error: true, ..v }
}

/// Starts a change group: the story goes on the undo stack unless it is already on top,
/// the oldest group is dropped past the limit, and redo is cleared.
pub open spec fn checkpoint(v: AppView) -> AppView {
    let undo = if v.undo.len() > 0 && v.undo.last() == v.document.story {
        v.undo
    } else {
        let pushed = v.undo.push(v.document.story);
        if pushed.len() > UNDO_LIMIT { pushed.skip(1) } else { pushed }
    };
    AppView { undo, redo: Seq::empty(), last_edit: None, ..v }
}

/// After the story or selection changed: the selection is clamped to the story, the
/// writing pane reloads the selected block and the preview returns to the top.
pub open spec fn synced(v: AppView) -> AppView {
    let n = v.document.story.blocks.len();
    let m = v.document.story.characters.len();
    let selected: usize = if v.selected < n - 1 { v.selected } else { (n - 1) as usize };
    let cast: usize = if m == 0 { 0 } else if v.cast_selected < m - 1 { v.cast_selected } else { (m - 1) as usize };
    AppView {
        selected,
        cast_selected: cast,
        editor: fresh(v.document.story.blocks[selected as int].text),
        last_edit: None,
        preview_scroll: 0,
        ..v
    }
}

/// How long a pause in typing, in nanoseconds, may last within one undo group: 700 ms.
pub const TYPING_PAUSE: u64 = 700_000_000;

/// An edit starts a new undo group unless the previous one was at most 700 ms earlier.
pub open spec fn new_group(last: Option<u64>, now: u64) -> bool {
    match last {
        None => true,
        Some(t) => now > t && now - t > TYPING_PAUSE,
    }
}

/// After the writing pane's text changed from `old`: the selected block takes the new
/// text, in the current undo group or a new one.
pub open spec fn text_changed(v: AppView, old: Seq<char>, now: u64) -> AppView {
    if old == v.editor.text {
        v
    } else {
        let v1 = if new_group(v.last_edit, now) { checkpoint(v) } else { v };
        let b = v1.document.story.blocks[v.selected as int];
        AppView {
            last_edit: Some(now),
            ..with_story(v1, with_block(v1.document.story, v.selected as int, BlockView { text: v.editor.text, ..b }))
        }
    }
}

/// An editor after inserting `s`.
pub open spec fn inserted(e: EditorView, s: Seq<char>) -> EditorView {
    EditorView {
        text: insert_text(e.text, e.cursor as int, s),
        cursor: insert_cursor(e.text, e.cursor as int, s) as usize,
        scroll: e.scroll,
    }
}

/// Text with line breaks turned into spaces, for single-line fields.
pub open spec fn one_line(s: Seq<char>) -> Seq<char> {
    s.map_values(|c: char| if c == '\r' || c == '\n' { ' ' } else { c })
}

/// A dialog with the selected field's editor replaced.
pub open spec fn with_field(f: FormView, e: EditorView) -> FormView {
    FormView { fields: f.fields.update(f.selected as int, FieldView { editor: e, ..f.fields[f.selected as int] }), ..f }
}

/// Pasted text: into the selected dialog field on one line, or into the writing pane as
/// a change group of its own.
pub open spec fn pasted(v: AppView, s: Seq<char>) -> AppView {
    match v.modal {
        Some(ModalView::Form(f)) => AppView {
            modal: Some(ModalView::Form(with_field(f, inserted(f.fields[f.selected as int].editor, one_line(s))))),
            ..v
        },
        None => if v.editing {
            let v1 = AppView { last_edit: None, editor: inserted(v.editor, s), ..v };
            AppView { last_edit: None, ..text_changed(v1, v.editor.text, 0) }
        } else {
            v
        },
        _ => v,
    }
}

/// Text with line breaks turned into spaces.
fn one_line_text(s: &str) -> (r: String)
    ensures
        r@ == one_line(s@),
{
    let cs = crate::text::chars_of(s);
    let mut r = String::new();
    let mut i: usize = 0;
    while i < cs.len()
        invariant
            i <= cs@.len(),
            cs@ == s@,
            r@ == one_line(s@).take(i as int),
        decreases cs@.len() - i,
    {
        let c = cs[i];
        crate::text::push_char(&mut r, if c == '\r' || c == '\n' { ' ' } else { c });
        i += 1;
        assert(r@ =~= one_line(s@).take(i as int));
    }
    assert(one_line(s@).take(cs@.len() as int) =~= one_line(s@));
    r
}

/// The dialog for the story's title, subtitle and author.
pub open spec fn metadata_form(v: AppView) -> AppView {
    let s = v.document.story;
    AppView {
        modal: Some(ModalView::Form(form_of(
            FormKind::Metadata,
            " Story details "@,
            seq![("Title"@, s.title), ("Subtitle"@, s.subtitle), ("Author"@, s.author)],
        ))),
        ..v
    }
}

/// The export dialog, suggesting the file `p`.
pub open spec fn export_form(v: AppView, p: Seq<char>) -> AppView {
    AppView {
        modal: Some(ModalView::Form(form_of(FormKind::Export, " Export story "@, seq![("HTML file"@, p)]))),
        ..v
    }
}

/// The dialog for saving a copy, suggesting the file `p`.
pub open spec fn copy_form(v: AppView, p: Seq<char>) -> AppView {
    AppView {
        modal: Some(ModalView::Form(
            form_of(FormKind::SaveCopy, " Save a copy (new filename) "@, seq![("Story file"@, p)]),
        )),
        ..v
    }
}

/// The text of the first field of the open dialog.
pub open spec fn first_field(v: AppView) -> Seq<char> {
    match v.modal {
        Some(ModalView::Form(f)) => f.fields[0].editor.text,
        _ => Seq::empty(),
    }
}

/// Bold or italic markers typed around the cursor in the writing pane, as one change
/// group: `n` asterisks on each side, the cursor between them. Where a combining mark
/// right after the insertion joins the closing asterisks into a wider cluster, the cursor
/// stays after that cluster.
pub open spec fn formatted(v: AppView, n: nat) -> AppView {
    let marks = Seq::new(2 * n, |i: int| '*');
    let e = inserted(v.editor, marks);
    let back = e.cursor - n;
    let e2 = if back >= 0 && crate::editor::cursor_ok(e.text, back) {
        EditorView { cursor: back as usize, ..e }
    } else {
        e
    };
    let v1 = AppView { last_edit: None, editor: e2, ..v };
    AppView { last_edit: None, ..text_changed(v1, v.editor.text, 0) }
}

/// Quitting: with unsaved changes the choice is asked for, otherwise the session ends.
pub open spec fn quit_requested(v: AppView) -> AppView {
    if is_dirty(v.document) {
        AppView { modal: Some(ModalView::Confirm(ConfirmView::Quit)), ..v }
    } else {
        AppView { quit: true, ..v }
    }
}

// ---------------------------------------------------------------------------------------
// Dialogs
// ---------------------------------------------------------------------------------------

/// The trimmed texts of a dialog's fields.
pub open spec fn values(f: FormView) -> Seq<Seq<char>> {
    f.fields.map_values(|x: FieldView| trim(x.editor.text))
}

/// The dialog shown again with an error.
pub open spec fn reopened(v: AppView, f: FormView, e: Seq<char>) -> AppView {
    AppView { modal: Some(ModalView::Form(FormView { error: e, ..f })), ..v }
}

/// The smallest positive ID that no character has.
pub open spec fn first_free(cs: Seq<CharacterView>) -> u64 {
    choose|x: u64| 1 <= x && !crate::story::has_id(cs, x) && forall|y: u64| 1 <= y < x ==> crate::story::has_id(cs, y)
}

/// The cast after saving a character dialog: an existing ID's entry is replaced, a new
/// character gets the smallest free ID and goes last.
pub open spec fn cast_saved(cs: Seq<CharacterView>, id: Option<u64>, vals: Seq<Seq<char>>) -> Seq<CharacterView> {
    let nid = match id {
        Some(x) => x,
        None => first_free(cs),
    };
    let c = CharacterView { id: nid, name: vals[0], description: vals[1], color: vals[2] };
    match crate::story::find_character(cs, nid) {
        Some(i) => cs.update(i, c),
        None => cs.push(c),
    }
}

/// Saving a character dialog, as one change group; a new character is selected in the
/// cast, which opens again.
pub open spec fn character_saved(v: AppView, id: Option<u64>, vals: Seq<Seq<char>>) -> AppView {
    let v1 = checkpoint(v);
    let s = v1.document.story;
    let cs = cast_saved(s.characters, id, vals);
    let v2 = with_story(v1, StoryView { characters: cs, ..s });
    let v3 = if cs.len() > s.characters.len() { AppView { cast_selected: (cs.len() - 1) as usize, ..v2 } } else { v2 };
    AppView {
        modal: Some(ModalView::Cast),
        ..say(v3, "Character saved · select them and press Enter to assign to this block"@)
    }
}

/// What the export of the story to `path` gives: the page to write, or the reason there
/// is none.
pub open spec fn export_to(v: AppView, path: Seq<char>, overwrite: bool) -> (AppView, EffectView) {
    let s = v.document.story;
    if !valid_story(s) {
        (complain(v, story_error(s)->0), EffectView::Nothing)
    } else if !html_path(path) {
        (complain(v, crate::export::extension_message()), EffectView::Nothing)
    } else {
        (v, EffectView::WriteExport { path, html: render_html(s), overwrite })
    }
}

/// Applying a dialog (already closed in `v`).
pub open spec fn submitted(v: AppView, f: FormView) -> (AppView, EffectView) {
    let vals = values(f);
    match f.kind {
        FormKind::Metadata => if vals[0].len() == 0 {
            (reopened(v, f, "Give your story a title."@), EffectView::Nothing)
        } else {
            let v1 = checkpoint(v);
            let s = v1.document.story;
            (
                say(with_story(v1, StoryView { title: vals[0], subtitle: vals[1], author: vals[2], ..s }), "Story details updated"@),
                EffectView::Nothing,
            )
        },
        FormKind::Character(id) => if vals[0].len() == 0 || !is_color(vals[2]) {
            (reopened(v, f, "A name and a valid #RRGGBB color are required."@), EffectView::Nothing)
        } else {
            (character_saved(v, id, vals), EffectView::Nothing)
        },
        FormKind::Export => (AppView { modal: Some(ModalView::Form(f)), ..v }, EffectView::CheckExport),
        FormKind::SaveCopy => match spec_encode(v.document.story) {
            Ok(b) => (AppView { modal: Some(ModalView::Form(f)), ..v }, EffectView::WriteCopy { path: vals[0], bytes: b }),
            Err(e) => (reopened(v, f, e), EffectView::Nothing),
        },
    }
}

/// The message for an export onto the manuscript itself.
pub open spec fn same_path_message() -> Seq<char> {
    "The export must use a different path from your story."@
}

/// After the caller found whether the open export dialog's path is the manuscript's own
/// file (`same`) and whether a file is there (`exists`): the first is refused, the second
/// asks before replacing, otherwise the export goes ahead.
pub open spec fn export_checked(v: AppView, same: bool, exists: bool) -> (AppView, EffectView) {
    match v.modal {
        Some(ModalView::Form(f)) => if f.kind == FormKind::Export {
            let path = values(f)[0];
            if same {
                (reopened(v, f, same_path_message()), EffectView::Nothing)
            } else if exists {
                (AppView { modal: Some(ModalView::Confirm(ConfirmView::Overwrite(path))), ..v }, EffectView::Nothing)
            } else {
                export_to(AppView { modal: None, ..v }, path, false)
            }
        } else {
            (v, EffectView::Nothing)
        },
        _ => (v, EffectView::Nothing),
    }
}

/// The outcome of reading the manuscript's path before a save: the bytes to write, or the
/// reason the save is refused.
pub open spec fn save_checked(v: AppView, disk: crate::document::DiskView, quit: bool) -> (AppView, EffectView) {
    match save_outcome(v.document, disk) {
        Ok((b, o)) => (v, EffectView::WriteSave { path: v.document.path, bytes: b, overwrite: o, quit }),
        Err(e) => (complain(v, e), EffectView::Nothing),
    }
}

/// After the caller wrote a save: the document remembers what it wrote, and the session
/// ends when the save was the answer to quitting.
pub open spec fn save_done(v: AppView, bytes: Seq<u8>, quit: bool, ok: Option<Seq<char>>) -> AppView {
    match ok {
        None => {
            let d = DocumentView { saved: Some(SavedView { bytes, story: v.document.story }), ..v.document };
            let v1 = say(AppView { document: d, last_edit: None, ..v }, "Saved "@ + v.document.path);
            if quit { AppView { quit: true, ..v1 } } else { v1 }
        },
        Some(e) => complain(v, e),
    }
}

/// After the caller wrote an export.
pub open spec fn export_done(v: AppView, path: Seq<char>, ok: Option<Seq<char>>) -> AppView {
    match ok {
        None => say(v, "Exported "@ + path + " · private notes omitted"@),
        Some(e) => complain(v, e),
    }
}

/// After the caller wrote a copy: the document continues at the copy's path and the
/// dialog closes, or the dialog shows why the copy failed.
pub open spec fn copy_done(v: AppView, path: Seq<char>, bytes: Seq<u8>, ok: Option<Seq<char>>) -> AppView {
    match ok {
        None => {
            let d = DocumentView { path, saved: Some(SavedView { bytes, story: v.document.story }), ..v.document };
            say(AppView { document: d, modal: None, ..v }, "Saved copy to "@ + path)
        },
        Some(e) => match v.modal {
            Some(ModalView::Form(f)) => reopened(v, f, e),
            _ => complain(v, e),
        },
    }
}

/// The error of an outcome, if any.
pub open spec fn failed(r: Result<(), String>) -> Option<Seq<char>> {
    match r {
        Ok(()) => None,
        Err(e) => Some(e@),
    }
}

// ---------------------------------------------------------------------------------------
// Keys
// ---------------------------------------------------------------------------------------

/// An editor after a key.
pub open spec fn keyed(e: EditorView, key: KeyEvent, width: usize, multiline: bool) -> EditorView {
    let (t, c) = key_effect(e.text, e.cursor as int, key, width, multiline);
    EditorView { text: t, cursor: c as usize, scroll: e.scroll }
}

/// The block type of a digit key `1` to `8`.
pub open spec fn digit_kind(c: char) -> Option<Kind> {
    if '1' <= c <= '8' { Some(kind_at(c as int - '1' as int)) } else { None }
}

/// The position of a palette color, if the text is one.
pub open spec fn palette_index(t: Seq<char>) -> Option<int> {
    if exists|k: int| 0 <= k < PALETTE_LEN && palette(k) == t {
        Some(choose|k: int| 0 <= k < PALETTE_LEN && palette(k) == t && forall|j: int| 0 <= j < k ==> palette(j) != t)
    } else {
        None
    }
}

/// The help screen: arrows and page keys scroll (at most 23 lines); `?`, F1 and Enter
/// close it, other keys keep it open.
pub open spec fn help_step(v: AppView, code: KeyCode) -> AppView {
    let h = v.help_scroll;
    let scrolled: u16 = match code {
        KeyCode::Down => if h + 1 < 23 { (h + 1) as u16 } else { 23 },
        KeyCode::Char('j') => if h + 1 < 23 { (h + 1) as u16 } else { 23 },
        KeyCode::Up => if h > 0 { (h - 1) as u16 } else { 0 },
        KeyCode::Char('k') => if h > 0 { (h - 1) as u16 } else { 0 },
        KeyCode::PageDown => if h + 6 < 23 { (h + 6) as u16 } else { 23 },
        KeyCode::PageUp => if h > 6 { (h - 6) as u16 } else { 0 },
        _ => h,
    };
    let closes = code == KeyCode::Char('?') || code == KeyCode::F(1) || code == KeyCode::Enter;
    if closes {
        AppView { help_scroll: 0, ..v }
    } else {
        AppView { help_scroll: scrolled, modal: Some(ModalView::Help), ..v }
    }
}

/// The cast dialog.
pub open spec fn cast_step(v0: AppView, code: KeyCode) -> AppView {
    let v = AppView { modal: Some(ModalView::Cast), ..v0 };
    let cs = v.document.story.characters;
    let n = cs.len();
    let c = v.cast_selected;
    if code == KeyCode::Char('n') {
        character_form(v, None)
    } else if code == KeyCode::Char('e') && n > 0 {
        character_form(v, Some(cs[c as int].id))
    } else if (code == KeyCode::Char('d') || code == KeyCode::Delete) && n > 0 {
        AppView { modal: Some(ModalView::Confirm(ConfirmView::DeleteCharacter(cs[c as int].id))), ..v }
    } else if code == KeyCode::Up || code == KeyCode::Char('k') {
        AppView { cast_selected: if c > 0 { (c - 1) as usize } else { 0 }, ..v }
    } else if code == KeyCode::Down || code == KeyCode::Char('j') {
        let last: int = if n > 0 { n - 1 } else { 0 };
        AppView { cast_selected: if c + 1 < last { (c + 1) as usize } else { last as usize }, ..v }
    } else if code == KeyCode::Enter && n > 0 {
        say(AppView { modal: None, ..assigned(checkpoint(v), Some(cs[c as int].id)) }, "Character assigned"@)
    } else if code == KeyCode::Char('0') {
        AppView { modal: None, ..assigned(checkpoint(v), None) }
    } else {
        v
    }
}

/// A dialog shown again, changed.
pub open spec fn reform(v: AppView, f: FormView) -> AppView {
    AppView { modal: Some(ModalView::Form(f)), ..v }
}

/// A dialog: Enter applies it, Tab and Shift+Tab (or the arrows) move between fields,
/// Ctrl+U clears a field, Ctrl+P cycles the palette in a character's color field, and
/// other keys edit the selected field on one line.
pub open spec fn form_step(v: AppView, f: FormView, key: KeyEvent) -> (AppView, EffectView) {
    let code = key.code;
    let n = f.fields.len();
    if code == KeyCode::Char('u') && key.control {
        (reform(v, with_field(f, fresh(Seq::empty()))), EffectView::Nothing)
    } else if code == KeyCode::Enter {
        submitted(v, f)
    } else if code == KeyCode::Tab || code == KeyCode::Down {
        (reform(v, FormView { selected: ((f.selected + 1) % n as int) as usize, ..f }), EffectView::Nothing)
    } else if code == KeyCode::BackTab || code == KeyCode::Up {
        (reform(v, FormView { selected: ((f.selected + n - 1) % n as int) as usize, ..f }), EffectView::Nothing)
    } else if code == KeyCode::Char('p') && key.control && f.kind is Character {
        let next = match palette_index(f.fields[2].editor.text) {
            Some(k) => (k + 1) % PALETTE_LEN as int,
            None => 0,
        };
        (
            reform(v, FormView { fields: f.fields.update(2, FieldView { editor: fresh(palette(next)), ..f.fields[2] }), ..f }),
            EffectView::Nothing,
        )
    } else {
        (reform(v, with_field(f, keyed(f.fields[f.selected as int].editor, key, 60, false))), EffectView::Nothing)
    }
}

/// A question: only its answers act, `n` closes it, other keys keep it open.
pub open spec fn confirm_step(v: AppView, c: ConfirmView, code: KeyCode) -> (AppView, EffectView) {
    match c {
        ConfirmView::Quit => if code == KeyCode::Char('s') {
            (v, EffectView::Save { quit: true })
        } else if code == KeyCode::Char('d') {
            (AppView { quit: true, ..v }, EffectView::Nothing)
        } else if code == KeyCode::Char('n') {
            (v, EffectView::Nothing)
        } else {
            (AppView { modal: Some(ModalView::Confirm(c)), ..v }, EffectView::Nothing)
        },
        ConfirmView::DeleteBlock => if code == KeyCode::Char('y') {
            (deleted(v), EffectView::Nothing)
        } else if code == KeyCode::Char('n') {
            (v, EffectView::Nothing)
        } else {
            (AppView { modal: Some(ModalView::Confirm(c)), ..v }, EffectView::Nothing)
        },
        ConfirmView::DeleteCharacter(id) => if code == KeyCode::Char('y') {
            (character_deleted(v, id), EffectView::Nothing)
        } else if code == KeyCode::Char('n') {
            (v, EffectView::Nothing)
        } else {
            (AppView { modal: Some(ModalView::Confirm(c)), ..v }, EffectView::Nothing)
        },
        ConfirmView::Overwrite(p) => if code == KeyCode::Char('y') {
            export_to(v, p, true)
        } else if code == KeyCode::Char('n') {
            (v, EffectView::Nothing)
        } else {
            (AppView { modal: Some(ModalView::Confirm(c)), ..v }, EffectView::Nothing)
        },
    }
}

/// A key while a modal `m` was open (`v` has it closed): Esc closes it (a character
/// dialog returns to the cast).
pub open spec fn modal_step(v: AppView, m: ModalView, key: KeyEvent) -> (AppView, EffectView) {
    if key.code == KeyCode::Esc {
        if m matches ModalView::Form(f) && f.kind is Character {
            (AppView { modal: Some(ModalView::Cast), ..v }, EffectView::Nothing)
        } else {
            (v, EffectView::Nothing)
        }
    } else {
        match m {
            ModalView::Help => (help_step(v, key.code), EffectView::Nothing),
            ModalView::Add => match key.code {
                KeyCode::Char(c) => match digit_kind(c) {
                    Some(k) => (added(v, k), EffectView::Nothing),
                    None => (AppView { modal: Some(ModalView::Add), ..v }, EffectView::Nothing),
                },
                _ => (AppView { modal: Some(ModalView::Add), ..v }, EffectView::Nothing),
            },
            ModalView::Cast => (cast_step(v, key.code), EffectView::Nothing),
            ModalView::Form(f) => form_step(v, f, key),
            ModalView::Confirm(c) => confirm_step(v, c, key.code),
        }
    }
}

/// The outline: keys select, move, add, delete, retype and assign blocks, and open the
/// dialogs.
pub open spec fn outline_step(v: AppView, code: KeyCode) -> (AppView, EffectView) {
    let n = v.document.story.blocks.len();
    let sel = v.selected;
    let none = EffectView::Nothing;
    match code {
        KeyCode::Char('q') => (quit_requested(v), none),
        KeyCode::Char('?') => (AppView { modal: Some(ModalView::Help), ..v }, none),
        KeyCode::Char('n') => (AppView { modal: Some(ModalView::Add), ..v }, none),
        KeyCode::Char('c') => (AppView { modal: Some(ModalView::Cast), ..v }, none),
        KeyCode::Char('t') => (metadata_form(v), none),
        KeyCode::Char('s') => (v, EffectView::Save { quit: false }),
        KeyCode::Char('u') => (undone(v, false), none),
        KeyCode::Char('r') => (undone(v, true), none),
        KeyCode::Enter | KeyCode::Char('i') => if v.document.story.blocks[sel as int].kind == Kind::Divider {
            (say(v, "Scene breaks have no text. Press 1–8 to change the block type."@), none)
        } else {
            (AppView { editing: true, last_edit: None, ..v }, none)
        },
        KeyCode::Up | KeyCode::Char('k') => (synced(AppView { selected: if sel > 0 { (sel - 1) as usize } else { 0 }, ..v }), none),
        KeyCode::Down | KeyCode::Char('j') => (
            synced(AppView { selected: if sel + 1 < n - 1 { (sel + 1) as usize } else { (n - 1) as usize }, ..v }),
            none,
        ),
        KeyCode::Home => (synced(AppView { selected: 0, ..v }), none),
        KeyCode::End => (synced(AppView { selected: (n - 1) as usize, ..v }), none),
        KeyCode::PageDown => (
            AppView { preview_scroll: if v.preview_scroll + 5 <= u16::MAX { (v.preview_scroll + 5) as u16 } else { u16::MAX }, ..v },
            none,
        ),
        KeyCode::PageUp => (AppView { preview_scroll: if v.preview_scroll > 5 { (v.preview_scroll - 5) as u16 } else { 0 }, ..v }, none),
        KeyCode::Char('J') => (moved(v, true), none),
        KeyCode::Char('K') => (moved(v, false), none),
        KeyCode::Char('d') | KeyCode::Delete => (AppView { modal: Some(ModalView::Confirm(ConfirmView::DeleteBlock)), ..v }, none),
        KeyCode::Char('D') => (duplicated(v), none),
        KeyCode::Tab => (cycled(v), none),
        KeyCode::Char(c) => match digit_kind(c) {
            Some(k) => (say(retyped(checkpoint(v), k), "Block changed to "@ + kind_label(k)), none),
            None => (v, none),
        },
        _ => (v, none),
    }
}

/// Whether `(w, e)` is `p`.
pub open spec fn is(w: AppView, e: EffectView, p: (AppView, EffectView)) -> bool {
    w == p.0 && e == p.1
}

/// Keys with Control held.
pub open spec fn control_outcome(v: AppView, code: KeyCode, w: AppView, e: EffectView) -> bool {
    let none = EffectView::Nothing;
    match code {
        KeyCode::Char('s') => is(w, e, (v, EffectView::Save { quit: false })),
        KeyCode::Char('e') => w == export_form(v, first_field(w)) && named_after(v.document.path, first_field(w), "html"@)
            && e == none,
        KeyCode::Char('q') | KeyCode::Char('c') => is(w, e, (quit_requested(v), none)),
        KeyCode::Char('n') => is(w, e, (AppView { modal: Some(ModalView::Add), ..v }, none)),
        KeyCode::Char('k') => is(w, e, (AppView { modal: Some(ModalView::Cast), ..v }, none)),
        KeyCode::Char('t') => is(w, e, (metadata_form(v), none)),
        KeyCode::Char('z') => is(w, e, (undone(v, false), none)),
        KeyCode::Char('y') => is(w, e, (undone(v, true), none)),
        KeyCode::Char('b') => is(w, e, (if v.editing { formatted(v, 2) } else { v }, none)),
        KeyCode::Char('i') => is(w, e, (if v.editing { formatted(v, 1) } else { v }, none)),
        _ => is(w, e, (v, none)),
    }
}

/// Keys without Control, and no modal open: function keys open dialogs; while writing,
/// Esc returns to the outline, Tab cycles the speaker and other keys edit the text.
pub open spec fn plain_outcome(v: AppView, key: KeyEvent, now: u64, w: AppView, e: EffectView) -> bool {
    let none = EffectView::Nothing;
    let code = key.code;
    if code == KeyCode::F(1) {
        is(w, e, (AppView { modal: Some(ModalView::Help), ..v }, none))
    } else if code == KeyCode::F(2) {
        is(w, e, (metadata_form(v), none))
    } else if code == KeyCode::F(4) {
        w == copy_form(v, first_field(w)) && named_after(v.document.path, first_field(w), "copy.playrite"@)
            && e == none
    } else if code == KeyCode::F(5) {
        w == export_form(v, first_field(w)) && named_after(v.document.path, first_field(w), "html"@)
            && e == none
    } else if v.editing {
        if code == KeyCode::Esc {
            is(w, e, (AppView { editing: false, last_edit: None, ..v }, none))
        } else if code == KeyCode::Tab {
            is(w, e, (cycled(v), none))
        } else {
            is(w, e, (text_changed(AppView { editor: keyed(v.editor, key, v.editor_width, true), ..v }, v.editor.text, now), none))
        }
    } else {
        is(w, e, outline_step(v, code))
    }
}

/// What a key does to a session `v`, giving `w` and the work `e` for the caller. Key
/// releases do nothing; an open modal takes the key.
pub open spec fn key_outcome(v: AppView, key: KeyEvent, now: u64, w: AppView, e: EffectView) -> bool {
    if key.release {
        is(w, e, (v, EffectView::Nothing))
    } else {
        match v.modal {
            Some(m) => is(w, e, modal_step(AppView { modal: None, ..v }, m, key)),
            None => if key.control {
                control_outcome(v, key.code, w, e)
            } else {
                plain_outcome(v, key, now, w, e)
            },
        }
    }
}

impl Form {
    /// Inserts text into the selected field.
    fn field_insert(&mut self, text: &str)
        requires
            form_ok(old(self)@),
            roomy(old(self)@.fields[old(self).selected as int].editor.text),
            text@.len() <= usize::MAX / 16,
        ensures
            final(self)@ == with_field(old(self)@, inserted(old(self)@.fields[old(self).selected as int].editor, text@)),
            form_ok(final(self)@),
    {
        let i = self.selected;
        assert(self@.fields[i as int] == self.fields@[i as int]@);
        let mut f = self.fields.remove(i);
        f.editor.insert(text);
        self.fields.insert(i, f);
        let ghost old_fields = old(self)@.fields;
        assert(self@.fields =~= old_fields.update(i as int, f@));
    }
}

impl App {
    /// A session on `document`, with the first block selected in the outline.
    pub fn new(document: Document) -> (r: App)
        requires
            document@.story.blocks.len() >= 1,
        ensures
            r@ == initial(document@),
            r.wf(),
    {
        assert(document@.story.blocks[0] == document.story.blocks@[0]@);
        let editor = Editor::new(document.story.blocks[0].text.clone());
        let r = App {
            document,
            selected: 0,
            editing: false,
            editor,
            modal: None,
            cast_selected: 0,
            status: String::from_str("Welcome. Enter to write · n to add a block · c for characters · ? for help"),
            error: false,
            editor_width: 40,
            outline_scroll: 0,
            preview_scroll: 0,
            help_scroll: 0,
            undo: Vec::new(),
            redo: Vec::new(),
            last_edit: None,
            quit: false,
        };
        assert(r@.undo =~= Seq::<StoryView>::empty());
        assert(r@.redo =~= Seq::<StoryView>::empty());
        r
    }

    /// The selected block.
    pub fn block(&self) -> (r: &StoryBlock)
        requires
            self.wf(),
        ensures
            r@ == self@.document.story.blocks[self.selected as int],
    {
        &self.document.story.blocks[self.selected]
    }

    /// Whether every text a key could edit is small enough for the editor.
    pub fn fits(&self) -> (r: bool)
        requires
            self.wf(),
        ensures
            r == app_roomy(self@),
    {
        if !self.editor.has_room() || self.editor_width > usize::MAX / 4
            || !((self.document.story.characters.len() as u64) < u64::MAX) || !self.document.story.words_fit() {
            return false;
        }
        match &self.modal {
            Some(Modal::Form(f)) => {
                let mut i: usize = 0;
                while i < f.fields.len()
                    invariant
                        i <= f.fields@.len(),
                        self@.modal == Some(ModalView::Form(f@)),
                        forall|k: int| 0 <= k < i ==> roomy(#[trigger] f@.fields[k].editor.text),
                    decreases f.fields@.len() - i,
                {
                    assert(f@.fields[i as int] == f.fields@[i as int]@);
                    if !f.fields[i].editor.has_room() {
                        assert(!roomy(f@.fields[i as int].editor.text));
                        return false;
                    }
                    i += 1;
                }
                true
            },
            _ => true,
        }
    }

    fn message(&mut self, m: String)
        ensures
            final(self)@ == say(old(self)@, m@),
    {
        self.status = m;
        self.error = false;
    }

    fn failure(&mut self, m: String)
        ensures
            final(self)@ == complain(old(self)@, m@),
    {
        self.status = m;
        self.error = true;
    }

    fn checkpoint(&mut self)
        ensures
            final(self)@ == checkpoint(old(self)@),
    {
        let n = self.undo.len();
        let on_top = n > 0 && self.undo[n - 1].same(&self.document.story);
        if !on_top {
            self.undo.push(self.document.story.duplicate());
            assert(story_views(self.undo@) =~= story_views(old(self).undo@).push(old(self)@.document.story));
            if self.undo.len() > UNDO_LIMIT {
                self.undo.remove(0);
                assert(story_views(self.undo@) =~= story_views(old(self).undo@).push(old(self)@.document.story).skip(1));
            }
        } else {
            assert(story_views(self.undo@).last() == self.undo@[n - 1]@);
        }
        self.redo.clear();
        self.last_edit = None;
        assert(story_views(self.redo@) =~= Seq::<StoryView>::empty());
    }

    fn sync_editor(&mut self)
        requires
            old(self)@.document.story.blocks.len() >= 1,
        ensures
            final(self)@ == synced(old(self)@),
            final(self).editor.wf(),
    {
        let n = self.document.story.blocks.len();
        if self.selected >= n - 1 {
            self.selected = n - 1;
        }
        let m = self.document.story.characters.len();
        if m == 0 {
            self.cast_selected = 0;
        } else if self.cast_selected >= m - 1 {
            self.cast_selected = m - 1;
        }
        assert(self@.document.story.blocks[self.selected as int] == self.document.story.blocks@[self.selected as int]@);
        self.editor = Editor::new(self.document.story.blocks[self.selected].text.clone());
        self.last_edit = None;
        self.preview_scroll = 0;
    }

    fn text_changed(&mut self, old_text: &String, now: u64)
        requires
            frame_ok(old(self)@),
            old_text@ == old(self)@.document.story.blocks[old(self).selected as int].text,
        ensures
            final(self)@ == text_changed(old(self)@, old_text@, now),
            app_ok(final(self)@),
    {
        if !crate::text::same_text(old_text, &self.editor.text) {
            let group = match self.last_edit {
                None => true,
                Some(t) => now > t && now - t > TYPING_PAUSE,
            };
            if group {
                self.checkpoint();
            }
            let i = self.selected;
            assert(self@.document.story.blocks[i as int] == self.document.story.blocks@[i as int]@);
            let mut b = self.document.story.blocks[i].duplicate();
            b.text = self.editor.text.clone();
            self.document.story.blocks.set(i, b);
            self.last_edit = Some(now);
            assert(self@.document.story.blocks =~= old(self)@.document.story.blocks.update(
                i as int,
                BlockView { text: old(self)@.editor.text, ..old(self)@.document.story.blocks[i as int] },
            ));
        }
    }

    /// Pasted text: into the selected dialog field on one line, or into the writing pane
    /// as one change group.
    pub fn paste(&mut self, text: &str)
        requires
            old(self).wf(),
            app_roomy(old(self)@),
            text@.len() <= usize::MAX / 16,
        ensures
            final(self)@ == pasted(old(self)@, text@),
            final(self).wf(),
    {
        let m = self.modal.take();
        match m {
            Some(Modal::Form(mut form)) => {
                let line = one_line_text(text);
                assert(line@.len() == text@.len());
                form.field_insert(line.as_str());
                self.modal = Some(Modal::Form(form));
            },
            other => {
                self.modal = other;
                if self.modal.is_none() && self.editing {
                    let old_text = self.editor.text.clone();
                    self.last_edit = None;
                    proof {
                        crate::text::lemma_len_le_byte_len(text@);
                    }
                    self.editor.insert(text);
                    self.text_changed(&old_text, 0);
                    self.last_edit = None;
                }
            },
        }
    }
}

// ---------------------------------------------------------------------------------------
// Outline operations
// ---------------------------------------------------------------------------------------

/// Undo (or, with `redo`, redo): the story swaps with the top of the stack, and the
/// current story goes on the other one.
pub open spec fn undone(v: AppView, redo: bool) -> AppView {
    let stack = if redo { v.redo } else { v.undo };
    if stack.len() == 0 {
        v
    } else {
        let current = v.document.story;
        let v1 = if redo {
            AppView { redo: v.redo.drop_last(), undo: v.undo.push(current), ..v }
        } else {
            AppView { undo: v.undo.drop_last(), redo: v.redo.push(current), ..v }
        };
        say(
            synced(with_story(v1, stack.last())),
            if redo { "Change restored"@ } else { "Change undone"@ },
        )
    }
}

/// The blocks with positions `i` and `j` exchanged.
pub open spec fn swapped(bs: Seq<BlockView>, i: int, j: int) -> Seq<BlockView> {
    bs.update(i, bs[j]).update(j, bs[i])
}

/// Moves the selected block one place down (or up), as one change group; nothing happens
/// at the end of the manuscript.
pub open spec fn moved(v: AppView, down: bool) -> AppView {
    let n = v.document.story.blocks.len();
    let target: usize = if down {
        if v.selected + 1 < n - 1 { (v.selected + 1) as usize } else { (n - 1) as usize }
    } else if v.selected > 0 {
        (v.selected - 1) as usize
    } else {
        0
    };
    if target == v.selected {
        v
    } else {
        let v1 = checkpoint(v);
        let s = v1.document.story;
        synced(AppView {
            selected: target,
            ..with_story(v1, StoryView { blocks: swapped(s.blocks, v.selected as int, target as int), ..s })
        })
    }
}

/// The character assigned after `current` when cycling: the next in the cast, the first
/// when none or an unknown one is assigned, and none after the last.
pub open spec fn next_character(cs: Seq<CharacterView>, current: Option<u64>) -> Option<u64> {
    let next: int = match current {
        Some(id) => match crate::story::find_character(cs, id) {
            Some(i) => i + 1,
            None => 0,
        },
        None => 0,
    };
    if next < cs.len() { Some(cs[next].id) } else { None }
}

/// A block with another character assigned.
pub open spec fn assigned(v: AppView, c: Option<u64>) -> AppView {
    let s = v.document.story;
    with_story(v, with_block(s, v.selected as int, BlockView { character: c, ..s.blocks[v.selected as int] }))
}

/// A block with another type; its text and character stay.
pub open spec fn retyped(v: AppView, k: Kind) -> AppView {
    let s = v.document.story;
    with_story(v, with_block(s, v.selected as int, BlockView { kind: k, ..s.blocks[v.selected as int] }))
}

/// A dialog with fresh editors on the given labels and texts, the first field selected.
pub open spec fn form_of(kind: FormKind, title: Seq<char>, fields: Seq<(Seq<char>, Seq<char>)>) -> FormView {
    FormView {
        kind,
        title,
        fields: fields.map_values(|p: (Seq<char>, Seq<char>)| FieldView { label: p.0, editor: fresh(p.1) }),
        selected: 0,
        error: Seq::empty(),
    }
}

/// The dialog for a character: an existing one's values, or blank ones and the next
/// palette color for a new one.
pub open spec fn character_form(v: AppView, id: Option<u64>) -> AppView {
    let (name, description, color) = character_values(v.document.story.characters, id);
    AppView {
        modal: Some(ModalView::Form(form_of(
            FormKind::Character(id),
            " Character details "@,
            seq![("Name"@, name), ("Description (published in cast)"@, description), (
                "Color (#RRGGBB; Ctrl+P cycles palette)"@,
                color,
            )],
        ))),
        ..v
    }
}

/// The name, description and color a character dialog starts with.
pub open spec fn character_values(cs: Seq<CharacterView>, id: Option<u64>) -> (Seq<char>, Seq<char>, Seq<char>) {
    let found: Option<CharacterView> = match id {
        Some(x) => match crate::story::find_character(cs, x) {
            Some(i) => Some(cs[i]),
            None => None,
        },
        None => None,
    };
    match found {
        Some(c) => (c.name, c.description, c.color),
        None => (Seq::<char>::empty(), Seq::<char>::empty(), palette(cs.len() as int % PALETTE_LEN as int)),
    }
}

/// Tab in the manuscript: assigns the next character as one change group, or opens the
/// dialog for a first character when there are none.
pub open spec fn cycled(v: AppView) -> AppView {
    let cs = v.document.story.characters;
    if cs.len() == 0 {
        character_form(v, None)
    } else {
        assigned(checkpoint(v), next_character(cs, v.document.story.blocks[v.selected as int].character))
    }
}

/// Adds a block of type `k` after the selected one, as one change group; dialogue,
/// action and thought keep the selected block's character. The new block is selected and
/// opened for writing, unless it is a scene break.
pub open spec fn added(v: AppView, k: Kind) -> AppView {
    let v1 = checkpoint(v);
    let s = v1.document.story;
    let keeps = k == Kind::Dialogue || k == Kind::Action || k == Kind::Thought;
    let character = if keeps { s.blocks[v.selected as int].character } else { None };
    let at = v.selected + 1;
    let v2 = synced(AppView {
        selected: at as usize,
        ..with_story(v1, StoryView {
            blocks: s.blocks.insert(at, BlockView { kind: k, character, text: Seq::empty() }),
            ..s
        })
    });
    say(AppView { editing: k != Kind::Divider, ..v2 }, "New block · Tab assigns a character · Esc returns to outline"@)
}

/// Deletes the selected block as one change group; an emptied manuscript gets a blank
/// narration block.
pub open spec fn deleted(v: AppView) -> AppView {
    let v1 = checkpoint(v);
    let s = v1.document.story;
    let rest = s.blocks.remove(v.selected as int);
    let blocks = if rest.len() == 0 {
        seq![BlockView { kind: Kind::Narration, character: None, text: Seq::empty() }]
    } else {
        rest
    };
    say(synced(with_story(v1, StoryView { blocks, ..s })), "Block deleted · u to undo"@)
}

/// Duplicates the selected block after itself as one change group and selects the copy.
pub open spec fn duplicated(v: AppView) -> AppView {
    let v1 = checkpoint(v);
    let s = v1.document.story;
    let at = v.selected + 1;
    say(
        synced(AppView {
            selected: at as usize,
            ..with_story(v1, StoryView { blocks: s.blocks.insert(at, s.blocks[v.selected as int]), ..s })
        }),
        "Block duplicated"@,
    )
}

/// Removes a character as one change group: its blocks keep their text and lose the
/// assignment.
pub open spec fn without_character(s: StoryView, id: u64) -> StoryView {
    StoryView {
        characters: cast_without(s.characters, id),
        blocks: s.blocks.map_values(|b: BlockView|
            if b.character == Some(id) { BlockView { character: None, ..b } } else { b }),
        ..s
    }
}

/// The cast without the characters with ID `id`.
pub open spec fn cast_without(cs: Seq<CharacterView>, id: u64) -> Seq<CharacterView> {
    cs.filter(|c: CharacterView| c.id != id)
}

/// Deleting a character from the cast dialog.
pub open spec fn character_deleted(v: AppView, id: u64) -> AppView {
    let v1 = checkpoint(v);
    let s = without_character(v1.document.story, id);
    let m = s.characters.len();
    let cast: usize = if m == 0 { 0 } else if v.cast_selected < m - 1 { v.cast_selected } else { (m - 1) as usize };
    say(
        AppView { cast_selected: cast, modal: Some(ModalView::Cast), ..with_story(v1, s) },
        "Character removed; their text is preserved · u to undo"@,
    )
}

impl Form {
    /// A dialog with fresh editors on the given labels and texts.
    fn new(kind: FormKind, title: &'static str, fields: Vec<(&'static str, String)>) -> (r: Form)
        ensures
            r@ == form_of(kind, title@, fields@.map_values(|p: (&'static str, String)| (p.0@, p.1@))),
            forall|i: int| 0 <= i < r@.fields.len() ==> editor_ok(#[trigger] r@.fields[i].editor),
    {
        let ghost wanted = fields@.map_values(|p: (&'static str, String)| (p.0@, p.1@));
        let mut out: Vec<Field> = Vec::new();
        let mut i: usize = 0;
        while i < fields.len()
            invariant
                i <= fields@.len(),
                wanted == fields@.map_values(|p: (&'static str, String)| (p.0@, p.1@)),
                out@.len() == i,
                forall|k: int| 0 <= k < i ==> (#[trigger] out@[k])@ == (FieldView {
                    label: wanted[k].0,
                    editor: fresh(wanted[k].1),
                }),
                forall|k: int| 0 <= k < i ==> (#[trigger] out@[k]).editor.wf(),
            decreases fields@.len() - i,
        {
            let (label, text) = &fields[i];
            out.push(Field { label: *label, editor: Editor::new(text.clone()) });
            i += 1;
        }
        let r = Form { kind, title, fields: out, selected: 0, error: String::new() };
        assert(r@.fields =~= form_of(kind, title@, wanted).fields);
        assert forall|i: int| 0 <= i < r@.fields.len() implies editor_ok(#[trigger] r@.fields[i].editor) by {
            assert(r@.fields[i] == out@[i]@);
        }
        r
    }
}

impl App {
    fn undo(&mut self, redo: bool)
        requires
            old(self).wf(),
        ensures
            final(self)@ == undone(old(self)@, redo),
            final(self).wf(),
    {
        let previous = if redo { self.redo.pop() } else { self.undo.pop() };
        match previous {
            Some(previous) => {
                let mut current = previous;
                std::mem::swap(&mut current, &mut self.document.story);
                if redo {
                    self.undo.push(current);
                    assert(story_views(self.undo@) =~= story_views(old(self).undo@).push(old(self)@.document.story));
                    assert(story_views(self.redo@) =~= story_views(old(self).redo@).drop_last());
                } else {
                    self.redo.push(current);
                    assert(story_views(self.redo@) =~= story_views(old(self).redo@).push(old(self)@.document.story));
                    assert(story_views(self.undo@) =~= story_views(old(self).undo@).drop_last());
                }
                self.sync_editor();
                if redo {
                    self.message(String::from_str("Change restored"));
                } else {
                    self.message(String::from_str("Change undone"));
                }
            },
            None => {},
        }
    }

    fn move_block(&mut self, down: bool)
        requires
            old(self).wf(),
        ensures
            final(self)@ == moved(old(self)@, down),
            final(self).wf(),
    {
        let n = self.document.story.blocks.len();
        let target = if down {
            if self.selected + 1 < n - 1 { self.selected + 1 } else { n - 1 }
        } else if self.selected > 0 {
            self.selected - 1
        } else {
            0
        };
        if target != self.selected {
            self.checkpoint();
            let i = self.selected;
            let a = self.document.story.blocks[i].duplicate();
            let b = self.document.story.blocks[target].duplicate();
            assert(a@ == self@.document.story.blocks[i as int]);
            assert(b@ == self@.document.story.blocks[target as int]);
            let ghost before = self@.document.story.blocks;
            self.document.story.blocks.set(i, b);
            self.document.story.blocks.set(target, a);
            assert(self@.document.story.blocks =~= swapped(before, i as int, target as int));
            self.selected = target;
            self.sync_editor();
        }
    }

    fn set_character(&mut self, c: Option<u64>)
        requires
            old(self).selected < old(self).document.story.blocks@.len(),
        ensures
            final(self)@ == assigned(old(self)@, c),
    {
        let i = self.selected;
        let mut b = self.document.story.blocks[i].duplicate();
        b.character = c;
        self.document.story.blocks.set(i, b);
        assert(self@.document.story.blocks =~= old(self)@.document.story.blocks.update(
            i as int,
            BlockView { character: c, ..old(self)@.document.story.blocks[i as int] },
        ));
    }

    fn character_values(&self, id: Option<u64>) -> (r: (String, String, String))
        ensures
            (r.0@, r.1@, r.2@) == character_values(self@.document.story.characters, id),
    {
        match self.document.story.character(id) {
            Some(c) => (c.name.clone(), c.description.clone(), c.color.clone()),
            None => (
                String::new(),
                String::new(),
                String::from_str(crate::story::palette_color(self.document.story.characters.len() % PALETTE_LEN)),
            ),
        }
    }

    fn character_form(&mut self, id: Option<u64>)
        ensures
            final(self)@ == character_form(old(self)@, id),
            form_ok(first_form(final(self)@)),
    {
        let (name, description, color) = self.character_values(id);
        let fields = vec![
            ("Name", name),
            ("Description (published in cast)", description),
            ("Color (#RRGGBB; Ctrl+P cycles palette)", color),
        ];
        assert(fields@.map_values(|p: (&'static str, String)| (p.0@, p.1@)) =~= seq![
            ("Name"@, name@),
            ("Description (published in cast)"@, description@),
            ("Color (#RRGGBB; Ctrl+P cycles palette)"@, color@),
        ]);
        let form = Form::new(FormKind::Character(id), " Character details ", fields);
        self.modal = Some(Modal::Form(form));
    }
}

impl App {
    fn cycle_character(&mut self)
        requires
            old(self).wf(),
        ensures
            final(self)@ == cycled(old(self)@),
            final(self).wf(),
    {
        let n = self.document.story.characters.len();
        if n == 0 {
            self.character_form(None);
            return;
        }
        let current = self.document.story.blocks[self.selected].character;
        assert(current == self@.document.story.blocks[self.selected as int].character);
        let next: usize = match current {
            Some(id) => {
                let mut i: usize = 0;
                while i < n && self.document.story.characters[i].id != id
                    invariant
                        i <= n == self.document.story.characters@.len(),
                        forall|j: int| 0 <= j < i ==> (#[trigger] self@.document.story.characters[j]).id != id,
                    decreases n - i,
                {
                    assert(self@.document.story.characters[i as int] == self.document.story.characters@[i as int]@);
                    i += 1;
                }
                proof {
                    let cs = self@.document.story.characters;
                    if i < n {
                        assert(cs[i as int] == self.document.story.characters@[i as int]@);
                        let k = crate::story::find_character(cs, id)->0;
                        assert(0 <= k < cs.len() && cs[k].id == id);
                        if k < i {
                        } else if k > i {
                            assert(cs[i as int].id == id);
                        }
                    }
                }
                if i < n { i + 1 } else { 0 }
            },
            None => 0,
        };
        let id = if next < n {
            assert(self@.document.story.characters[next as int] == self.document.story.characters@[next as int]@);
            Some(self.document.story.characters[next].id)
        } else {
            None
        };
        self.checkpoint();
        self.set_character(id);
    }

    fn metadata_form(&mut self)
        ensures
            final(self)@ == metadata_form(old(self)@),
            form_ok(first_form(final(self)@)),
    {
        let fields = vec![
            ("Title", self.document.story.title.clone()),
            ("Subtitle", self.document.story.subtitle.clone()),
            ("Author", self.document.story.author.clone()),
        ];
        let ghost s = self@.document.story;
        assert(fields@.map_values(|p: (&'static str, String)| (p.0@, p.1@)) =~= seq![
            ("Title"@, s.title),
            ("Subtitle"@, s.subtitle),
            ("Author"@, s.author),
        ]);
        self.modal = Some(Modal::Form(Form::new(FormKind::Metadata, " Story details ", fields)));
    }

    fn export_form(&mut self)
        ensures
            final(self)@ == export_form(old(self)@, first_field(final(self)@)),
            named_after(old(self)@.document.path, first_field(final(self)@), "html"@),
            form_ok(first_form(final(self)@)),
    {
        proof {
            reveal_strlit("html");
        }
        let p = with_extension(&self.document.path, "html");
        let ghost pv = p@;
        let fields = vec![("HTML file", p)];
        assert(fields@.map_values(|p: (&'static str, String)| (p.0@, p.1@)) =~= seq![("HTML file"@, pv)]);
        self.modal = Some(Modal::Form(Form::new(FormKind::Export, " Export story ", fields)));
    }

    fn copy_form(&mut self)
        ensures
            final(self)@ == copy_form(old(self)@, first_field(final(self)@)),
            named_after(old(self)@.document.path, first_field(final(self)@), "copy.playrite"@),
            form_ok(first_form(final(self)@)),
    {
        proof {
            reveal_strlit("copy.playrite");
        }
        let p = with_extension(&self.document.path, "copy.playrite");
        let ghost pv = p@;
        let fields = vec![("Story file", p)];
        assert(fields@.map_values(|p: (&'static str, String)| (p.0@, p.1@)) =~= seq![("Story file"@, pv)]);
        self.modal = Some(Modal::Form(Form::new(FormKind::SaveCopy, " Save a copy (new filename) ", fields)));
    }

    fn request_quit(&mut self)
        ensures
            final(self)@ == quit_requested(old(self)@),
    {
        if self.document.dirty() {
            self.modal = Some(Modal::Confirm(Confirm::Quit));
        } else {
            self.quit = true;
        }
    }
}

/// The open dialog, when there is one.
pub open spec fn first_form(v: AppView) -> FormView {
    match v.modal {
        Some(ModalView::Form(f)) => f,
        _ => arbitrary(),
    }
}

impl App {
    fn add_block(&mut self, k: Kind)
        requires
            old(self).wf(),
        ensures
            final(self)@ == added(old(self)@, k),
            final(self).wf(),
    {
        self.checkpoint();
        let n = self.document.story.blocks.len();
        assert(self.selected < n);
        let keeps = k == Kind::Dialogue || k == Kind::Action || k == Kind::Thought;
        assert(self@.document.story.blocks[self.selected as int] == self.document.story.blocks@[self.selected as int]@);
        let character = if keeps { self.document.story.blocks[self.selected].character } else { None };
        let at = self.selected + 1;
        let ghost before = self@.document.story.blocks;
        self.document.story.blocks.insert(at, StoryBlock { kind: k, character, text: String::new() });
        assert(self@.document.story.blocks =~= before.insert(
            at as int,
            BlockView { kind: k, character, text: Seq::empty() },
        ));
        self.selected = at;
        self.sync_editor();
        self.editing = k != Kind::Divider;
        self.message(String::from_str("New block · Tab assigns a character · Esc returns to outline"));
    }

    #[verifier::rlimit(30)]
    fn delete_block(&mut self)
        requires
            old(self).wf(),
        ensures
            final(self)@ == deleted(old(self)@),
            final(self).wf(),
    {
        self.checkpoint();
        let ghost before = self@.document.story.blocks;
        self.document.story.blocks.remove(self.selected);
        assert(self@.document.story.blocks =~= before.remove(old(self).selected as int));
        if self.document.story.blocks.len() == 0 {
            self.document.story.blocks.push(StoryBlock::default());
            assert(self@.document.story.blocks =~= seq![
                BlockView { kind: Kind::Narration, character: None, text: Seq::empty() },
            ]);
        }
        self.sync_editor();
        self.message(String::from_str("Block deleted · u to undo"));
    }

    fn duplicate_block(&mut self)
        requires
            old(self).wf(),
        ensures
            final(self)@ == duplicated(old(self)@),
            final(self).wf(),
    {
        self.checkpoint();
        let n = self.document.story.blocks.len();
        assert(self.selected < n);
        let copy = self.document.story.blocks[self.selected].duplicate();
        assert(copy@ == self@.document.story.blocks[self.selected as int]);
        let at = self.selected + 1;
        let ghost before = self@.document.story.blocks;
        self.document.story.blocks.insert(at, copy);
        assert(self@.document.story.blocks =~= before.insert(at as int, before[old(self).selected as int]));
        self.selected = at;
        self.sync_editor();
        self.message(String::from_str("Block duplicated"));
    }

    fn set_kind(&mut self, k: Kind)
        requires
            old(self).wf(),
        ensures
            final(self)@ == say(retyped(checkpoint(old(self)@), k), "Block changed to "@ + kind_label(k)),
            final(self).wf(),
    {
        self.checkpoint();
        let i = self.selected;
        let mut b = self.document.story.blocks[i].duplicate();
        b.kind = k;
        self.document.story.blocks.set(i, b);
        assert(self@.document.story.blocks =~= checkpoint(old(self)@).document.story.blocks.update(
            i as int,
            BlockView { kind: k, ..checkpoint(old(self)@).document.story.blocks[i as int] },
        ));
        let mut m = String::from_str("Block changed to ");
        push_str(&mut m, k.label());
        self.message(m);
    }

    fn delete_character(&mut self, id: u64)
        requires
            old(self).wf(),
        ensures
            final(self)@ == character_deleted(old(self)@, id),
            final(self).wf(),
    {
        self.checkpoint();
        let ghost s = self@.document.story;
        let mut kept: Vec<Character> = Vec::new();
        let mut i: usize = 0;
        while i < self.document.story.characters.len()
            invariant
                i <= self.document.story.characters@.len(),
                s == self@.document.story,
                kept@.map_values(|c: Character| c@) == s.characters.take(i as int).filter(|c: CharacterView| c.id != id),
            decreases self.document.story.characters@.len() - i,
        {
            let c = self.document.story.characters[i].duplicate();
            assert(c@ == s.characters[i as int]);
            let ghost prev = kept@.map_values(|c: Character| c@);
            assert(s.characters.take(i + 1).drop_last() =~= s.characters.take(i as int));
            proof {
                reveal(Seq::filter);
            }
            if c.id != id {
                kept.push(c);
                assert(kept@.map_values(|c: Character| c@) =~= prev.push(c@));
            }
            i += 1;
        }
        assert(s.characters.take(s.characters.len() as int) =~= s.characters);
        let mut blocks: Vec<StoryBlock> = Vec::new();
        let mut j: usize = 0;
        let ghost target = without_character(s, id).blocks;
        while j < self.document.story.blocks.len()
            invariant
                j <= self.document.story.blocks@.len(),
                s == self@.document.story,
                target == without_character(s, id).blocks,
                blocks@.len() == j,
                forall|k: int| 0 <= k < j ==> (#[trigger] blocks@[k])@ == target[k],
            decreases self.document.story.blocks@.len() - j,
        {
            let mut b = self.document.story.blocks[j].duplicate();
            assert(b@ == s.blocks[j as int]);
            if b.character == Some(id) {
                b.character = None;
            }
            blocks.push(b);
            j += 1;
        }
        self.document.story.characters = kept;
        self.document.story.blocks = blocks;
        assert(self@.document.story.blocks =~= target);
        assert(self@.document.story == without_character(s, id));
        let m = self.document.story.characters.len();
        if m == 0 {
            self.cast_selected = 0;
        } else if self.cast_selected >= m - 1 {
            self.cast_selected = m - 1;
        }
        self.modal = Some(Modal::Cast);
        self.message(String::from_str("Character removed; their text is preserved · u to undo"));
    }
}

/// A found character lies within the cast.
proof fn lemma_found_in_range(cs: Seq<CharacterView>, id: u64)
    ensures
        crate::story::find_character(cs, id) matches Some(i) ==> 0 <= i < cs.len() && cs[i].id == id,
{
    if exists|i: int| 0 <= i < cs.len() && cs[i].id == id {
        let k = choose|i: int| 0 <= i < cs.len() && cs[i].id == id;
        lemma_first_match(cs, id, k);
    }
}

proof fn lemma_first_match(cs: Seq<CharacterView>, id: u64, k: int)
    requires
        0 <= k < cs.len(),
        cs[k].id == id,
    ensures
        exists|i: int| 0 <= i < cs.len() && cs[i].id == id && forall|j: int| 0 <= j < i ==> cs[j].id != id,
    decreases k,
{
    if exists|j: int| 0 <= j < k && cs[j].id == id {
        let j = choose|j: int| 0 <= j < k && cs[j].id == id;
        lemma_first_match(cs, id, j);
    } else {
        assert(0 <= k < cs.len() && cs[k].id == id && forall|j: int| 0 <= j < k ==> cs[j].id != id);
    }
}

/// The smallest positive ID no character has is at most one more than the cast size.
proof fn lemma_ids_bound(cs: Seq<CharacterView>, k: u64)
    requires
        k >= 1,
        forall|y: u64| 1 <= y <= k ==> crate::story::has_id(cs, y),
    ensures
        k <= cs.len(),
{
    let ids = cs.map_values(|c: CharacterView| c.id as int);
    ids.lemma_cardinality_of_set();
    vstd::set_lib::lemma_int_range(1, k + 1);
    assert forall|y: int| vstd::set_lib::set_int_range(1, k + 1).contains(y) implies ids.to_set().contains(y) by {
        assert(crate::story::has_id(cs, y as u64));
        let i = choose|i: int| 0 <= i < cs.len() && cs[i].id == y as u64;
        assert(ids[i] == y);
    }
    vstd::seq_lib::seq_to_set_is_finite(ids);
    vstd::set_lib::lemma_len_subset(vstd::set_lib::set_int_range(1, k + 1), ids.to_set());
}

proof fn lemma_first_free(cs: Seq<CharacterView>, x: u64)
    requires
        1 <= x,
        !crate::story::has_id(cs, x),
        forall|y: u64| 1 <= y < x ==> crate::story::has_id(cs, y),
    ensures
        first_free(cs) == x,
{
    let c = first_free(cs);
    assert(1 <= c && !crate::story::has_id(cs, c) && forall|y: u64| 1 <= y < c ==> crate::story::has_id(cs, y));
    if c < x {
        assert(crate::story::has_id(cs, c));
    } else if c > x {
        assert(crate::story::has_id(cs, x));
    }
}

/// The trimmed texts of a dialog's fields.
fn form_values(f: &Form) -> (r: Vec<String>)
    ensures
        r@.map_values(|s: String| s@) == values(f@),
{
    let mut out: Vec<String> = Vec::new();
    let mut i: usize = 0;
    while i < f.fields.len()
        invariant
            i <= f.fields@.len(),
            out@.len() == i,
            forall|k: int| 0 <= k < i ==> (#[trigger] out@[k])@ == values(f@)[k],
        decreases f.fields@.len() - i,
    {
        assert(f@.fields[i as int] == f.fields@[i as int]@);
        out.push(trimmed(f.fields[i].editor.text.as_str()));
        i += 1;
    }
    assert(out@.map_values(|s: String| s@) =~= values(f@));
    out
}

impl App {
    /// The smallest positive ID that no character has.
    fn free_id(&self) -> (r: u64)
        requires
            self@.document.story.characters.len() < u64::MAX,
        ensures
            r == first_free(self@.document.story.characters),
    {
        let ghost cs = self@.document.story.characters;
        let mut id: u64 = 1;
        while self.document.story.character(Some(id)).is_some()
            invariant
                1 <= id,
                cs == self@.document.story.characters,
                cs.len() < u64::MAX,
                forall|y: u64| 1 <= y < id ==> crate::story::has_id(cs, y),
            decreases u64::MAX - id,
        {
            proof {
                lemma_ids_bound(cs, id);
            }
            id = id + 1;
        }
        proof {
            lemma_first_free(cs, id);
        }
        id
    }

    /// The position of the character with `id`, if any.
    fn character_index(&self, id: u64) -> (r: Option<usize>)
        ensures
            r is None <==> crate::story::find_character(self@.document.story.characters, id) is None,
            r matches Some(j) ==> crate::story::find_character(self@.document.story.characters, id) == Some(j as int)
                && j < self@.document.story.characters.len(),
    {
        let ghost cs = self@.document.story.characters;
        let n = self.document.story.characters.len();
        let mut i: usize = 0;
        while i < n
            invariant
                i <= n == cs.len(),
                cs == self@.document.story.characters,
                forall|j: int| 0 <= j < i ==> (#[trigger] cs[j]).id != id,
            decreases n - i,
        {
            assert(cs[i as int] == self.document.story.characters@[i as int]@);
            if self.document.story.characters[i].id == id {
                proof {
                    let k = crate::story::find_character(cs, id)->0;
                    assert(crate::story::find_character(cs, id) is Some);
                    if k < i {
                    } else if k > i {
                        assert(cs[i as int].id == id);
                    }
                }
                return Some(i);
            }
            i += 1;
        }
        None
    }

    fn put_character(&mut self, c: Character)
        ensures
            ({
                let cs = old(self)@.document.story.characters;
                let s = old(self)@.document.story;
                match crate::story::find_character(cs, c.id) {
                    Some(i) => final(self)@ == with_story(old(self)@, StoryView { characters: cs.update(i, c@), ..s }),
                    None => final(self)@ == AppView {
                        cast_selected: cs.len() as usize,
                        ..with_story(old(self)@, StoryView { characters: cs.push(c@), ..s })
                    },
                }
            }),
    {
        let ghost before = self@.document.story.characters;
        let ghost cv = c@;
        let ghost found = crate::story::find_character(before, c.id);
        match self.character_index(c.id) {
            Some(i) => {
                self.document.story.characters.set(i, c);
                assert(self@.document.story.characters =~= before.update(i as int, cv));
                assert(found == Some(i as int));
                assert(self@ == with_story(old(self)@, StoryView { characters: before.update(found->0, cv), ..old(self)@.document.story }));
            },
            None => {
                self.document.story.characters.push(c);
                assert(self@.document.story.characters =~= before.push(cv));
                self.cast_selected = self.document.story.characters.len() - 1;
                assert(found is None);
            },
        }
    }

    #[verifier::rlimit(50)]
    #[verifier::spinoff_prover]
    fn save_character(&mut self, id: Option<u64>, name: String, description: String, color: String)
        requires
            old(self).wf(),
            old(self)@.document.story.characters.len() < u64::MAX,
        ensures
            final(self)@ == character_saved(old(self)@, id, seq![name@, description@, color@]),
            final(self).wf(),
    {
        let ghost vals = seq![name@, description@, color@];
        self.checkpoint();
        let ghost v1 = self@;
        assert(v1 == checkpoint(old(self)@));
        let nid = match id {
            Some(x) => x,
            None => self.free_id(),
        };
        let c = Character { id: nid, name, description, color };
        let ghost cs = v1.document.story.characters;
        assert(c@ == (CharacterView { id: nid, name: vals[0], description: vals[1], color: vals[2] }));
        assert(cast_saved(cs, id, vals) == match crate::story::find_character(cs, nid) {
            Some(i) => cs.update(i, c@),
            None => cs.push(c@),
        });
        self.put_character(c);
        proof {
            lemma_found_in_range(cs, nid);
        }
        self.message(String::from_str("Character saved · select them and press Enter to assign to this block"));
        self.modal = Some(Modal::Cast);
    }

    /// Applies a dialog that was open; `self.modal` is already empty.
    #[verifier::rlimit(50)]
    #[verifier::spinoff_prover]
    fn submit(&mut self, form: Form) -> (r: Effect)
        requires
            old(self).wf(),
            old(self).modal is None,
            form_ok(form@),
            app_roomy(old(self)@),
        ensures
            (final(self)@, r@) == submitted(old(self)@, form@),
            final(self).wf(),
    {
        let vals = form_values(&form);
        let ghost vv = values(form@);
        assert(vals@.map_values(|s: String| s@).len() == form@.fields.len());
        assert(vals@.map_values(|s: String| s@)[0] == vals@[0]@);
        assert(vals@[0]@ == vv[0]);
        let mut form = form;
        match form.kind {
            FormKind::Metadata => {
                if utf8_size(vals[0].as_str()) == 0 {
                    proof {
                        crate::text::lemma_len_le_byte_len(vv[0]);
                    }
                    form.error = String::from_str("Give your story a title.");
                    self.modal = Some(Modal::Form(form));
                    return Effect::Nothing;
                }
                proof {
                    if vv[0].len() == 0 {
                        assert(vstd::utf8::encode_utf8(vv[0]) =~= Seq::<u8>::empty());
                    }
                }
                self.checkpoint();
                let mut vals = vals;
                assert(vals@.map_values(|s: String| s@)[1] == vals@[1]@);
                assert(vals@.map_values(|s: String| s@)[2] == vals@[2]@);
                assert(vals@[1]@ == vv[1] && vals@[2]@ == vv[2]);
                self.document.story.author = vals.pop().unwrap();
                self.document.story.subtitle = vals.pop().unwrap();
                self.document.story.title = vals.pop().unwrap();
                self.message(String::from_str("Story details updated"));
                Effect::Nothing
            },
            FormKind::Character(id) => {
                assert(vals@.map_values(|s: String| s@)[1] == vals@[1]@);
                assert(vals@.map_values(|s: String| s@)[2] == vals@[2]@);
                assert(vals@[2]@ == vv[2]);
                let empty = utf8_size(vals[0].as_str()) == 0;
                proof {
                    crate::text::lemma_len_le_byte_len(vv[0]);
                    if vv[0].len() == 0 {
                        assert(vstd::utf8::encode_utf8(vv[0]) =~= Seq::<u8>::empty());
                    }
                }
                if empty || !valid_color(vals[2].as_str()) {
                    form.error = String::from_str("A name and a valid #RRGGBB color are required.");
                    self.modal = Some(Modal::Form(form));
                    return Effect::Nothing;
                }
                let mut vals = vals;
                let color = vals.pop().unwrap();
                let description = vals.pop().unwrap();
                let name = vals.pop().unwrap();
                assert(seq![name@, description@, color@] =~= vv);
                self.save_character(id, name, description, color);
                Effect::Nothing
            },
            FormKind::Export => {
                self.modal = Some(Modal::Form(form));
                Effect::CheckExport
            },
            FormKind::SaveCopy => match self.document.copy_bytes() {
                Ok(bytes) => {
                    let mut vals = vals;
                    let path = vals.swap_remove(0);
                    assert(path@ == vv[0]);
                    self.modal = Some(Modal::Form(form));
                    Effect::WriteCopy { path, bytes }
                },
                Err(e) => {
                    form.error = e;
                    self.modal = Some(Modal::Form(form));
                    Effect::Nothing
                },
            },
        }
    }
}

impl App {
    fn export_to(&mut self, path: String, overwrite: bool) -> (r: Effect)
        requires
            block_words(old(self)@.document.story.blocks) <= usize::MAX,
        ensures
            (final(self)@, r@) == export_to(old(self)@, path@, overwrite),
    {
        match crate::export::write(&self.document.story, path.as_str()) {
            Ok(html) => Effect::WriteExport { path, html, overwrite },
            Err(e) => {
                self.failure(e);
                Effect::Nothing
            },
        }
    }

    /// Continues an export once the caller found whether the dialog's path is the
    /// manuscript's own file and whether a file is there.
    pub fn export_checked(&mut self, same: bool, exists: bool) -> (r: Effect)
        requires
            old(self).wf(),
            block_words(old(self)@.document.story.blocks) <= usize::MAX,
        ensures
            (final(self)@, r@) == export_checked(old(self)@, same, exists),
            final(self).wf(),
    {
        let m = self.modal.take();
        match m {
            Some(Modal::Form(mut form)) => {
                match form.kind {
                    FormKind::Export => {
                        assert(old(self)@.modal == Some(ModalView::Form(form@)));
                        assert(form_ok(form@));
                        let mut vals = form_values(&form);
                        assert(vals@.map_values(|s: String| s@).len() == form@.fields.len());
                        assert(vals@.map_values(|s: String| s@)[0] == vals@[0]@);
                        let path = vals.swap_remove(0);
                        if same {
                            form.error = String::from_str("The export must use a different path from your story.");
                            self.modal = Some(Modal::Form(form));
                            Effect::Nothing
                        } else if exists {
                            self.modal = Some(Modal::Confirm(Confirm::Overwrite(path)));
                            Effect::Nothing
                        } else {
                            self.export_to(path, false)
                        }
                    },
                    _ => {
                        self.modal = Some(Modal::Form(form));
                        Effect::Nothing
                    },
                }
            },
            other => {
                self.modal = other;
                Effect::Nothing
            },
        }
    }

    /// The file the open export dialog names, trimmed, when that dialog is open.
    pub fn export_target(&self) -> (r: Option<String>)
        requires
            self.wf(),
        ensures
            match self@.modal {
                Some(ModalView::Form(f)) => if f.kind == FormKind::Export {
                    r matches Some(p) && p@ == values(f)[0]
                } else {
                    r is None
                },
                _ => r is None,
            },
    {
        match &self.modal {
            Some(Modal::Form(form)) => match form.kind {
                FormKind::Export => {
                    assert(form_ok(form@));
                    assert(form@.fields[0] == form.fields@[0]@);
                    Some(trimmed(form.fields[0].editor.text.as_str()))
                },
                _ => None,
            },
            _ => None,
        }
    }

    /// Reports the outcome of writing an export.
    pub fn export_done(&mut self, path: &str, result: Result<(), String>)
        ensures
            final(self)@ == export_done(old(self)@, path@, failed(result)),
    {
        match result {
            Ok(()) => {
                let mut m = String::from_str("Exported ");
                push_str(&mut m, path);
                push_str(&mut m, " · private notes omitted");
                self.message(m);
            },
            Err(e) => self.failure(e),
        }
    }

    /// Decides a save once the caller read what the manuscript's path holds.
    pub fn save_checked(&mut self, disk: &Disk, quit: bool) -> (r: Effect)
        ensures
            (final(self)@, r@) == save_checked(old(self)@, disk@, quit),
    {
        match self.document.prepare_save(disk) {
            Ok((bytes, overwrite)) => Effect::WriteSave { path: self.document.path.clone(), bytes, overwrite, quit },
            Err(e) => {
                self.failure(e);
                Effect::Nothing
            },
        }
    }

    /// Reports the outcome of writing a save of `bytes`.
    pub fn save_done(&mut self, bytes: Vec<u8>, quit: bool, result: Result<(), String>)
        ensures
            final(self)@ == save_done(old(self)@, bytes@, quit, failed(result)),
    {
        match result {
            Ok(()) => {
                self.document.mark_saved(bytes);
                self.last_edit = None;
                let mut m = String::from_str("Saved ");
                push_str(&mut m, self.document.path.as_str());
                self.message(m);
                if quit {
                    self.quit = true;
                }
            },
            Err(e) => self.failure(e),
        }
    }

    /// Reports the outcome of writing a copy of `bytes` to `path`.
    pub fn copy_done(&mut self, path: String, bytes: Vec<u8>, result: Result<(), String>)
        requires
            old(self).wf(),
        ensures
            final(self)@ == copy_done(old(self)@, path@, bytes@, failed(result)),
            final(self).wf(),
    {
        match result {
            Ok(()) => {
                let mut m = String::from_str("Saved copy to ");
                push_str(&mut m, path.as_str());
                self.document.copied_to(path, bytes);
                self.modal = None;
                self.message(m);
            },
            Err(e) => {
                let m = self.modal.take();
                match m {
                    Some(Modal::Form(mut form)) => {
                        form.error = e;
                        self.modal = Some(Modal::Form(form));
                    },
                    other => {
                        self.modal = other;
                        self.failure(e);
                    },
                }
            },
        }
    }

    fn insert_format(&mut self, bold: bool)
        requires
            old(self).wf(),
            app_roomy(old(self)@),
        ensures
            final(self)@ == formatted(old(self)@, if bold { 2 } else { 1 }),
            final(self).wf(),
    {
        let old_text = self.editor.text.clone();
        self.last_edit = None;
        let ghost n: nat = if bold { 2 } else { 1 };
        let marks = if bold { "****" } else { "**" };
        proof {
            reveal_strlit("****");
            reveal_strlit("**");
        }
        assert(marks@ =~= Seq::new(2 * n, |i: int| '*'));
        proof {
            crate::text::lemma_len_le_byte_len(old(self)@.editor.text);
        }
        self.editor.insert(marks);
        let back: usize = if bold { 2 } else { 1 };
        if self.editor.cursor >= back && self.editor.is_boundary(self.editor.cursor - back) {
            self.editor.cursor = self.editor.cursor - back;
        }
        self.text_changed(&old_text, 0);
        self.last_edit = None;
    }
}

impl Form {
    /// Replaces the editor of field `i`.
    fn set_editor(&mut self, i: usize, e: Editor)
        requires
            form_ok(old(self)@),
            i < old(self)@.fields.len(),
            e.wf(),
        ensures
            final(self)@ == (FormView {
                fields: old(self)@.fields.update(i as int, FieldView { editor: e@, ..old(self)@.fields[i as int] }),
                ..old(self)@
            }),
            form_ok(final(self)@),
    {
        assert(self@.fields[i as int] == self.fields@[i as int]@);
        let mut f = self.fields.remove(i);
        f.editor = e;
        self.fields.insert(i, f);
        let ghost old_fields = old(self)@.fields;
        assert(self@.fields =~= old_fields.update(i as int, f@));
    }

    /// Passes a key to the selected field, on one line.
    fn key_field(&mut self, key: KeyEvent)
        requires
            form_ok(old(self)@),
            roomy(old(self)@.fields[old(self).selected as int].editor.text),
        ensures
            final(self)@ == with_field(old(self)@, keyed(old(self)@.fields[old(self).selected as int].editor, key, 60, false)),
            form_ok(final(self)@),
    {
        let i = self.selected;
        assert(self@.fields[i as int] == self.fields@[i as int]@);
        let mut f = self.fields.remove(i);
        proof {
            crate::text::lemma_len_le_byte_len(f.editor.text@);
        }
        f.editor.key(key, 60, false);
        self.fields.insert(i, f);
        let ghost old_fields = old(self)@.fields;
        assert(self@.fields =~= old_fields.update(i as int, f@));
    }
}

/// The position of a palette color, if the text is one.
fn palette_position(t: &String) -> (r: Option<usize>)
    ensures
        match palette_index(t@) {
            Some(k) => r == Some(k as usize),
            None => r is None,
        },
{
    let mut k: usize = 0;
    while k < PALETTE_LEN
        invariant
            k <= PALETTE_LEN,
            forall|j: int| 0 <= j < k ==> palette(j) != t@,
        decreases PALETTE_LEN - k,
    {
        let c = String::from_str(crate::story::palette_color(k));
        if crate::text::same_text(&c, t) {
            proof {
                let w = choose|j: int| 0 <= j < PALETTE_LEN && palette(j) == t@ && forall|i: int| 0 <= i < j ==> palette(i) != t@;
                assert(0 <= k < PALETTE_LEN && palette(k as int) == t@ && forall|i: int| 0 <= i < k ==> palette(i) != t@);
                if w < k {
                } else if w > k {
                    assert(palette(k as int) != t@);
                }
            }
            return Some(k);
        }
        k += 1;
    }
    None
}

impl App {
    fn help_key(&mut self, code: KeyCode)
        ensures
            final(self)@ == help_step(old(self)@, code),
    {
        let h = self.help_scroll;
        let scrolled: u16 = match code {
            KeyCode::Down => if h < 22 { h + 1 } else { 23 },
            KeyCode::Char('j') => if h < 22 { h + 1 } else { 23 },
            KeyCode::Up => if h > 0 { h - 1 } else { 0 },
            KeyCode::Char('k') => if h > 0 { h - 1 } else { 0 },
            KeyCode::PageDown => if h < 17 { h + 6 } else { 23 },
            KeyCode::PageUp => if h > 6 { h - 6 } else { 0 },
            _ => h,
        };
        if code == KeyCode::Char('?') || code == KeyCode::F(1) || code == KeyCode::Enter {
            self.help_scroll = 0;
        } else {
            self.help_scroll = scrolled;
            self.modal = Some(Modal::Help);
        }
    }

    fn cast_key(&mut self, code: KeyCode)
        requires
            old(self).wf(),
            old(self).modal is None,
        ensures
            final(self)@ == cast_step(old(self)@, code),
            final(self).wf(),
    {
        self.modal = Some(Modal::Cast);
        let n = self.document.story.characters.len();
        let c = self.cast_selected;
        proof {
            if n > 0 {
                assert(self@.document.story.characters[c as int] == self.document.story.characters@[c as int]@);
            }
        }
        if code == KeyCode::Char('n') {
            self.character_form(None);
        } else if code == KeyCode::Char('e') && n > 0 {
            let id = self.document.story.characters[c].id;
            self.character_form(Some(id));
        } else if (code == KeyCode::Char('d') || code == KeyCode::Delete) && n > 0 {
            let id = self.document.story.characters[c].id;
            self.modal = Some(Modal::Confirm(Confirm::DeleteCharacter(id)));
        } else if code == KeyCode::Up || code == KeyCode::Char('k') {
            self.cast_selected = if c > 0 { c - 1 } else { 0 };
        } else if code == KeyCode::Down || code == KeyCode::Char('j') {
            let last = if n > 0 { n - 1 } else { 0 };
            self.cast_selected = if c < last { c + 1 } else { last };
        } else if code == KeyCode::Enter && n > 0 {
            let id = self.document.story.characters[c].id;
            self.checkpoint();
            self.set_character(Some(id));
            self.modal = None;
            self.message(String::from_str("Character assigned"));
        } else if code == KeyCode::Char('0') {
            self.checkpoint();
            self.set_character(None);
            self.modal = None;
        }
    }

    fn form_key(&mut self, form: Form, key: KeyEvent) -> (r: Effect)
        requires
            old(self).wf(),
            old(self).modal is None,
            form_ok(form@),
            app_roomy(old(self)@),
            forall|i: int| 0 <= i < form@.fields.len() ==> roomy(#[trigger] form@.fields[i].editor.text),
        ensures
            (final(self)@, r@) == form_step(old(self)@, form@, key),
            final(self).wf(),
    {
        let mut form = form;
        let code = key.code;
        let n = form.fields.len();
        if code == KeyCode::Char('u') && key.control {
            let i = form.selected;
            form.set_editor(i, Editor::default());
        } else if code == KeyCode::Enter {
            return self.submit(form);
        } else if code == KeyCode::Tab || code == KeyCode::Down {
            form.selected = (form.selected + 1) % n;
        } else if code == KeyCode::BackTab || code == KeyCode::Up {
            form.selected = (form.selected + n - 1) % n;
        } else if code == KeyCode::Char('p') && key.control && matches!(form.kind, FormKind::Character(_)) {
            assert(form@.fields[2] == form.fields@[2]@);
            let next = match palette_position(&form.fields[2].editor.text) {
                Some(k) => (k + 1) % PALETTE_LEN,
                None => 0,
            };
            let e = Editor::new(String::from_str(crate::story::palette_color(next)));
            form.set_editor(2, e);
        } else {
            form.key_field(key);
        }
        self.modal = Some(Modal::Form(form));
        Effect::Nothing
    }

    fn confirm_key(&mut self, c: Confirm, code: KeyCode) -> (r: Effect)
        requires
            old(self).wf(),
            old(self).modal is None,
            app_roomy(old(self)@),
        ensures
            (final(self)@, r@) == confirm_step(old(self)@, c@, code),
            final(self).wf(),
    {
        match c {
            Confirm::Quit => {
                if code == KeyCode::Char('s') {
                    Effect::Save { quit: true }
                } else if code == KeyCode::Char('d') {
                    self.quit = true;
                    Effect::Nothing
                } else if code == KeyCode::Char('n') {
                    Effect::Nothing
                } else {
                    self.modal = Some(Modal::Confirm(Confirm::Quit));
                    Effect::Nothing
                }
            },
            Confirm::DeleteBlock => {
                if code == KeyCode::Char('y') {
                    self.delete_block();
                } else if code != KeyCode::Char('n') {
                    self.modal = Some(Modal::Confirm(Confirm::DeleteBlock));
                }
                Effect::Nothing
            },
            Confirm::DeleteCharacter(id) => {
                if code == KeyCode::Char('y') {
                    self.delete_character(id);
                } else if code != KeyCode::Char('n') {
                    self.modal = Some(Modal::Confirm(Confirm::DeleteCharacter(id)));
                }
                Effect::Nothing
            },
            Confirm::Overwrite(path) => {
                if code == KeyCode::Char('y') {
                    self.export_to(path, true)
                } else if code == KeyCode::Char('n') {
                    Effect::Nothing
                } else {
                    self.modal = Some(Modal::Confirm(Confirm::Overwrite(path)));
                    Effect::Nothing
                }
            },
        }
    }
}

impl App {
    fn modal_key(&mut self, m: Modal, key: KeyEvent) -> (r: Effect)
        requires
            old(self).modal is None,
            app_ok(AppView { modal: Some(m@), ..old(self)@ }),
            app_roomy(AppView { modal: Some(m@), ..old(self)@ }),
        ensures
            (final(self)@, r@) == modal_step(old(self)@, m@, key),
            final(self).wf(),
    {
        if key.code == KeyCode::Esc {
            if let Modal::Form(f) = &m {
                if matches!(f.kind, FormKind::Character(_)) {
                    self.modal = Some(Modal::Cast);
                }
            }
            return Effect::Nothing;
        }
        match m {
            Modal::Help => {
                self.help_key(key.code);
                Effect::Nothing
            },
            Modal::Add => {
                match key.code {
                    KeyCode::Char(c) => {
                        if '1' <= c && c <= '8' {
                            let i = (c as u32 - '1' as u32) as usize;
                            let k = Kind::from_index(i);
                            self.add_block(k);
                        } else {
                            self.modal = Some(Modal::Add);
                        }
                    },
                    _ => {
                        self.modal = Some(Modal::Add);
                    },
                }
                Effect::Nothing
            },
            Modal::Cast => {
                self.cast_key(key.code);
                Effect::Nothing
            },
            Modal::Form(f) => self.form_key(f, key),
            Modal::Confirm(c) => self.confirm_key(c, key.code),
        }
    }

    fn select(&mut self, i: usize)
        requires
            old(self).wf(),
            i < old(self).document.story.blocks@.len(),
        ensures
            final(self)@ == synced(AppView { selected: i, ..old(self)@ }),
            final(self).wf(),
    {
        self.selected = i;
        self.sync_editor();
    }

    #[verifier::spinoff_prover]
    #[verifier::rlimit(40)]
    fn outline_key(&mut self, code: KeyCode) -> (r: Effect)
        requires
            old(self).wf(),
            old(self).modal is None,
            app_roomy(old(self)@),
        ensures
            (final(self)@, r@) == outline_step(old(self)@, code),
            final(self).wf(),
    {
        let n = self.document.story.blocks.len();
        let sel = self.selected;
        match code {
            KeyCode::Char('q') => self.request_quit(),
            KeyCode::Char('?') => self.modal = Some(Modal::Help),
            KeyCode::Char('n') => self.modal = Some(Modal::Add),
            KeyCode::Char('c') => self.modal = Some(Modal::Cast),
            KeyCode::Char('t') => self.metadata_form(),
            KeyCode::Char('s') => return Effect::Save { quit: false },
            KeyCode::Char('u') => self.undo(false),
            KeyCode::Char('r') => self.undo(true),
            KeyCode::Enter | KeyCode::Char('i') => {
                assert(self@.document.story.blocks[sel as int] == self.document.story.blocks@[sel as int]@);
                if self.document.story.blocks[sel].kind == Kind::Divider {
                    self.message(String::from_str("Scene breaks have no text. Press 1–8 to change the block type."));
                } else {
                    self.editing = true;
                    self.last_edit = None;
                }
            },
            KeyCode::Up | KeyCode::Char('k') => self.select(if sel > 0 { sel - 1 } else { 0 }),
            KeyCode::Down | KeyCode::Char('j') => self.select(if sel + 1 < n - 1 { sel + 1 } else { n - 1 }),
            KeyCode::Home => self.select(0),
            KeyCode::End => self.select(n - 1),
            KeyCode::PageDown => {
                self.preview_scroll = if self.preview_scroll <= u16::MAX - 5 { self.preview_scroll + 5 } else { u16::MAX };
            },
            KeyCode::PageUp => {
                self.preview_scroll = if self.preview_scroll > 5 { self.preview_scroll - 5 } else { 0 };
            },
            KeyCode::Char('J') => self.move_block(true),
            KeyCode::Char('K') => self.move_block(false),
            KeyCode::Char('d') | KeyCode::Delete => self.modal = Some(Modal::Confirm(Confirm::DeleteBlock)),
            KeyCode::Char('D') => self.duplicate_block(),
            KeyCode::Tab => self.cycle_character(),
            KeyCode::Char(c) => {
                if '1' <= c && c <= '8' {
                    let i = (c as u32 - '1' as u32) as usize;
                    let k = Kind::from_index(i);
                    self.set_kind(k);
                }
            },
            _ => {},
        }
        Effect::Nothing
    }

    fn control_key(&mut self, code: KeyCode) -> (r: Effect)
        requires
            old(self).wf(),
            old(self).modal is None,
            app_roomy(old(self)@),
        ensures
            control_outcome(old(self)@, code, final(self)@, r@),
            final(self).wf(),
    {
        match code {
            KeyCode::Char('s') => return Effect::Save { quit: false },
            KeyCode::Char('e') => self.export_form(),
            KeyCode::Char('q') | KeyCode::Char('c') => self.request_quit(),
            KeyCode::Char('n') => self.modal = Some(Modal::Add),
            KeyCode::Char('k') => self.modal = Some(Modal::Cast),
            KeyCode::Char('t') => self.metadata_form(),
            KeyCode::Char('z') => self.undo(false),
            KeyCode::Char('y') => self.undo(true),
            KeyCode::Char('b') => {
                if self.editing {
                    self.insert_format(true);
                }
            },
            KeyCode::Char('i') => {
                if self.editing {
                    self.insert_format(false);
                }
            },
            _ => {},
        }
        Effect::Nothing
    }

    #[verifier::rlimit(80)]
    #[verifier::spinoff_prover]
    fn plain_key(&mut self, key: KeyEvent, now: u64) -> (r: Effect)
        requires
            old(self).wf(),
            old(self).modal is None,
            app_roomy(old(self)@),
        ensures
            plain_outcome(old(self)@, key, now, final(self)@, r@),
            final(self).wf(),
    {
        match key.code {
            KeyCode::F(1) => {
                self.modal = Some(Modal::Help);
                return Effect::Nothing;
            },
            KeyCode::F(2) => {
                self.metadata_form();
                return Effect::Nothing;
            },
            KeyCode::F(4) => {
                self.copy_form();
                return Effect::Nothing;
            },
            KeyCode::F(5) => {
                self.export_form();
                return Effect::Nothing;
            },
            _ => {},
        }
        if self.editing {
            self.write_key(key, now);
            return Effect::Nothing;
        }
        self.outline_key(key.code)
    }

    /// A key in the writing pane.
    fn write_key(&mut self, key: KeyEvent, now: u64)
        requires
            old(self).wf(),
            app_roomy(old(self)@),
        ensures
            final(self)@ == (if key.code == KeyCode::Esc {
                AppView { editing: false, last_edit: None, ..old(self)@ }
            } else if key.code == KeyCode::Tab {
                cycled(old(self)@)
            } else {
                text_changed(
                    AppView { editor: keyed(old(self)@.editor, key, old(self)@.editor_width, true), ..old(self)@ },
                    old(self)@.editor.text,
                    now,
                )
            }),
            final(self).wf(),
    {
        if key.code == KeyCode::Esc {
            self.editing = false;
            self.last_edit = None;
            return;
        }
        if key.code == KeyCode::Tab {
            self.cycle_character();
            return;
        }
        let old_text = self.editor.text.clone();
        proof {
            crate::text::lemma_len_le_byte_len(self.editor.text@);
        }
        self.editor.key(key, self.editor_width, true);
        self.text_changed(&old_text, now);
    }

    /// Handles a key pressed at time `now` (in nanoseconds) and returns the work it
    /// leaves for the caller.
    pub fn key(&mut self, key: KeyEvent, now: u64) -> (r: Effect)
        requires
            old(self).wf(),
            app_roomy(old(self)@),
        ensures
            key_outcome(old(self)@, key, now, final(self)@, r@),
            final(self).wf(),
    {
        if key.release {
            return Effect::Nothing;
        }
        let m = self.modal.take();
        if let Some(m) = m {
            return self.modal_key(m, key);
        }
        if key.control {
            self.control_key(key.code)
        } else {
            self.plain_key(key, now)
        }
    }
}

// ---------------------------------------------------------------------------------------
// Laws
// ---------------------------------------------------------------------------------------

/// Undo brings back the story from before the last change group, and redo then returns
/// to the story that was undone.
pub proof fn law_undo_then_redo(v: AppView)
    requires
        app_ok(v),
        v.undo.len() > 0,
    ensures
        undone(v, false).document.story == v.undo.last(),
        undone(undone(v, false), true).document.story == v.document.story,
{
}

/// Redo brings back the story that the last undo replaced, and undo then returns to the
/// story before the redo.
pub proof fn law_redo_then_undo(v: AppView)
    requires
        app_ok(v),
        v.redo.len() > 0,
    ensures
        undone(v, true).document.story == v.redo.last(),
        undone(undone(v, true), false).document.story == v.document.story,
{
}

/// A change group can always be undone: right after any change made through a
/// checkpoint, undo gives back the story as it was before the change.
pub proof fn law_checkpoint_undoable(v: AppView, changed: StoryView)
    requires
        app_ok(v),
        changed.blocks.len() >= 1,
    ensures
        undone(with_story(checkpoint(v), changed), false).document.story == v.document.story,
{
}

/// Changing a block's type keeps every block's text and character assignment, and
/// changes no other block's type.
pub proof fn law_retype_keeps_text_and_character(v: AppView, k: Kind)
    requires
        app_ok(v),
    ensures
        ({
            let w = retyped(checkpoint(v), k).document.story.blocks;
            let b = v.document.story.blocks;
            &&& w.len() == b.len()
            &&& w[v.selected as int].kind == k
            &&& forall|i: int| 0 <= i < b.len() ==> (#[trigger] w[i]).text == b[i].text && w[i].character == b[i].character
            &&& forall|i: int| 0 <= i < b.len() && i != v.selected ==> (#[trigger] w[i]).kind == b[i].kind
        }),
{
}

/// Removing a character keeps every block and its text and type; only the assignments
/// to that character are cleared, and no block refers to it afterwards.
pub proof fn law_character_removal_keeps_text(v: AppView, id: u64)
    requires
        app_ok(v),
    ensures
        ({
            let w = character_deleted(v, id).document.story;
            let b = v.document.story.blocks;
            &&& w.blocks.len() == b.len()
            &&& forall|i: int| 0 <= i < b.len() ==> (#[trigger] w.blocks[i]).text == b[i].text && w.blocks[i].kind == b[i].kind
            &&& forall|i: int| 0 <= i < b.len() ==> (#[trigger] w.blocks[i]).character != Some(id)
            &&& forall|i: int| 0 <= i < b.len() && b[i].character != Some(id) ==> (#[trigger] w.blocks[i]).character == b[i].character
            &&& !crate::story::has_id(w.characters, id)
        }),
{
    let w = character_deleted(v, id).document.story;
    let cs = v.document.story.characters;
    let pred = |c: CharacterView| c.id != id;
    if crate::story::has_id(w.characters, id) {
        let i = choose|i: int| 0 <= i < w.characters.len() && w.characters[i].id == id;
        cs.lemma_filter_pred(pred, i);
    }
}

/// Removing a character can be undone: undo right after it gives back the story.
pub proof fn law_character_removal_undoable(v: AppView, id: u64)
    requires
        app_ok(v),
    ensures
        undone(character_deleted(v, id), false).document.story == v.document.story,
{
}

/// Deleting a block can be undone: undo right after it gives back the story.
pub proof fn law_block_deletion_undoable(v: AppView)
    requires
        app_ok(v),
    ensures
        undone(deleted(v), false).document.story == v.document.story,
        deleted(v).document.story.blocks.len() >= 1,
{
}

/// Answering `y` to the question whether to delete the selected block deletes it: the
/// other blocks stay in order (an emptied manuscript gets a blank narration block), the
/// block now in its place, or the last one, is selected and shown in the writing pane,
/// and the dialog is closed.
pub proof fn law_delete_block_by_key(v: AppView, key: KeyEvent, now: u64, w: AppView, e: EffectView)
    requires
        app_ok(v),
        v.modal == Some(ModalView::Confirm(ConfirmView::DeleteBlock)),
        key.code == KeyCode::Char('y'),
        !key.release,
        key_outcome(v, key, now, w, e),
    ensures
        ({
            let n = v.document.story.blocks.len();
            let s = v.selected as int;
            let after = w.document.story.blocks;
            &&& n > 1 ==> after == v.document.story.blocks.remove(s)
            &&& n == 1 ==> after == seq![BlockView { kind: Kind::Narration, character: None, text: Seq::empty() }]
            &&& after.len() >= 1
            &&& w.selected == (if s < after.len() - 1 { s } else { after.len() - 1 })
            &&& w.editor.text == after[w.selected as int].text
            &&& w.modal is None
            &&& e == EffectView::Nothing
        }),
{
}

/// Ctrl+Z then Ctrl+Y, with a change to undo, gives back the story as it was; the
/// restored story's selected block is shown in the writing pane and the status line says
/// the change was restored.
pub proof fn law_undo_redo_by_keys(
    v: AppView,
    undo_key: KeyEvent,
    redo_key: KeyEvent,
    t1: u64,
    t2: u64,
    w1: AppView,
    e1: EffectView,
    w2: AppView,
    e2: EffectView,
)
    requires
        app_ok(v),
        v.modal is None,
        v.undo.len() > 0,
        undo_key.control && !undo_key.release && undo_key.code == KeyCode::Char('z'),
        redo_key.control && !redo_key.release && redo_key.code == KeyCode::Char('y'),
        key_outcome(v, undo_key, t1, w1, e1),
        key_outcome(w1, redo_key, t2, w2, e2),
    ensures
        w1.document.story == v.undo.last(),
        w1.status == "Change undone"@,
        w2.document.story == v.document.story,
        w2.selected < w2.document.story.blocks.len(),
        w2.editor.text == w2.document.story.blocks[w2.selected as int].text,
        w2.status == "Change restored"@,
        e1 == EffectView::Nothing && e2 == EffectView::Nothing,
{
}

/// Starting a change group keeps the story, clears redo and leaves the story on top of
/// the undo history, which never holds more than the limit: a story already on top is not
/// pushed again, and past the limit the oldest group is dropped.
pub proof fn law_checkpoint(v: AppView)
    requires
        v.undo.len() <= UNDO_LIMIT,
    ensures
        ({
            let w = checkpoint(v);
            let h = v.undo;
            let s = v.document.story;
            &&& w.document == v.document
            &&& w.redo.len() == 0
            &&& w.undo.len() <= UNDO_LIMIT
            &&& w.undo.last() == s
            &&& h.len() > 0 && h.last() == s ==> w.undo == h
            &&& !(h.len() > 0 && h.last() == s) ==> w.undo == (if h.len() == UNDO_LIMIT {
                h.skip(1)
            } else {
                h
            }).push(s)
        }),
{
    let h = v.undo;
    let s = v.document.story;
    if !(h.len() > 0 && h.last() == s) && h.len() == UNDO_LIMIT {
        assert(h.push(s).skip(1) =~= h.skip(1).push(s));
    }
}

/// Changing the type of the selected block with a digit key in the outline is one change
/// group: the story before it is on top of the undo history and redo is cleared.
pub proof fn law_retype_key_checkpoints(v: AppView, key: KeyEvent, c: char, now: u64, w: AppView, e: EffectView)
    requires
        app_ok(v),
        v.modal is None,
        !v.editing,
        !key.control && !key.release,
        key.code == KeyCode::Char(c),
        digit_kind(c) is Some,
        key_outcome(v, key, now, w, e),
    ensures
        w.undo == checkpoint(v).undo,
        w.undo.last() == v.document.story,
        w.redo.len() == 0,
        w.document.story.blocks[v.selected as int].kind == digit_kind(c)->0,
{
}

/// `D` in the outline duplicates the selected block: the copy, with the same type,
/// speaker and text, comes right after it and is selected, and every other block keeps
/// its place relative to it.
pub proof fn law_duplicate_by_key(v: AppView, key: KeyEvent, now: u64, w: AppView, e: EffectView)
    requires
        app_ok(v),
        v.modal is None,
        !v.editing,
        !key.control && !key.release,
        key.code == KeyCode::Char('D'),
        v.document.story.blocks.len() < usize::MAX,
        key_outcome(v, key, now, w, e),
    ensures
        ({
            let b = v.document.story.blocks;
            let after = w.document.story.blocks;
            let s = v.selected as int;
            &&& after.len() == b.len() + 1
            &&& after[s + 1] == b[s]
            &&& forall|j: int| 0 <= j <= s ==> #[trigger] after[j] == b[j]
            &&& forall|j: int| s < j < b.len() ==> #[trigger] after[j + 1] == b[j]
            &&& w.selected == s + 1
            &&& w.editor.text == b[s].text
            &&& w.document.story.characters == v.document.story.characters
        }),
{
    let b = v.document.story.blocks;
    let s = v.selected as int;
    let after = w.document.story.blocks;
    assert(after == b.insert(s + 1, b[s]));
    assert(after.len() == b.len() + 1);
    assert(after[s + 1] == b[s]);
    assert forall|j: int| 0 <= j <= s implies #[trigger] after[j] == b[j] by {}
    assert forall|j: int| s < j < b.len() implies #[trigger] after[j + 1] == b[j] by {}
    assert(w.selected == s + 1);
    assert(w.editor.text == b[s].text);
}

proof fn lemma_details_step(v: AppView, f: FormView, key: KeyEvent, now: u64, w: AppView, e: EffectView)
    requires
        v.modal == Some(ModalView::Form(f)),
        f.kind == FormKind::Metadata,
        f.fields.len() == 3,
        key.code == KeyCode::Enter,
        !key.release,
        trim(f.fields[0].editor.text).len() > 0,
        key_outcome(v, key, now, w, e),
    ensures
        w.document.story.title == trim(f.fields[0].editor.text),
        w.document.story.subtitle == trim(f.fields[1].editor.text),
        w.document.story.author == trim(f.fields[2].editor.text),
        w.document.story.characters == v.document.story.characters,
        w.document.story.blocks == v.document.story.blocks,
        w.modal is None,
        e == EffectView::Nothing,
{
    let v0 = AppView { modal: None, ..v };
    assert(modal_step(v0, ModalView::Form(f), key) == form_step(v0, f, key));
    assert(form_step(v0, f, key) == submitted(v0, f));
    assert(values(f)[0] == trim(f.fields[0].editor.text));
    assert(values(f)[1] == trim(f.fields[1].editor.text));
    assert(values(f)[2] == trim(f.fields[2].editor.text));
}

/// Enter in the story-details dialog, with a title, sets the title, subtitle and author
/// to the trimmed texts of the Title, Subtitle and Author fields, in that order, and
/// changes neither the cast nor the blocks.
pub proof fn law_story_details_applied(
    v: AppView,
    f: FormView,
    key: KeyEvent,
    now: u64,
    w: AppView,
    e: EffectView,
)
    requires
        app_ok(v),
        v.modal == Some(ModalView::Form(f)),
        f.kind == FormKind::Metadata,
        key.code == KeyCode::Enter,
        !key.release,
        trim(f.fields[0].editor.text).len() > 0,
        key_outcome(v, key, now, w, e),
    ensures
        w.document.story.title == trim(f.fields[0].editor.text),
        w.document.story.subtitle == trim(f.fields[1].editor.text),
        w.document.story.author == trim(f.fields[2].editor.text),
        w.document.story.characters == v.document.story.characters,
        w.document.story.blocks == v.document.story.blocks,
        w.modal is None,
        e == EffectView::Nothing,
{
    lemma_details_step(v, f, key, now, w, e);
}

proof fn lemma_open_details(v: AppView, open: KeyEvent, now: u64, w: AppView, e: EffectView)
    requires
        v.modal is None,
        !v.editing,
        !open.control && !open.release && open.code == KeyCode::Char('t'),
        key_outcome(v, open, now, w, e),
    ensures
        w == metadata_form(v),
        w.modal == Some(ModalView::Form(form_of(
            FormKind::Metadata,
            " Story details "@,
            seq![("Title"@, v.document.story.title), ("Subtitle"@, v.document.story.subtitle), ("Author"@, v.document.story.author)],
        ))),
{
}

proof fn lemma_details_fields(s: StoryView)
    ensures
        ({
            let f = form_of(FormKind::Metadata, " Story details "@, seq![("Title"@, s.title), ("Subtitle"@, s.subtitle), ("Author"@, s.author)]);
            &&& f.kind == FormKind::Metadata
            &&& f.fields.len() == 3
            &&& f.fields[0].editor.text == s.title
            &&& f.fields[1].editor.text == s.subtitle
            &&& f.fields[2].editor.text == s.author
        }),
{
}

/// Opening the story details with `t` and applying them unchanged with Enter leaves the
/// title, subtitle and author as they were, when they have no surrounding whitespace and
/// the title is not empty.
pub proof fn law_story_details_unchanged(
    v: AppView,
    open: KeyEvent,
    apply: KeyEvent,
    t1: u64,
    t2: u64,
    w1: AppView,
    e1: EffectView,
    w2: AppView,
    e2: EffectView,
)
    requires
        app_ok(v),
        v.modal is None,
        !v.editing,
        !open.control && !open.release && open.code == KeyCode::Char('t'),
        !apply.release && apply.code == KeyCode::Enter,
        trim(v.document.story.title) == v.document.story.title,
        trim(v.document.story.subtitle) == v.document.story.subtitle,
        trim(v.document.story.author) == v.document.story.author,
        v.document.story.title.len() > 0,
        key_outcome(v, open, t1, w1, e1),
        key_outcome(w1, apply, t2, w2, e2),
    ensures
        w2.document.story.title == v.document.story.title,
        w2.document.story.subtitle == v.document.story.subtitle,
        w2.document.story.author == v.document.story.author,
{
    lemma_open_details(v, open, t1, w1, e1);
    let s = v.document.story;
    let f = form_of(FormKind::Metadata, " Story details "@, seq![("Title"@, s.title), ("Subtitle"@, s.subtitle), ("Author"@, s.author)]);
    lemma_details_fields(s);
    lemma_details_step(w1, f, apply, t2, w2, e2);
}

/// `J` in the outline moves the selected block one place down, exchanging it with the
/// next block, and keeps it selected; the last block stays where it is.
pub proof fn law_move_down_by_key(v: AppView, key: KeyEvent, now: u64, w: AppView, e: EffectView)
    requires
        app_ok(v),
        v.modal is None,
        !v.editing,
        !key.control && !key.release,
        key.code == KeyCode::Char('J'),
        v.document.story.blocks.len() <= usize::MAX,
        key_outcome(v, key, now, w, e),
    ensures
        ({
            let b = v.document.story.blocks;
            let after = w.document.story.blocks;
            let s = v.selected as int;
            &&& s + 1 < b.len() ==> {
                &&& after.len() == b.len()
                &&& after[s] == b[s + 1]
                &&& after[s + 1] == b[s]
                &&& forall|j: int| 0 <= j < b.len() && j != s && j != s + 1 ==> #[trigger] after[j] == b[j]
                &&& w.selected == s + 1
            }
            &&& s + 1 == b.len() ==> after == b && w.selected == v.selected
        }),
{
    let b = v.document.story.blocks;
    let s = v.selected as int;
    if s + 1 < b.len() {
        assert(w == moved(v, true));
        assert(w.document.story.blocks == swapped(b, s, s + 1));
    }
}

/// `K` in the outline moves the selected block one place up, exchanging it with the
/// previous block, and keeps it selected; the first block stays where it is.
pub proof fn law_move_up_by_key(v: AppView, key: KeyEvent, now: u64, w: AppView, e: EffectView)
    requires
        app_ok(v),
        v.modal is None,
        !v.editing,
        !key.control && !key.release,
        key.code == KeyCode::Char('K'),
        key_outcome(v, key, now, w, e),
    ensures
        ({
            let b = v.document.story.blocks;
            let after = w.document.story.blocks;
            let s = v.selected as int;
            &&& s > 0 ==> {
                &&& after.len() == b.len()
                &&& after[s] == b[s - 1]
                &&& after[s - 1] == b[s]
                &&& forall|j: int| 0 <= j < b.len() && j != s && j != s - 1 ==> #[trigger] after[j] == b[j]
                &&& w.selected == s - 1
            }
            &&& s == 0 ==> after == b && w.selected == v.selected
        }),
{
}

/// Enter in a character dialog with a name and a valid color saves a character whose
/// name, description and color are the trimmed texts of the Name, Description and Color
/// fields, in that order, under the dialog's ID when it edits one; the blocks stay.
pub proof fn law_character_saved_by_key(
    v: AppView,
    f: FormView,
    id: Option<u64>,
    key: KeyEvent,
    now: u64,
    w: AppView,
    e: EffectView,
)
    requires
        app_ok(v),
        v.modal == Some(ModalView::Form(f)),
        f.kind == FormKind::Character(id),
        key.code == KeyCode::Enter,
        !key.release,
        trim(f.fields[0].editor.text).len() > 0,
        is_color(trim(f.fields[2].editor.text)),
        key_outcome(v, key, now, w, e),
    ensures
        exists|i: int|
            0 <= i < w.document.story.characters.len() && {
                let c = #[trigger] w.document.story.characters[i];
                &&& c.name == trim(f.fields[0].editor.text)
                &&& c.description == trim(f.fields[1].editor.text)
                &&& c.color == trim(f.fields[2].editor.text)
                &&& (id matches Some(x) ==> c.id == x)
            },
        w.document.story.blocks == v.document.story.blocks,
{
    assert(f.fields.len() == 3);
    let vals = values(f);
    assert(vals[0] == trim(f.fields[0].editor.text));
    assert(vals[1] == trim(f.fields[1].editor.text));
    assert(vals[2] == trim(f.fields[2].editor.text));
    let v0 = AppView { modal: None, ..v };
    assert(modal_step(v0, ModalView::Form(f), key) == form_step(v0, f, key));
    assert(form_step(v0, f, key) == submitted(v0, f));
    let v1 = checkpoint(v0);
    let cs = v1.document.story.characters;
    let nid = match id {
        Some(x) => x,
        None => first_free(cs),
    };
    let after = cast_saved(cs, id, vals);
    assert(w.document.story.characters == after);
    match crate::story::find_character(cs, nid) {
        Some(i) => {
            lemma_found_in_range(cs, nid);
            assert(after[i].name == vals[0]);
        },
        None => {
            assert(after[cs.len() as int].name == vals[0]);
        },
    }
}

/// Quitting never discards unsaved changes without asking: with changes, `q` opens the
/// question and the session goes on.
pub proof fn law_quit_asks_when_dirty(v: AppView)
    requires
        is_dirty(v.document),
    ensures
        quit_requested(v).quit == v.quit,
        quit_requested(v).modal == Some(ModalView::Confirm(ConfirmView::Quit)),
        quit_requested(v).document == v.document,
{
}

/// An export never writes onto the manuscript and never replaces an existing file without
/// asking.
pub proof fn law_export_guards(v: AppView, same: bool, exists: bool)
    requires
        same || exists,
    ensures
        !(export_checked(v, same, exists).1 is WriteExport),
        export_checked(v, same, exists).0.document == v.document,
{
}

/// A new block after dialogue, action or thought of the same kind keeps the speaker.
pub proof fn law_new_block_keeps_speaker(v: AppView, k: Kind)
    requires
        app_ok(v),
        v.document.story.blocks.len() < usize::MAX,
        k == Kind::Dialogue || k == Kind::Action || k == Kind::Thought,
    ensures
        added(v, k).document.story.blocks[v.selected + 1] == (BlockView {
            kind: k,
            character: v.document.story.blocks[v.selected as int].character,
            text: Seq::empty(),
        }),
        added(v, k).selected == v.selected + 1,
        added(v, k).editing,
{
    let s = checkpoint(v).document.story;
    let b = BlockView { kind: k, character: s.blocks[v.selected as int].character, text: Seq::empty() };
    assert(s.blocks.insert(v.selected + 1, b).len() == s.blocks.len() + 1);
}

// ---------------------------------------------------------------------------------------
// Valid stories stay valid
// ---------------------------------------------------------------------------------------

/// The story and every story on the undo and redo stacks are valid.
pub open spec fn stories_valid(v: AppView) -> bool {
    &&& valid_story(v.document.story)
    &&& forall|i: int| 0 <= i < v.undo.len() ==> valid_story(#[trigger] v.undo[i])
    &&& forall|i: int| 0 <= i < v.redo.len() ==> valid_story(#[trigger] v.redo[i])
}

/// No two characters share an ID.
pub open spec fn unique_ids(cs: Seq<CharacterView>) -> bool {
    forall|i: int, j: int| 0 <= i < j < cs.len() ==> (#[trigger] cs[i]).id != (#[trigger] cs[j]).id
}

/// A character with a name and a `#RRGGBB` color.
pub open spec fn well_made(c: CharacterView) -> bool {
    !is_blank(c.name) && is_color(c.color)
}

/// Every block refers to no character or to one of the cast.
pub open spec fn refs_ok(cs: Seq<CharacterView>, bs: Seq<BlockView>) -> bool {
    forall|i: int| 0 <= i < bs.len() && (#[trigger] bs[i]).character is Some ==> crate::story::has_id(cs, bs[i].character->0)
}

/// A story is valid exactly when its parts are.
proof fn lemma_valid_parts(s: StoryView)
    ensures
        valid_story(s) <==> {
            &&& s.version == 1
            &&& s.blocks.len() > 0
            &&& unique_ids(s.characters)
            &&& forall|k: int| 0 <= k < s.characters.len() ==> well_made(#[trigger] s.characters[k])
            &&& refs_ok(s.characters, s.blocks)
        },
{
    let cs = s.characters;
    crate::story::lemma_character_error_none(cs, 0);
    if forall|k: int| 0 <= k < cs.len() ==> #[trigger] crate::story::character_ok(cs, k) {
        assert forall|i: int, j: int| 0 <= i < j < cs.len() implies (#[trigger] cs[i]).id != (#[trigger] cs[j]).id by {
            assert(crate::story::character_ok(cs, j));
            assert(cs.take(j)[i] == cs[i]);
        }
        assert forall|k: int| 0 <= k < cs.len() implies well_made(#[trigger] cs[k]) by {
            assert(crate::story::character_ok(cs, k));
        }
    }
    if unique_ids(cs) && forall|k: int| 0 <= k < cs.len() ==> well_made(#[trigger] cs[k]) {
        assert forall|k: int| 0 <= k < cs.len() implies #[trigger] crate::story::character_ok(cs, k) by {
            assert(well_made(cs[k]));
            if crate::story::has_id(cs.take(k), cs[k].id) {
                let i = choose|i: int| 0 <= i < cs.take(k).len() && cs.take(k)[i].id == cs[k].id;
                assert(cs[i].id != cs[k].id);
            }
        }
    }
}

/// Whether the blocks of `t` only refer to characters that `s`'s blocks or cast had.
proof fn lemma_valid_same_cast(s: StoryView, t: StoryView)
    requires
        valid_story(s),
        t.version == s.version,
        t.characters == s.characters,
        t.blocks.len() > 0,
        refs_ok(t.characters, t.blocks),
    ensures
        valid_story(t),
{
    lemma_valid_parts(s);
    lemma_valid_parts(t);
}

/// Blank text trims to nothing, so a non-empty trimmed value is not blank.
proof fn lemma_trim_not_blank(s: Seq<char>)
    requires
        trim(s).len() > 0,
    ensures
        !is_blank(trim(s)),
{
    lemma_trim_start_head(s);
    let u = crate::text::trim_start(s);
    lemma_trim_end_prefix(u);
    assert(trim(s)[0] == u[0]);
}

proof fn lemma_trim_start_head(s: Seq<char>)
    ensures
        crate::text::trim_start(s).len() > 0 ==> !is_ws(crate::text::trim_start(s)[0]),
    decreases s.len(),
{
    if s.len() > 0 && is_ws(s[0]) {
        lemma_trim_start_head(s.skip(1));
    }
}

proof fn lemma_trim_end_prefix(u: Seq<char>)
    ensures
        crate::text::trim_end(u).len() <= u.len(),
        crate::text::trim_end(u) == u.take(crate::text::trim_end(u).len() as int),
    decreases u.len(),
{
    if u.len() > 0 && is_ws(u.last()) {
        lemma_trim_end_prefix(u.drop_last());
        let t = crate::text::trim_end(u.drop_last());
        assert(u.drop_last().take(t.len() as int) =~= u.take(t.len() as int));
    } else {
        assert(u.take(u.len() as int) =~= u);
    }
}

/// Removing the characters with one ID keeps the others distinct and well made.
proof fn lemma_filter_cast(cs: Seq<CharacterView>, id: u64)
    requires
        unique_ids(cs),
        forall|k: int| 0 <= k < cs.len() ==> well_made(#[trigger] cs[k]),
    ensures
        unique_ids(cast_without(cs, id)),
        forall|k: int| 0 <= k < cast_without(cs, id).len() ==> well_made(#[trigger] cast_without(cs, id)[k]),
        forall|x: u64| x != id && crate::story::has_id(cs, x) ==> crate::story::has_id(cast_without(cs, id), x),
    decreases cs.len(),
{
    let p = |c: CharacterView| c.id != id;
    let f = cast_without(cs, id);
    reveal(Seq::filter);
    if cs.len() > 0 {
        let d = cs.drop_last();
        assert forall|i: int, j: int| 0 <= i < j < d.len() implies (#[trigger] d[i]).id != (#[trigger] d[j]).id by {
            assert(d[i] == cs[i] && d[j] == cs[j]);
        }
        assert forall|k: int| 0 <= k < d.len() implies well_made(#[trigger] d[k]) by {
            assert(d[k] == cs[k]);
        }
        lemma_filter_cast(d, id);
        let fd = cast_without(d, id);
        assert forall|i: int| 0 <= i < fd.len() implies d.contains(#[trigger] fd[i]) by {
            assert(fd.contains(fd[i]));
            d.lemma_filter_contains_rev(p, fd[i]);
        }
        assert(f == if p(cs.last()) { fd.push(cs.last()) } else { fd });
        if p(cs.last()) {
            assert forall|i: int, j: int| 0 <= i < j < f.len() implies (#[trigger] f[i]).id != (#[trigger] f[j]).id by {
                if j == f.len() - 1 {
                    assert(d.contains(fd[i]));
                    let k = choose|k: int| 0 <= k < d.len() && d[k] == fd[i];
                    assert(cs[k] == d[k]);
                    assert(cs[k].id != cs[cs.len() - 1].id);
                } else {
                    assert(f[i] == fd[i] && f[j] == fd[j]);
                }
            }
            assert forall|k: int| 0 <= k < f.len() implies well_made(#[trigger] f[k]) by {
                if k < fd.len() {
                    assert(f[k] == fd[k]);
                }
            }
        }
        assert forall|x: u64| x != id && crate::story::has_id(cs, x) implies crate::story::has_id(f, x) by {
            let k = choose|k: int| 0 <= k < cs.len() && cs[k].id == x;
            if k < cs.len() - 1 {
                assert(d[k] == cs[k]);
                assert(crate::story::has_id(d, x));
                let m = choose|m: int| 0 <= m < fd.len() && fd[m].id == x;
                if p(cs.last()) {
                    assert(f[m] == fd[m]);
                }
            } else {
                assert(f[f.len() - 1] == cs.last());
            }
        }
    }
}

/// A story whose block list changed but whose blocks only refer to the cast stays valid.
proof fn lemma_reblocked(s: StoryView, bs: Seq<BlockView>)
    requires
        valid_story(s),
        bs.len() > 0,
        forall|i: int| 0 <= i < bs.len() && (#[trigger] bs[i]).character is Some ==> crate::story::has_id(s.characters, bs[i].character->0),
    ensures
        valid_story(StoryView { blocks: bs, ..s }),
{
    lemma_valid_same_cast(s, StoryView { blocks: bs, ..s });
}

proof fn lemma_checkpoint_valid(v: AppView)
    requires
        stories_valid(v),
    ensures
        stories_valid(checkpoint(v)),
        checkpoint(v).document == v.document,
{
    let w = checkpoint(v);
    if !(v.undo.len() > 0 && v.undo.last() == v.document.story) {
        let p = v.undo.push(v.document.story);
        assert forall|i: int| 0 <= i < p.len() implies valid_story(#[trigger] p[i]) by {
            if i < v.undo.len() {
                assert(p[i] == v.undo[i]);
            }
        }
        if p.len() > UNDO_LIMIT {
            assert forall|i: int| 0 <= i < w.undo.len() implies valid_story(#[trigger] w.undo[i]) by {
                assert(w.undo[i] == p[i + 1]);
            }
        }
    }
}

/// Replacing the selected block by one with the same or a cast character keeps the story
/// valid.
proof fn lemma_block_swap_valid(s: StoryView, i: int, b: BlockView)
    requires
        valid_story(s),
        0 <= i < s.blocks.len(),
        b.character is Some ==> crate::story::has_id(s.characters, b.character->0),
    ensures
        valid_story(with_block(s, i, b)),
{
    lemma_valid_parts(s);
    let bs = s.blocks.update(i, b);
    assert forall|j: int| 0 <= j < bs.len() && (#[trigger] bs[j]).character is Some implies crate::story::has_id(s.characters, bs[j].character->0) by {
        if j != i {
            assert(bs[j] == s.blocks[j]);
        }
    }
    lemma_reblocked(s, bs);
}

proof fn lemma_text_changed_valid(v: AppView, old: Seq<char>, now: u64)
    requires
        stories_valid(v),
        v.selected < v.document.story.blocks.len(),
    ensures
        stories_valid(text_changed(v, old, now)),
{
    if old != v.editor.text {
        let v1 = if new_group(v.last_edit, now) { checkpoint(v) } else { v };
        lemma_checkpoint_valid(v);
        let s = v1.document.story;
        lemma_valid_parts(s);
        let b = s.blocks[v.selected as int];
        assert(b.character is Some ==> crate::story::has_id(s.characters, b.character->0));
        lemma_block_swap_valid(s, v.selected as int, BlockView { text: v.editor.text, ..b });
    }
}

proof fn lemma_undone_valid(v: AppView, redo: bool)
    requires
        stories_valid(v),
    ensures
        stories_valid(undone(v, redo)),
{
    let stack = if redo { v.redo } else { v.undo };
    if stack.len() > 0 {
        let w = undone(v, redo);
        assert(valid_story(stack[stack.len() - 1]));
        if redo {
            assert forall|i: int| 0 <= i < w.undo.len() implies valid_story(#[trigger] w.undo[i]) by {
                if i < v.undo.len() {
                    assert(w.undo[i] == v.undo[i]);
                }
            }
            assert forall|i: int| 0 <= i < w.redo.len() implies valid_story(#[trigger] w.redo[i]) by {
                assert(w.redo[i] == v.redo[i]);
            }
        } else {
            assert forall|i: int| 0 <= i < w.redo.len() implies valid_story(#[trigger] w.redo[i]) by {
                if i < v.redo.len() {
                    assert(w.redo[i] == v.redo[i]);
                }
            }
            assert forall|i: int| 0 <= i < w.undo.len() implies valid_story(#[trigger] w.undo[i]) by {
                assert(w.undo[i] == v.undo[i]);
            }
        }
    }
}

proof fn lemma_moved_valid(v: AppView, down: bool)
    requires
        stories_valid(v),
        app_ok(v),
    ensures
        stories_valid(moved(v, down)),
{
    lemma_checkpoint_valid(v);
    let s = v.document.story;
    let n = s.blocks.len();
    let target: int = if down {
        if v.selected + 1 < n - 1 { v.selected + 1 } else { n - 1 }
    } else if v.selected > 0 {
        v.selected - 1
    } else {
        0
    };
    lemma_valid_parts(s);
    let bs = swapped(s.blocks, v.selected as int, target);
    assert forall|j: int| 0 <= j < bs.len() && (#[trigger] bs[j]).character is Some implies crate::story::has_id(s.characters, bs[j].character->0) by {
        if j == target {
            assert(bs[j] == s.blocks[v.selected as int]);
        } else if j == v.selected {
            assert(bs[j] == s.blocks[target]);
        } else {
            assert(bs[j] == s.blocks[j]);
        }
    }
    lemma_reblocked(s, bs);
}

proof fn lemma_assigned_valid(v: AppView, c: Option<u64>)
    requires
        stories_valid(v),
        app_ok(v),
        c is Some ==> crate::story::has_id(v.document.story.characters, c->0),
    ensures
        stories_valid(assigned(v, c)),
{
    let s = v.document.story;
    lemma_block_swap_valid(s, v.selected as int, BlockView { character: c, ..s.blocks[v.selected as int] });
}

proof fn lemma_retyped_valid(v: AppView, k: Kind)
    requires
        stories_valid(v),
        app_ok(v),
    ensures
        stories_valid(retyped(v, k)),
{
    let s = v.document.story;
    lemma_valid_parts(s);
    let b = s.blocks[v.selected as int];
    assert(b.character is Some ==> crate::story::has_id(s.characters, b.character->0));
    lemma_block_swap_valid(s, v.selected as int, BlockView { kind: k, ..b });
}

proof fn lemma_added_valid(v: AppView, k: Kind)
    requires
        stories_valid(v),
        app_ok(v),
    ensures
        stories_valid(added(v, k)),
{
    lemma_checkpoint_valid(v);
    let s = v.document.story;
    lemma_valid_parts(s);
    let keeps = k == Kind::Dialogue || k == Kind::Action || k == Kind::Thought;
    let character = if keeps { s.blocks[v.selected as int].character } else { None };
    let at = v.selected + 1;
    let nb = BlockView { kind: k, character, text: Seq::empty() };
    let bs = s.blocks.insert(at, nb);
    assert forall|j: int| 0 <= j < bs.len() && (#[trigger] bs[j]).character is Some implies crate::story::has_id(s.characters, bs[j].character->0) by {
        if j < at {
            assert(bs[j] == s.blocks[j]);
        } else if j > at {
            assert(bs[j] == s.blocks[j - 1]);
        }
    }
    lemma_reblocked(s, bs);
}

proof fn lemma_deleted_valid(v: AppView)
    requires
        stories_valid(v),
        app_ok(v),
    ensures
        stories_valid(deleted(v)),
{
    lemma_checkpoint_valid(v);
    let s = v.document.story;
    lemma_valid_parts(s);
    let rest = s.blocks.remove(v.selected as int);
    if rest.len() == 0 {
        lemma_reblocked(s, seq![BlockView { kind: Kind::Narration, character: None, text: Seq::empty() }]);
    } else {
        assert forall|j: int| 0 <= j < rest.len() && (#[trigger] rest[j]).character is Some implies crate::story::has_id(s.characters, rest[j].character->0) by {
            if j < v.selected {
                assert(rest[j] == s.blocks[j]);
            } else {
                assert(rest[j] == s.blocks[j + 1]);
            }
        }
        lemma_reblocked(s, rest);
    }
}

proof fn lemma_duplicated_valid(v: AppView)
    requires
        stories_valid(v),
        app_ok(v),
    ensures
        stories_valid(duplicated(v)),
{
    lemma_checkpoint_valid(v);
    let s = v.document.story;
    lemma_valid_parts(s);
    let at = v.selected + 1;
    let bs = s.blocks.insert(at, s.blocks[v.selected as int]);
    assert forall|j: int| 0 <= j < bs.len() && (#[trigger] bs[j]).character is Some implies crate::story::has_id(s.characters, bs[j].character->0) by {
        if j < at {
            assert(bs[j] == s.blocks[j]);
        } else if j > at {
            assert(bs[j] == s.blocks[j - 1]);
        }
    }
    lemma_reblocked(s, bs);
}

proof fn lemma_character_deleted_valid(v: AppView, id: u64)
    requires
        stories_valid(v),
    ensures
        stories_valid(character_deleted(v, id)),
{
    lemma_checkpoint_valid(v);
    let s = v.document.story;
    lemma_valid_parts(s);
    lemma_filter_cast(s.characters, id);
    let t = without_character(s, id);
    assert forall|j: int| 0 <= j < t.blocks.len() && (#[trigger] t.blocks[j]).character is Some implies crate::story::has_id(t.characters, t.blocks[j].character->0) by {
        assert(s.blocks[j].character is Some && s.blocks[j].character != Some(id));
        assert(crate::story::has_id(s.characters, s.blocks[j].character->0));
    }
    lemma_valid_parts(t);
}

#[verifier::rlimit(60)]
#[verifier::spinoff_prover]
proof fn lemma_character_saved_valid(v: AppView, id: Option<u64>, vals: Seq<Seq<char>>)
    requires
        stories_valid(v),
        v.document.story.characters.len() < u64::MAX,
        vals.len() == 3,
        !is_blank(vals[0]),
        is_color(vals[2]),
    ensures
        stories_valid(character_saved(v, id, vals)),
{
    lemma_checkpoint_valid(v);
    let s = v.document.story;
    lemma_valid_parts(s);
    let cs = s.characters;
    let nid = match id {
        Some(x) => x,
        None => first_free(cs),
    };
    let c = CharacterView { id: nid, name: vals[0], description: vals[1], color: vals[2] };
    let ns = cast_saved(cs, id, vals);
    lemma_found_in_range(cs, nid);
    match crate::story::find_character(cs, nid) {
        Some(i) => {
            assert forall|a: int, b: int| 0 <= a < b < ns.len() implies (#[trigger] ns[a]).id != (#[trigger] ns[b]).id by {
                assert(ns[a].id == cs[a].id && ns[b].id == cs[b].id);
            }
            assert forall|k: int| 0 <= k < ns.len() implies well_made(#[trigger] ns[k]) by {
                if k != i {
                    assert(ns[k] == cs[k]);
                }
            }
            assert forall|x: u64| crate::story::has_id(cs, x) implies crate::story::has_id(ns, x) by {
                let k = choose|k: int| 0 <= k < cs.len() && cs[k].id == x;
                assert(ns[k].id == cs[k].id);
            }
        },
        None => {
            if id is None {
                lemma_first_free_exists(cs);
            }
            assert(!crate::story::has_id(cs, nid));
            assert forall|a: int, b: int| 0 <= a < b < ns.len() implies (#[trigger] ns[a]).id != (#[trigger] ns[b]).id by {
                if b == cs.len() {
                    assert(ns[a] == cs[a]);
                } else {
                    assert(ns[a] == cs[a] && ns[b] == cs[b]);
                }
            }
            assert forall|k: int| 0 <= k < ns.len() implies well_made(#[trigger] ns[k]) by {
                if k < cs.len() {
                    assert(ns[k] == cs[k]);
                }
            }
            assert forall|x: u64| crate::story::has_id(cs, x) implies crate::story::has_id(ns, x) by {
                let k = choose|k: int| 0 <= k < cs.len() && cs[k].id == x;
                assert(ns[k] == cs[k]);
            }
        },
    }
    let t = StoryView { characters: ns, ..s };
    assert(refs_ok(t.characters, t.blocks));
    lemma_valid_parts(t);
}

/// Some positive ID is free when the cast is smaller than the ID space.
proof fn lemma_first_free_exists(cs: Seq<CharacterView>)
    requires
        cs.len() < u64::MAX,
    ensures
        !crate::story::has_id(cs, first_free(cs)),
        first_free(cs) >= 1,
{
    let k: u64 = (cs.len() + 1) as u64;
    assert(!forall|y: u64| 1 <= y <= k ==> crate::story::has_id(cs, y)) by {
        if forall|y: u64| 1 <= y <= k ==> crate::story::has_id(cs, y) {
            lemma_ids_bound(cs, k);
        }
    }
    let y0 = choose|y: u64| 1 <= y <= k && !crate::story::has_id(cs, y);
    lemma_least_free(cs, y0);
}

proof fn lemma_least_free(cs: Seq<CharacterView>, y: u64)
    requires
        1 <= y,
        !crate::story::has_id(cs, y),
    ensures
        !crate::story::has_id(cs, first_free(cs)),
        first_free(cs) >= 1,
    decreases y,
{
    if exists|z: u64| 1 <= z < y && !crate::story::has_id(cs, z) {
        let z = choose|z: u64| 1 <= z < y && !crate::story::has_id(cs, z);
        lemma_least_free(cs, z);
    } else {
        lemma_first_free(cs, y);
    }
}

proof fn lemma_submitted_valid(v: AppView, f: FormView)
    requires
        stories_valid(v),
        app_ok(v),
        form_ok(f),
        v.document.story.characters.len() < u64::MAX,
    ensures
        stories_valid(submitted(v, f).0),
{
    let vals = values(f);
    match f.kind {
        FormKind::Metadata => {
            if vals[0].len() > 0 {
                lemma_checkpoint_valid(v);
                let s = v.document.story;
                lemma_valid_parts(s);
                lemma_valid_parts(StoryView { title: vals[0], subtitle: vals[1], author: vals[2], ..s });
            }
        },
        FormKind::Character(id) => {
            if !(vals[0].len() == 0 || !is_color(vals[2])) {
                assert(vals[0] == trim(f.fields[0].editor.text));
                lemma_trim_not_blank(f.fields[0].editor.text);
                lemma_character_saved_valid(v, id, vals);
            }
        },
        _ => {},
    }
}

proof fn lemma_cast_step_valid(v: AppView, code: KeyCode)
    requires
        stories_valid(v),
        app_ok(v),
    ensures
        stories_valid(cast_step(v, code)),
{
    let u = AppView { modal: Some(ModalView::Cast), ..v };
    let cs = v.document.story.characters;
    let c = v.cast_selected;
    if code == KeyCode::Enter && cs.len() > 0 {
        lemma_checkpoint_valid(u);
        assert(crate::story::has_id(cs, cs[c as int].id));
        lemma_assigned_valid(checkpoint(u), Some(cs[c as int].id));
    } else if code == KeyCode::Char('0') {
        lemma_checkpoint_valid(u);
        lemma_assigned_valid(checkpoint(u), None);
    }
}

proof fn lemma_modal_step_valid(v: AppView, m: ModalView, key: KeyEvent)
    requires
        stories_valid(v),
        app_ok(AppView { modal: Some(m), ..v }),
        v.modal is None,
        v.document.story.characters.len() < u64::MAX,
    ensures
        stories_valid(modal_step(v, m, key).0),
{
    if key.code != KeyCode::Esc {
        match m {
            ModalView::Add => {
                if let KeyCode::Char(c) = key.code {
                    if let Some(k) = digit_kind(c) {
                        lemma_added_valid(v, k);
                    }
                }
            },
            ModalView::Cast => lemma_cast_step_valid(v, key.code),
            ModalView::Form(f) => {
                if key.code == KeyCode::Enter && !(key.code == KeyCode::Char('u') && key.control) {
                    lemma_submitted_valid(v, f);
                }
            },
            ModalView::Confirm(c) => {
                if key.code == KeyCode::Char('y') {
                    match c {
                        ConfirmView::DeleteBlock => lemma_deleted_valid(v),
                        ConfirmView::DeleteCharacter(id) => lemma_character_deleted_valid(v, id),
                        _ => {},
                    }
                }
            },
            _ => {},
        }
    }
}

#[verifier::rlimit(80)]
#[verifier::spinoff_prover]
proof fn lemma_outline_step_valid(v: AppView, code: KeyCode)
    requires
        stories_valid(v),
        app_ok(v),
    ensures
        stories_valid(outline_step(v, code).0),
{
    match code {
        KeyCode::Char('u') => lemma_undone_valid(v, false),
        KeyCode::Char('r') => lemma_undone_valid(v, true),
        KeyCode::Char('J') => lemma_moved_valid(v, true),
        KeyCode::Char('K') => lemma_moved_valid(v, false),
        KeyCode::Char('D') => lemma_duplicated_valid(v),
        KeyCode::Tab => lemma_cycled_valid(v),
        KeyCode::Char(c) => {
            if let Some(k) = digit_kind(c) {
                lemma_checkpoint_valid(v);
                lemma_retyped_valid(checkpoint(v), k);
            }
        },
        _ => {},
    }
}

proof fn lemma_cycled_valid(v: AppView)
    requires
        stories_valid(v),
        app_ok(v),
    ensures
        stories_valid(cycled(v)),
{
    let cs = v.document.story.characters;
    if cs.len() > 0 {
        lemma_checkpoint_valid(v);
        let next = next_character(cs, v.document.story.blocks[v.selected as int].character);
        if let Some(x) = next {
            let current = v.document.story.blocks[v.selected as int].character;
            if let Some(cid) = current {
                lemma_found_in_range(cs, cid);
            }
            let i = choose|i: int| 0 <= i < cs.len() && cs[i].id == x;
            assert(crate::story::has_id(cs, x)) by {
                let n: int = match current {
                    Some(cid) => match crate::story::find_character(cs, cid) {
                        Some(j) => j + 1,
                        None => 0,
                    },
                    None => 0,
                };
                assert(0 <= n < cs.len() && cs[n].id == x);
            }
        }
        lemma_assigned_valid(checkpoint(v), next);
    }
}

/// Every key keeps a valid story valid, and with it every story that undo and redo can
/// bring back: no sequence of edits produces a manuscript that saving or exporting would
/// refuse.
pub proof fn law_keys_keep_stories_valid(v: AppView, key: KeyEvent, now: u64, w: AppView, e: EffectView)
    requires
        app_ok(v),
        app_roomy(v),
        stories_valid(v),
        key_outcome(v, key, now, w, e),
    ensures
        stories_valid(w),
{
    if !key.release {
        match v.modal {
            Some(m) => {
                lemma_modal_step_valid(AppView { modal: None, ..v }, m, key);
            },
            None => {
                if key.control {
                    match key.code {
                        KeyCode::Char('z') => lemma_undone_valid(v, false),
                        KeyCode::Char('y') => lemma_undone_valid(v, true),
                        KeyCode::Char('b') => lemma_formatted_valid(v, 2),
                        KeyCode::Char('i') => lemma_formatted_valid(v, 1),
                        _ => {},
                    }
                } else {
                    let code = key.code;
                    if !(code == KeyCode::F(1) || code == KeyCode::F(2) || code == KeyCode::F(4) || code == KeyCode::F(5)) {
                        if v.editing {
                            if code == KeyCode::Tab {
                                lemma_cycled_valid(v);
                            } else if code != KeyCode::Esc {
                                let u = AppView { editor: keyed(v.editor, key, v.editor_width, true), ..v };
                                lemma_text_changed_valid(u, v.editor.text, now);
                            }
                        } else {
                            lemma_outline_step_valid(v, code);
                        }
                    }
                }
            },
        }
    }
}

proof fn lemma_formatted_valid(v: AppView, n: nat)
    requires
        stories_valid(v),
        app_ok(v),
    ensures
        stories_valid(formatted(v, n)),
{
    let marks = Seq::new(2 * n, |i: int| '*');
    let e = inserted(v.editor, marks);
    let back = e.cursor - n;
    let e2 = if back >= 0 && crate::editor::cursor_ok(e.text, back) {
        EditorView { cursor: back as usize, ..e }
    } else {
        e
    };
    lemma_text_changed_valid(AppView { last_edit: None, editor: e2, ..v }, v.editor.text, 0);
}

/// Pasting keeps a valid story valid.
pub proof fn law_paste_keeps_stories_valid(v: AppView, text: Seq<char>)
    requires
        app_ok(v),
        stories_valid(v),
    ensures
        stories_valid(pasted(v, text)),
{
    if v.modal is None && v.editing {
        lemma_text_changed_valid(AppView { last_edit: None, editor: inserted(v.editor, text), ..v }, v.editor.text, 0);
    }
}

} // verus!
