//! A plain-text editing field: grapheme-aware cursor movement, sanitised insertion and
//! soft wrapping by display width.
use vstd::prelude::*;
use vstd::string::*;
use unicode_segmentation::UnicodeSegmentation;
use unicode_width::UnicodeWidthStr;
use crate::keys::{KeyCode, KeyEvent};
use crate::text::{
    blank, byte_len, char_index, char_len, char_position, chars_of, is_blank, is_ctrl, is_ws, is_control,
    is_whitespace, lemma_byte_len_concat, lemma_byte_len_prefix, lemma_byte_len_push,
    lemma_char_index, lemma_len_le_byte_len, on_boundary, prefix_bytes, push_char, push_str,
    string_from, string_from_range, utf8_len, utf8_size,
};

verus! {

broadcast use vstd::seq_lib::group_seq_properties;

// ---------------------------------------------------------------------------------------
// Grapheme clusters and display width
// ---------------------------------------------------------------------------------------

/// The extended grapheme clusters of a text, each with its byte offset, as
/// `unicode_segmentation` splits it.
pub uninterp spec fn grapheme_clusters(text: Seq<char>) -> Seq<(usize, Seq<char>)>;

/// The display width of a text in terminal columns, as `unicode_width` measures it.
pub uninterp spec fn display_width(text: Seq<char>) -> usize;

/// The text of the clusters, in order.
pub open spec fn flatten(gs: Seq<(usize, Seq<char>)>) -> Seq<char>
    decreases gs.len(),
{
    if gs.len() == 0 {
        Seq::empty()
    } else {
        flatten(gs.drop_last()) + gs.last().1
    }
}

/// Clusters that split `text`: non-empty, together the whole text, each with the byte
/// length of the text before it as its offset.
pub open spec fn splits(gs: Seq<(usize, Seq<char>)>, text: Seq<char>) -> bool {
    &&& flatten(gs) == text
    &&& forall|k: int|
        0 <= k < gs.len() ==> (#[trigger] gs[k]).1.len() > 0 && gs[k].0 == byte_len(
            flatten(gs.take(k)),
        )
}

/// The clusters as plain values.
pub open spec fn cluster_views(v: Seq<(usize, String)>) -> Seq<(usize, Seq<char>)> {
    v.map_values(|p: (usize, String)| (p.0, p.1@))
}

/// `UnicodeSegmentation::grapheme_indices(text, true)`: the extended grapheme clusters of
/// the text in order, with their byte offsets. The crate documents them as consecutive,
/// non-empty slices that together make up the text, each offset being where its cluster
/// starts; nothing is stated about where the boundaries fall.
#[verifier::external_body]
fn grapheme_indices(text: &str) -> (r: Vec<(usize, String)>)
    ensures
        cluster_views(r@) == grapheme_clusters(text@),
        splits(cluster_views(r@), text@),
{
    text.grapheme_indices(true).map(|(i, g)| (i, g.to_owned())).collect()
}

/// `UnicodeWidthStr::width`: the display width of a text. Under the crate's rules the
/// text is never wider than three columns for each of its characters (a recognised emoji
/// sequence counts two columns in all, and no single character counts more than three);
/// the width of a particular text is left unstated.
#[verifier::external_body]
fn text_width(text: &str) -> (r: usize)
    ensures
        r == display_width(text@),
        r <= 3 * text@.len(),
{
    UnicodeWidthStr::width(text)
}

proof fn lemma_flatten_take(gs: Seq<(usize, Seq<char>)>, k: int)
    requires
        0 <= k < gs.len(),
    ensures
        flatten(gs.take(k + 1)) == flatten(gs.take(k)) + gs[k].1,
{
    assert(gs.take(k + 1).drop_last() =~= gs.take(k));
}

/// A prefix of the clusters spells a prefix of the text.
proof fn lemma_flatten_prefix(gs: Seq<(usize, Seq<char>)>, k: int)
    requires
        0 <= k <= gs.len(),
    ensures
        flatten(gs.take(k)).len() <= flatten(gs).len(),
        flatten(gs).take(flatten(gs.take(k)).len() as int) == flatten(gs.take(k)),
    decreases gs.len() - k,
{
    if k == gs.len() {
        assert(gs.take(k) =~= gs);
        assert(flatten(gs).take(flatten(gs).len() as int) =~= flatten(gs));
    } else {
        lemma_flatten_prefix(gs, k + 1);
        lemma_flatten_take(gs, k);
        let a = flatten(gs.take(k));
        let b = flatten(gs.take(k + 1));
        assert(flatten(gs).take(a.len() as int) =~= b.take(a.len() as int));
        assert(b.take(a.len() as int) =~= a);
    }
}

/// The offset of a cluster falls between characters of the text.
proof fn lemma_cluster_offset(gs: Seq<(usize, Seq<char>)>, text: Seq<char>, k: int)
    requires
        splits(gs, text),
        0 <= k < gs.len(),
    ensures
        on_boundary(text, gs[k].0 as int),
        flatten(gs.take(k)).len() < text.len(),
{
    lemma_flatten_prefix(gs, k);
    lemma_flatten_prefix(gs, k + 1);
    lemma_flatten_take(gs, k);
    let n = flatten(gs.take(k)).len() as int;
    assert(text.take(n) == flatten(gs.take(k)));
    assert(byte_len(text.take(n)) == gs[k].0);
    assert(gs[k].1.len() > 0);
}

// ---------------------------------------------------------------------------------------
// Soft wrapping
// ---------------------------------------------------------------------------------------

/// Some character of the text is whitespace.
pub open spec fn has_ws(s: Seq<char>) -> bool {
    exists|i: int| 0 <= i < s.len() && is_ws(#[trigger] s[i])
}

/// A cluster that begins a word: not all whitespace, first or after an all-whitespace
/// cluster.
pub open spec fn word_start(gs: Seq<(usize, Seq<char>)>, i: int) -> bool {
    !is_blank(gs[i].1) && (i == 0 || is_blank(gs[i - 1].1))
}

/// The display width of the clusters from `i` up to the first that holds whitespace,
/// `ws` giving the width of each cluster.
pub open spec fn word_width(gs: Seq<(usize, Seq<char>)>, ws: Seq<usize>, i: int) -> int
    decreases gs.len() - i,
{
    if i < 0 || i >= gs.len() || has_ws(gs[i].1) {
        0
    } else {
        ws[i] + word_width(gs, ws, i + 1)
    }
}

/// A layout in progress: the lines so far (the last one open), the byte offset, row and
/// column of each placed cluster, and the row and column where the next one goes.
pub struct Layout {
    pub lines: Seq<Seq<char>>,
    pub positions: Seq<(usize, usize, usize)>,
    pub row: nat,
    pub col: nat,
}

/// Opens a new line.
pub open spec fn break_line(l: Layout) -> Layout {
    Layout { lines: l.lines.push(Seq::empty()), positions: l.positions, row: l.row + 1, col: 0 }
}

/// Places cluster `i`. A line feed ends the line. Another cluster goes on a new line when
/// it would pass the width, or when it starts a word that fits a line but not the rest
/// of this one.
pub open spec fn place(gs: Seq<(usize, Seq<char>)>, ws: Seq<usize>, width: int, l: Layout, i: int) -> Layout {
    let g = gs[i].1;
    let w = ws[i] as int;
    let ww = word_width(gs, ws, i);
    let newline = g == seq!['\n'];
    let wrap_word = word_start(gs, i) && l.col > 0 && ww <= width && l.col + ww > width;
    let l1 = if !newline && (l.col + w > width || wrap_word) { break_line(l) } else { l };
    let l2 = Layout {
        positions: l1.positions.push((gs[i].0, l1.row as usize, l1.col as usize)),
        ..l1
    };
    if newline {
        break_line(l2)
    } else {
        Layout {
            lines: l2.lines.update(l2.lines.len() - 1, l2.lines.last() + g),
            col: (l2.col + w) as nat,
            ..l2
        }
    }
}

/// The layout of the first `n` clusters.
pub open spec fn layout(gs: Seq<(usize, Seq<char>)>, ws: Seq<usize>, width: int, n: int) -> Layout
    decreases n,
{
    if n <= 0 {
        Layout { lines: seq![Seq::empty()], positions: Seq::empty(), row: 0, col: 0 }
    } else {
        place(gs, ws, width, layout(gs, ws, width, n - 1), n - 1)
    }
}

/// The finished layout: a full last line is closed, and the end of the text gets a
/// position.
pub open spec fn finish(l: Layout, width: int, end: usize) -> Layout {
    let l1 = if l.col >= width { break_line(l) } else { l };
    Layout { positions: l1.positions.push((end, l1.row as usize, l1.col as usize)), ..l1 }
}

/// The width used for wrapping: at least two columns.
pub open spec fn wrap_width(width: usize) -> int {
    if width < 2 { 2 } else { width as int }
}

/// The soft-wrapped layout of clusters of the given widths at a width, the end of the
/// text being at byte `end`.
pub open spec fn wrap_layout(gs: Seq<(usize, Seq<char>)>, ws: Seq<usize>, width: usize, end: usize) -> Layout {
    finish(layout(gs, ws, wrap_width(width), gs.len() as int), wrap_width(width), end)
}

/// The display width of each cluster.
pub open spec fn widths_of(gs: Seq<(usize, Seq<char>)>) -> Seq<usize> {
    Seq::new(gs.len(), |k: int| display_width(gs[k].1))
}

/// The soft-wrapped layout of a text at a width.
pub open spec fn wrap_of(text: Seq<char>, width: usize) -> Layout {
    let gs = grapheme_clusters(text);
    wrap_layout(gs, widths_of(gs), width, byte_len(text) as usize)
}

/// The row and column of the first position at byte `b`, or the origin.
pub open spec fn cell_of(ps: Seq<(usize, usize, usize)>, b: usize, k: int) -> (usize, usize)
    decreases ps.len() - k,
{
    if k < 0 || k >= ps.len() {
        (0, 0)
    } else if ps[k].0 == b {
        (ps[k].1, ps[k].2)
    } else {
        cell_of(ps, b, k + 1)
    }
}

/// The lines of a wrapped view as character sequences.
pub open spec fn line_views(v: Seq<String>) -> Seq<Seq<char>> {
    v.map_values(|s: String| s@)
}

/// Every cluster is at most as long as the text, and there are at most as many clusters
/// as characters.
proof fn lemma_cluster_lengths(gs: Seq<(usize, Seq<char>)>, text: Seq<char>)
    requires
        splits(gs, text),
    ensures
        gs.len() <= text.len(),
        forall|k: int| 0 <= k < gs.len() ==> (#[trigger] gs[k]).1.len() <= text.len(),
{
    assert forall|k: int| 0 <= k < gs.len() implies (#[trigger] gs[k]).1.len() <= text.len() by {
        lemma_flatten_prefix(gs, k + 1);
        lemma_flatten_take(gs, k);
    }
    lemma_flatten_count(gs, gs.len() as int);
    assert(gs.take(gs.len() as int) =~= gs);
}

/// Non-empty clusters: `k` of them hold at least `k` characters.
proof fn lemma_flatten_count(gs: Seq<(usize, Seq<char>)>, k: int)
    requires
        0 <= k <= gs.len(),
        forall|j: int| 0 <= j < gs.len() ==> (#[trigger] gs[j]).1.len() > 0,
    ensures
        flatten(gs.take(k)).len() >= k,
    decreases k,
{
    if k > 0 {
        lemma_flatten_count(gs, k - 1);
        lemma_flatten_take(gs, k - 1);
    }
}

/// Whether some character of the text is whitespace.
fn has_space(s: &str) -> (r: bool)
    ensures
        r == has_ws(s@),
{
    let cs = chars_of(s);
    let mut i: usize = 0;
    while i < cs.len()
        invariant
            i <= cs@.len(),
            cs@ == s@,
            forall|j: int| 0 <= j < i ==> !is_ws(#[trigger] cs@[j]),
        decreases cs@.len() - i,
    {
        if is_whitespace(cs[i]) {
            return true;
        }
        i += 1;
    }
    false
}

/// Whether the text is a single line feed.
fn is_newline(s: &str) -> (r: bool)
    ensures
        r == (s@ == seq!['\n']),
{
    let cs = chars_of(s);
    if cs.len() == 1 && cs[0] == '\n' {
        assert(cs@ =~= seq!['\n']);
        true
    } else {
        assert(cs@.len() != 1 ==> cs@ != seq!['\n']);
        false
    }
}

/// The width of the word starting at cluster `i`, or the largest `usize` when it is wider.
fn word_width_from(gs: &Vec<(usize, String)>, ws: &Vec<usize>, i: usize) -> (r: usize)
    requires
        i <= gs@.len() == ws@.len(),
    ensures
        r == (if word_width(cluster_views(gs@), ws@, i as int) <= usize::MAX {
            word_width(cluster_views(gs@), ws@, i as int)
        } else {
            usize::MAX as int
        }),
{
    let ghost views = cluster_views(gs@);
    let ghost mut sum: int = 0;
    let mut acc: usize = 0;
    let mut j: usize = i;
    while j < gs.len() && !has_space(gs[j].1.as_str())
        invariant
            i <= j <= gs@.len() == ws@.len(),
            views == cluster_views(gs@),
            word_width(views, ws@, i as int) == sum + word_width(views, ws@, j as int),
            sum >= 0,
            acc == (if sum <= usize::MAX { sum } else { usize::MAX as int }),
        decreases gs@.len() - j,
    {
        assert(views[j as int].1 == gs@[j as int].1@);
        let w = ws[j];
        proof {
            sum = sum + w;
        }
        acc = if acc < usize::MAX - w { acc + w } else { usize::MAX };
        j += 1;
    }
    proof {
        if j < gs@.len() {
            assert(views[j as int].1 == gs@[j as int].1@);
        }
    }
    acc
}

/// The text after inserting sanitised `s` at byte `cursor`.
pub open spec fn insert_text(t: Seq<char>, cursor: int, s: Seq<char>) -> Seq<char> {
    let p = char_index(t, cursor);
    t.take(p) + clean(s) + t.skip(p)
}

/// The cursor after inserting sanitised `s` at byte `cursor`: the first cluster start at
/// or after the end of the inserted text.
pub open spec fn insert_cursor(t: Seq<char>, cursor: int, s: Seq<char>) -> int {
    let n = insert_text(t, cursor, s);
    snap(grapheme_clusters(n), cursor + byte_len(clean(s)), 0, byte_len(n) as int)
}

/// The text without the bytes from `a` to `b`.
pub open spec fn removed(t: Seq<char>, a: int, b: int) -> Seq<char> {
    t.take(char_index(t, a)) + t.skip(char_index(t, b))
}

/// The distance between two columns.
pub open spec fn dist(a: usize, b: usize) -> int {
    if a >= b { a - b } else { b - a }
}

/// Position `k` is the first of row `target` whose column is nearest to `col`.
pub open spec fn is_nearest(ps: Seq<(usize, usize, usize)>, target: usize, col: usize, k: int) -> bool {
    &&& 0 <= k < ps.len()
    &&& ps[k].1 == target
    &&& forall|j: int|
        0 <= j < ps.len() && (#[trigger] ps[j]).1 == target ==> dist(ps[k].2, col) <= dist(ps[j].2, col)
    &&& forall|j: int| 0 <= j < k && (#[trigger] ps[j]).1 == target ==> dist(ps[j].2, col) > dist(ps[k].2, col)
}

/// The byte offset of the first position in row `target` nearest to column `col`, if the
/// row has any.
pub open spec fn nearest(ps: Seq<(usize, usize, usize)>, target: usize, col: usize) -> Option<usize> {
    if exists|k: int| is_nearest(ps, target, col, k) {
        Some(ps[choose|k: int| is_nearest(ps, target, col, k)].0)
    } else {
        None
    }
}

/// The cursor after moving one wrapped row up or down, keeping the column as near as the
/// row allows.
pub open spec fn vertical(t: Seq<char>, cursor: int, width: usize, up: bool) -> int {
    let l = wrap_of(t, width);
    let cell = cell_of(l.positions, cursor as usize, 0);
    let target: int = if up {
        if cell.0 > 0 { cell.0 - 1 } else { 0 }
    } else if cell.0 + 1 < l.lines.len() {
        cell.0 + 1
    } else {
        l.lines.len() - 1
    };
    match nearest(l.positions, target as usize, cell.1) {
        Some(b) => b as int,
        None => cursor,
    }
}

/// The text and cursor after a key press.
pub open spec fn key_effect(t: Seq<char>, c: int, key: KeyEvent, width: usize, multiline: bool) -> (Seq<char>, int) {
    if key.control || key.alt {
        (t, c)
    } else {
        match key.code {
            KeyCode::Char(ch) => (insert_text(t, c, seq![ch]), insert_cursor(t, c, seq![ch])),
            KeyCode::Enter => if multiline {
                (insert_text(t, c, seq!['\n']), insert_cursor(t, c, seq!['\n']))
            } else {
                (t, c)
            },
            KeyCode::Backspace => (removed(t, previous_of(t, c), c), previous_of(t, c)),
            KeyCode::Delete => (removed(t, c, next_of(t, c)), c),
            KeyCode::Left => (t, previous_of(t, c)),
            KeyCode::Right => (t, next_of(t, c)),
            KeyCode::Home => (t, line_start(t, char_index(t, c))),
            KeyCode::End => (t, line_end(t, char_index(t, c))),
            KeyCode::Up => if multiline { (t, vertical(t, c, width, true)) } else { (t, c) },
            KeyCode::Down => if multiline { (t, vertical(t, c, width, false)) } else { (t, c) },
            _ => (t, c),
        }
    }
}

proof fn lemma_nearest_unique(ps: Seq<(usize, usize, usize)>, target: usize, col: usize, k: int)
    requires
        is_nearest(ps, target, col, k),
    ensures
        nearest(ps, target, col) == Some(ps[k].0),
{
    let c = choose|j: int| is_nearest(ps, target, col, j);
    assert(is_nearest(ps, target, col, c));
    if c < k {
        assert(ps[c].1 == target);
    } else if c > k {
        assert(ps[k].1 == target);
    }
}

/// The first position in row `target` nearest to column `col`.
fn closest(ps: &Vec<(usize, usize, usize)>, target: usize, col: usize) -> (r: Option<usize>)
    ensures
        r == nearest(ps@, target, col),
{
    let mut best: Option<usize> = None;
    let mut k: usize = 0;
    while k < ps.len()
        invariant
            k <= ps@.len(),
            best is None ==> forall|j: int| 0 <= j < k ==> (#[trigger] ps@[j]).1 != target,
            best matches Some(b) ==> {
                &&& b < k
                &&& ps@[b as int].1 == target
                &&& forall|j: int|
                    0 <= j < k && (#[trigger] ps@[j]).1 == target ==> dist(ps@[b as int].2, col) <= dist(ps@[j].2, col)
                &&& forall|j: int|
                    0 <= j < b && (#[trigger] ps@[j]).1 == target ==> dist(ps@[j].2, col) > dist(ps@[b as int].2, col)
            },
        decreases ps@.len() - k,
    {
        let (_, row, c) = ps[k];
        if row == target {
            let d = if c >= col { c - col } else { col - c };
            match best {
                None => {
                    best = Some(k);
                },
                Some(b) => {
                    let bc = ps[b].2;
                    let bd = if bc >= col { bc - col } else { col - bc };
                    if d < bd {
                        best = Some(k);
                    }
                },
            }
        }
        k += 1;
    }
    match best {
        None => {
            assert(!exists|j: int| is_nearest(ps@, target, col, j));
            None
        },
        Some(b) => {
            proof {
                lemma_nearest_unique(ps@, target, col, b as int);
            }
            Some(ps[b].0)
        },
    }
}

/// The characters `cs` without those from `a` up to `b`.
fn cut(cs: &Vec<char>, a: usize, b: usize) -> (r: Vec<char>)
    requires
        a <= b <= cs@.len(),
    ensures
        r@ == cs@.take(a as int) + cs@.skip(b as int),
{
    let mut out: Vec<char> = Vec::new();
    let mut i: usize = 0;
    while i < a
        invariant
            i <= a <= b <= cs@.len(),
            out@ == cs@.take(i as int),
        decreases a - i,
    {
        out.push(cs[i]);
        i += 1;
        assert(out@ =~= cs@.take(i as int));
    }
    let mut k: usize = b;
    while k < cs.len()
        invariant
            a <= b <= k <= cs@.len(),
            out@ == cs@.take(a as int) + cs@.subrange(b as int, k as int),
        decreases cs@.len() - k,
    {
        out.push(cs[k]);
        k += 1;
        assert(out@ =~= cs@.take(a as int) + cs@.subrange(b as int, k as int));
    }
    assert(cs@.subrange(b as int, cs@.len() as int) =~= cs@.skip(b as int));
    out
}

/// Each position of a layout is a cluster start or the end of the text.
proof fn lemma_positions_on_boundary(
    ps: Seq<(usize, usize, usize)>,
    gs: Seq<(usize, Seq<char>)>,
    t: Seq<char>,
)
    requires
        splits(gs, t),
        ps.len() == gs.len() + 1,
        forall|k: int| 0 <= k < gs.len() ==> (#[trigger] ps[k]).0 == gs[k].0,
        ps[gs.len() as int].0 == byte_len(t),
    ensures
        forall|k: int| 0 <= k < ps.len() ==> cursor_ok(t, (#[trigger] ps[k]).0 as int),
{
    assert forall|k: int| 0 <= k < ps.len() implies cursor_ok(t, (#[trigger] ps[k]).0 as int) by {
        if k < gs.len() {
            lemma_cluster_offset(gs, t, k);
        } else {
            lemma_char_index(t, t.len() as int);
            assert(t.take(t.len() as int) =~= t);
        }
    }
}

/// A layout being built: the closed lines, the open one, the positions so far and where
/// the next cluster goes.
struct LineBuilder {
    done: Vec<String>,
    open: String,
    positions: Vec<(usize, usize, usize)>,
    row: usize,
    col: usize,
}

impl LineBuilder {
    spec fn view(&self) -> Layout {
        Layout {
            lines: line_views(self.done@) + seq![self.open@],
            positions: self.positions@,
            row: self.row as nat,
            col: self.col as nat,
        }
    }

    fn start() -> (r: LineBuilder)
        ensures
            r.view() == layout(Seq::empty(), Seq::empty(), 0, 0),
    {
        let r = LineBuilder {
            done: Vec::new(),
            open: String::new(),
            positions: Vec::new(),
            row: 0,
            col: 0,
        };
        assert(r.view().lines =~= seq![Seq::<char>::empty()]);
        r
    }

    fn break_line(&mut self)
        requires
            old(self).row < usize::MAX,
        ensures
            final(self).view() == break_line(old(self).view()),
    {
        let mut line = String::new();
        std::mem::swap(&mut line, &mut self.open);
        self.done.push(line);
        self.row = self.row + 1;
        self.col = 0;
        assert(line_views(self.done@) =~= line_views(old(self).done@).push(old(self).open@));
        assert(self.view().lines =~= old(self).view().lines.push(Seq::empty()));
    }

    fn mark(&mut self, byte: usize)
        ensures
            final(self).view() == (Layout {
                positions: old(self).view().positions.push((byte, old(self).row, old(self).col)),
                ..old(self).view()
            }),
    {
        self.positions.push((byte, self.row, self.col));
    }

    /// Places cluster `i` of `gs`, `ws` giving the widths, at width `wd`.
    fn place(&mut self, gs: &Vec<(usize, String)>, ws: &Vec<usize>, i: usize, wd: usize)
        requires
            i < gs@.len() == ws@.len(),
            2 <= wd <= usize::MAX / 4,
            ws@[i as int] <= usize::MAX / 4,
            old(self).col <= wd + usize::MAX / 4,
            old(self).row + 2 <= usize::MAX,
        ensures
            final(self).view() == place(cluster_views(gs@), ws@, wd as int, old(self).view(), i as int),
            final(self).col <= wd + usize::MAX / 4,
            final(self).row <= old(self).row + 2,
    {
        let ghost views = cluster_views(gs@);
        assert(views[i as int] == (gs@[i as int].0, gs@[i as int].1@));
        let byte = gs[i].0;
        let g = gs[i].1.as_str();
        let w = ws[i];
        let starts = !blank(g) && (i == 0 || blank(gs[i - 1].1.as_str()));
        proof {
            if i > 0 {
                assert(views[i - 1] == (gs@[i - 1].0, gs@[i - 1].1@));
            }
        }
        assert(starts == word_start(views, i as int));
        let wrap_word = if starts && self.col > 0 {
            let ww = word_width_from(gs, ws, i);
            ww <= wd && self.col + ww > wd
        } else {
            false
        };
        let newline = is_newline(g);
        if !newline && (self.col + w > wd || wrap_word) {
            self.break_line();
        }
        self.mark(byte);
        if newline {
            self.break_line();
        } else {
            self.append(g, w);
        }
    }

    fn append(&mut self, g: &str, w: usize)
        requires
            old(self).col + w <= usize::MAX,
        ensures
            final(self).view() == (Layout {
                lines: old(self).view().lines.update(
                    old(self).view().lines.len() - 1,
                    old(self).view().lines.last() + g@,
                ),
                col: (old(self).col + w) as nat,
                ..old(self).view()
            }),
    {
        push_str(&mut self.open, g);
        self.col = self.col + w;
        let ghost l = old(self).view().lines;
        assert(self.view().lines =~= l.update(l.len() - 1, l.last() + g@));
    }
}

/// The lines one after another.
pub open spec fn joined(lines: Seq<Seq<char>>) -> Seq<char>
    decreases lines.len(),
{
    if lines.len() == 0 {
        Seq::empty()
    } else {
        joined(lines.drop_last()) + lines.last()
    }
}

/// The text of the first `n` clusters without the line feeds.
pub open spec fn shown_text(gs: Seq<(usize, Seq<char>)>, n: int) -> Seq<char>
    decreases n,
{
    if n <= 0 {
        Seq::empty()
    } else {
        shown_text(gs, n - 1) + (if gs[n - 1].1 == seq!['\n'] { Seq::empty() } else { gs[n - 1].1 })
    }
}

proof fn lemma_joined_push_empty(lines: Seq<Seq<char>>)
    ensures
        joined(lines.push(Seq::empty())) == joined(lines),
{
    assert(lines.push(Seq::empty()).drop_last() =~= lines);
    assert(joined(lines) + Seq::<char>::empty() =~= joined(lines));
}

proof fn lemma_joined_extend(lines: Seq<Seq<char>>, g: Seq<char>)
    requires
        lines.len() >= 1,
    ensures
        joined(lines.update(lines.len() - 1, lines.last() + g)) == joined(lines) + g,
{
    let u = lines.update(lines.len() - 1, lines.last() + g);
    assert(u.drop_last() =~= lines.drop_last());
    assert(joined(lines.drop_last()) + (lines.last() + g) =~= joined(lines.drop_last()) + lines.last() + g);
}

proof fn lemma_layout_lines(gs: Seq<(usize, Seq<char>)>, ws: Seq<usize>, width: int, n: int)
    requires
        0 <= n <= gs.len(),
    ensures
        layout(gs, ws, width, n).lines.len() >= 1,
        joined(layout(gs, ws, width, n).lines) == shown_text(gs, n),
    decreases n,
{
    if n == 0 {
        assert(seq![Seq::<char>::empty()].drop_last() =~= Seq::<Seq<char>>::empty());
        assert(joined(Seq::<Seq<char>>::empty()) == Seq::<char>::empty());
        assert(Seq::<char>::empty() + Seq::<char>::empty() =~= Seq::<char>::empty());
    } else {
        lemma_layout_lines(gs, ws, width, n - 1);
        let l = layout(gs, ws, width, n - 1);
        let g = gs[n - 1].1;
        let w = ws[n - 1] as int;
        let ww = word_width(gs, ws, n - 1);
        let newline = g == seq!['\n'];
        let wrap_word = word_start(gs, n - 1) && l.col > 0 && ww <= width && l.col + ww > width;
        let l1 = if !newline && (l.col + w > width || wrap_word) { break_line(l) } else { l };
        if !newline && (l.col + w > width || wrap_word) {
            lemma_joined_push_empty(l.lines);
        }
        assert(layout(gs, ws, width, n) == place(gs, ws, width, l, n - 1));
        assert(joined(l1.lines) == joined(l.lines));
        if newline {
            lemma_joined_push_empty(l1.lines);
            assert(place(gs, ws, width, l, n - 1).lines == l1.lines.push(Seq::empty()));
            assert(shown_text(gs, n) =~= shown_text(gs, n - 1));
        } else {
            lemma_joined_extend(l1.lines, g);
            assert(place(gs, ws, width, l, n - 1).lines == l1.lines.update(l1.lines.len() - 1, l1.lines.last() + g));
            assert(shown_text(gs, n) == shown_text(gs, n - 1) + g);
        }
    }
}

/// Soft wrapping loses nothing: the wrapped lines, one after another, hold every cluster
/// of the text in order, except the line feeds that end lines.
pub proof fn law_wrap_keeps_text(t: Seq<char>, width: usize)
    ensures
        joined(wrap_of(t, width).lines) == shown_text(grapheme_clusters(t), grapheme_clusters(t).len() as int),
{
    let gs = grapheme_clusters(t);
    let w = wrap_width(width);
    lemma_layout_lines(gs, widths_of(gs), w, gs.len() as int);
    let l = layout(gs, widths_of(gs), w, gs.len() as int);
    if l.col >= w {
        lemma_joined_push_empty(l.lines);
    }
}

/// The placed clusters keep their offsets, in order.
proof fn lemma_layout_positions(gs: Seq<(usize, Seq<char>)>, ws: Seq<usize>, width: int, n: int)
    requires
        0 <= n <= gs.len(),
    ensures
        layout(gs, ws, width, n).positions.len() == n,
        forall|k: int| 0 <= k < n ==> (#[trigger] layout(gs, ws, width, n).positions[k]).0 == gs[k].0,
    decreases n,
{
    if n > 0 {
        lemma_layout_positions(gs, ws, width, n - 1);
        let l = layout(gs, ws, width, n - 1);
        assert(layout(gs, ws, width, n) == place(gs, ws, width, l, n - 1));
        assert forall|k: int| 0 <= k < n implies (#[trigger] layout(gs, ws, width, n).positions[k]).0 == gs[k].0 by {
            if k < n - 1 {
                assert(layout(gs, ws, width, n).positions[k] == l.positions[k]);
            }
        }
    }
}

/// A wrapped layout has a position for each cluster, at its offset, and one for the end.
proof fn lemma_wrap_positions(gs: Seq<(usize, Seq<char>)>, ws: Seq<usize>, width: usize, end: usize)
    ensures
        wrap_layout(gs, ws, width, end).positions.len() == gs.len() + 1,
        forall|k: int|
            0 <= k < gs.len() ==> (#[trigger] wrap_layout(gs, ws, width, end).positions[k]).0 == gs[k].0,
        wrap_layout(gs, ws, width, end).positions[gs.len() as int].0 == end,
{
    let w = wrap_width(width);
    lemma_layout_positions(gs, ws, w, gs.len() as int);
    let l = layout(gs, ws, w, gs.len() as int);
    assert forall|k: int|
        0 <= k < gs.len() implies (#[trigger] wrap_layout(gs, ws, width, end).positions[k]).0 == gs[k].0 by {
        assert(wrap_layout(gs, ws, width, end).positions[k] == l.positions[k]);
    }
}

/// Lays clusters out in lines of `width` display columns (at least two), `widths` giving
/// the display width of each cluster and `end` the byte offset where the text ends, and
/// finds the row and column of the first position at byte `cursor`.
pub fn wrap_clusters(
    clusters: &Vec<(usize, String)>,
    widths: &Vec<usize>,
    width: usize,
    end: usize,
    cursor: usize,
) -> (r: Wrapped)
    requires
        clusters@.len() == widths@.len(),
        clusters@.len() <= usize::MAX / 4,
        width <= usize::MAX / 4,
        forall|k: int| 0 <= k < widths@.len() ==> #[trigger] widths@[k] <= usize::MAX / 4,
    ensures
        line_views(r.lines@) == wrap_layout(cluster_views(clusters@), widths@, width, end).lines,
        r.positions@ == wrap_layout(cluster_views(clusters@), widths@, width, end).positions,
        (r.row, r.col) == cell_of(wrap_layout(cluster_views(clusters@), widths@, width, end).positions, cursor, 0),
        r.lines@.len() >= 1,
{
    let wd = if width < 2 { 2 } else { width };
    let ghost views = cluster_views(clusters@);
    let mut b = LineBuilder::start();
    let mut i: usize = 0;
    while i < clusters.len()
        invariant
            i <= clusters@.len() == widths@.len() <= usize::MAX / 4,
            views == cluster_views(clusters@),
            forall|k: int| 0 <= k < widths@.len() ==> #[trigger] widths@[k] <= usize::MAX / 4,
            2 <= wd <= usize::MAX / 4,
            wd == wrap_width(width),
            b.view() == layout(views, widths@, wd as int, i as int),
            b.view().lines.len() == b.row + 1,
            b.col <= wd + usize::MAX / 4,
            b.row <= 2 * i,
        decreases clusters@.len() - i,
    {
        b.place(clusters, widths, i, wd);
        i += 1;
    }
    if b.col >= wd {
        b.break_line();
    }
    b.mark(end);
    let ghost fin = b.view();
    assert(fin == wrap_layout(views, widths@, width, end));
    let mut k: usize = 0;
    while k < b.positions.len() && b.positions[k].0 != cursor
        invariant
            k <= b.positions@.len(),
            cell_of(b.positions@, cursor, 0) == cell_of(b.positions@, cursor, k as int),
        decreases b.positions@.len() - k,
    {
        k += 1;
    }
    let (row, col) = if k < b.positions.len() {
        (b.positions[k].1, b.positions[k].2)
    } else {
        (0, 0)
    };
    let mut lines = b.done;
    lines.push(b.open);
    assert(line_views(lines@) =~= fin.lines);
    Wrapped { lines, positions: b.positions, row, col }
}

// ---------------------------------------------------------------------------------------
// The editor
// ---------------------------------------------------------------------------------------

/// A text field: its text, the cursor as a byte offset, and the first visible row.
#[derive(Clone, Debug)]
pub struct Editor {
    pub text: String,
    pub cursor: usize,
    pub scroll: usize,
}

/// A soft-wrapped view of the text: the lines, the byte offset, row and display column of
/// each cluster and of the end, and the cursor's row and column.
pub struct Wrapped {
    pub lines: Vec<String>,
    pub positions: Vec<(usize, usize, usize)>,
    pub row: usize,
    pub col: usize,
}

/// Characters that sanitised text keeps: no control characters but line feeds and tabs.
pub open spec fn kept(c: char) -> bool {
    !is_ctrl(c) || c == '\n' || c == '\t'
}

/// Pasted or typed text as the manuscript stores it: CR LF and CR become LF, other control
/// characters are dropped and a tab becomes four spaces.
pub open spec fn clean(t: Seq<char>) -> Seq<char>
    decreases t.len(),
{
    if t.len() == 0 {
        Seq::empty()
    } else if t[0] == '\r' {
        seq!['\n'] + clean(if t.len() >= 2 && t[1] == '\n' { t.skip(2) } else { t.skip(1) })
    } else if t[0] == '\t' {
        seq![' ', ' ', ' ', ' '] + clean(t.skip(1))
    } else if !kept(t[0]) {
        clean(t.skip(1))
    } else {
        seq![t[0]] + clean(t.skip(1))
    }
}

proof fn lemma_clean_bytes(t: Seq<char>)
    ensures
        byte_len(clean(t)) <= 4 * t.len(),
    decreases t.len(),
{
    if t.len() > 0 {
        let rest = if t[0] == '\r' && t.len() >= 2 && t[1] == '\n' { t.skip(2) } else { t.skip(1) };
        lemma_clean_bytes(rest);
        let head = if t[0] == '\r' {
            seq!['\n']
        } else if t[0] == '\t' {
            seq![' ', ' ', ' ', ' ']
        } else if !kept(t[0]) {
            Seq::<char>::empty()
        } else {
            seq![t[0]]
        };
        if t[0] == '\r' || t[0] == '\t' || kept(t[0]) {
            assert(clean(t) == head + clean(rest));
        } else {
            assert(clean(t) == clean(rest));
        }
        lemma_byte_len_concat(head, clean(rest));
        lemma_small_bytes(t[0]);
    }
}

proof fn lemma_small_bytes(c: char)
    ensures
        byte_len(seq!['\n']) == 1,
        byte_len(seq![' ', ' ', ' ', ' ']) == 4,
        byte_len(seq![c]) <= 4,
        byte_len(Seq::<char>::empty()) == 0,
{
    lemma_byte_len_push(Seq::<char>::empty(), '\n');
    assert(Seq::<char>::empty().push('\n') =~= seq!['\n']);
    lemma_byte_len_push(Seq::<char>::empty(), c);
    assert(Seq::<char>::empty().push(c) =~= seq![c]);
    vstd::utf8::char_is_scalar(c);
    lemma_byte_len_push(Seq::<char>::empty(), ' ');
    assert(Seq::<char>::empty().push(' ') =~= seq![' ']);
    lemma_byte_len_push(seq![' '], ' ');
    assert(seq![' '].push(' ') =~= seq![' ', ' ']);
    lemma_byte_len_push(seq![' ', ' '], ' ');
    assert(seq![' ', ' '].push(' ') =~= seq![' ', ' ', ' ']);
    lemma_byte_len_push(seq![' ', ' ', ' '], ' ');
    assert(seq![' ', ' ', ' '].push(' ') =~= seq![' ', ' ', ' ', ' ']);
    assert(vstd::utf8::encode_utf8(Seq::<char>::empty()) =~= Seq::<u8>::empty());
}

/// Sanitised text holds no control characters but line feeds: CR LF and CR become LF,
/// tabs become spaces and the rest are dropped.
pub proof fn law_clean_has_no_controls(t: Seq<char>)
    ensures
        forall|i: int| 0 <= i < clean(t).len() ==> !is_ctrl(#[trigger] clean(t)[i]) || clean(t)[i] == '\n',
    decreases t.len(),
{
    if t.len() > 0 {
        let rest = if t[0] == '\r' && t.len() >= 2 && t[1] == '\n' { t.skip(2) } else { t.skip(1) };
        law_clean_has_no_controls(rest);
        let c = clean(t);
        let r = clean(rest);
        assert forall|i: int| 0 <= i < c.len() implies !is_ctrl(#[trigger] c[i]) || c[i] == '\n' by {
            if t[0] == '\r' {
                assert(c == seq!['\n'] + r);
                if i > 0 {
                    assert(c[i] == r[i - 1]);
                }
            } else if t[0] == '\t' {
                assert(c == seq![' ', ' ', ' ', ' '] + r);
                if i >= 4 {
                    assert(c[i] == r[i - 4]);
                }
            } else if !kept(t[0]) {
                assert(c == r);
            } else {
                assert(c == seq![t[0]] + r);
                if i > 0 {
                    assert(c[i] == r[i - 1]);
                }
            }
        }
    }
}

/// Sanitises text for insertion.
fn clean_text(t: &str) -> (r: Vec<char>)
    ensures
        r@ == clean(t@),
{
    let cs = chars_of(t);
    let mut out: Vec<char> = Vec::new();
    let mut i: usize = 0;
    while i < cs.len()
        invariant
            i <= cs@.len(),
            cs@ == t@,
            clean(t@) == out@ + clean(cs@.skip(i as int)),
        decreases cs@.len() - i,
    {
        let ghost rest = cs@.skip(i as int);
        let c = cs[i];
        if c == '\r' {
            out.push('\n');
            if i + 1 < cs.len() && cs[i + 1] == '\n' {
                assert(rest.skip(2) =~= cs@.skip(i + 2));
                i += 2;
            } else {
                assert(rest.skip(1) =~= cs@.skip(i + 1));
                i += 1;
            }
        } else if c == '\t' {
            out.push(' ');
            out.push(' ');
            out.push(' ');
            out.push(' ');
            assert(rest.skip(1) =~= cs@.skip(i + 1));
            i += 1;
        } else if is_control(c) && c != '\n' {
            assert(rest.skip(1) =~= cs@.skip(i + 1));
            i += 1;
        } else {
            out.push(c);
            assert(rest.skip(1) =~= cs@.skip(i + 1));
            i += 1;
        }
        assert(clean(t@) =~= out@ + clean(cs@.skip(i as int)));
    }
    assert(cs@.skip(cs@.len() as int) =~= Seq::<char>::empty());
    assert(out@ + Seq::<char>::empty() =~= out@);
    out
}

/// The first cluster offset at or after byte `m`, or `end` when there is none.
pub open spec fn snap(gs: Seq<(usize, Seq<char>)>, m: int, k: int, end: int) -> int
    decreases gs.len() - k,
{
    if k < 0 || k >= gs.len() {
        end
    } else if gs[k].0 >= m {
        gs[k].0 as int
    } else {
        snap(gs, m, k + 1, end)
    }
}

/// The cursor is a byte offset between characters of the text.
pub open spec fn cursor_ok(text: Seq<char>, cursor: int) -> bool {
    on_boundary(text, cursor)
}

/// The position of the previous cluster: the last cluster start of the text before the
/// cursor, or zero.
pub open spec fn previous_of(text: Seq<char>, cursor: int) -> int {
    let gs = grapheme_clusters(text.take(char_index(text, cursor)));
    if gs.len() == 0 { 0 } else { gs.last().0 as int }
}

/// The position after the cluster at the cursor, or the cursor at the end of the text.
pub open spec fn next_of(text: Seq<char>, cursor: int) -> int {
    let gs = grapheme_clusters(text.skip(char_index(text, cursor)));
    if gs.len() == 0 { cursor } else { cursor + byte_len(gs[0].1) }
}

/// The byte offset after the last line feed before character `p`, or zero.
pub open spec fn line_start(text: Seq<char>, p: int) -> int
    decreases p,
{
    if p <= 0 || p > text.len() {
        0
    } else if text[p - 1] == '\n' {
        byte_len(text.take(p)) as int
    } else {
        line_start(text, p - 1)
    }
}

/// The byte offset of the first line feed at or after character `p`, or the end.
pub open spec fn line_end(text: Seq<char>, p: int) -> int
    decreases text.len() - p,
{
    if p < 0 || p >= text.len() {
        byte_len(text) as int
    } else if text[p] == '\n' {
        byte_len(text.take(p)) as int
    } else {
        line_end(text, p + 1)
    }
}

/// The characters `cs` with `ins` put in at character `at`.
fn splice(cs: &Vec<char>, at: usize, ins: &Vec<char>) -> (r: Vec<char>)
    requires
        at <= cs@.len(),
    ensures
        r@ == cs@.take(at as int) + ins@ + cs@.skip(at as int),
{
    let mut joined: Vec<char> = Vec::new();
    let mut i: usize = 0;
    while i < at
        invariant
            i <= at <= cs@.len(),
            joined@ == cs@.take(i as int),
        decreases at - i,
    {
        joined.push(cs[i]);
        i += 1;
        assert(joined@ =~= cs@.take(i as int));
    }
    let mut j: usize = 0;
    while j < ins.len()
        invariant
            j <= ins@.len(),
            at <= cs@.len(),
            joined@ == cs@.take(at as int) + ins@.take(j as int),
        decreases ins@.len() - j,
    {
        joined.push(ins[j]);
        j += 1;
        assert(joined@ =~= cs@.take(at as int) + ins@.take(j as int));
    }
    assert(ins@.take(ins@.len() as int) =~= ins@);
    let ghost mid = joined@;
    let mut k: usize = at;
    while k < cs.len()
        invariant
            at <= k <= cs@.len(),
            joined@ == mid + cs@.subrange(at as int, k as int),
        decreases cs@.len() - k,
    {
        joined.push(cs[k]);
        k += 1;
        assert(joined@ =~= mid + cs@.subrange(at as int, k as int));
    }
    assert(cs@.subrange(at as int, cs@.len() as int) =~= cs@.skip(at as int));
    joined
}

/// The first of the cluster starts at or after byte `m`, or `end` when there is none.
pub fn snap_to_cluster(clusters: &Vec<(usize, String)>, m: usize, end: usize) -> (r: usize)
    ensures
        r == snap(cluster_views(clusters@), m as int, 0, end as int),
        r == end || exists|k: int| 0 <= k < clusters@.len() && r == (#[trigger] clusters@[k]).0,
{
    let ghost views = cluster_views(clusters@);
    let mut n: usize = 0;
    while n < clusters.len() && clusters[n].0 < m
        invariant
            n <= clusters@.len(),
            views == cluster_views(clusters@),
            snap(views, m as int, 0, end as int) == snap(views, m as int, n as int, end as int),
        decreases clusters@.len() - n,
    {
        assert(views[n as int].0 == clusters@[n as int].0);
        n += 1;
    }
    if n < clusters.len() {
        assert(views[n as int].0 == clusters@[n as int].0);
        clusters[n].0
    } else {
        end
    }
}

/// The first cluster start of `text` at or after byte `m`, or the end of the text.
fn snap_cursor(text: &String, m: usize) -> (r: usize)
    requires
        byte_len(text@) <= usize::MAX,
    ensures
        r == snap(grapheme_clusters(text@), m as int, 0, byte_len(text@) as int),
        cursor_ok(text@, r as int),
{
    let total = text.as_str().len();
    let gs = grapheme_indices(text.as_str());
    let r = snap_to_cluster(&gs, m, total);
    proof {
        let views = cluster_views(gs@);
        if r == total {
            lemma_char_index(text@, text@.len() as int);
            assert(text@.take(text@.len() as int) =~= text@);
        } else {
            let k = choose|k: int| 0 <= k < gs@.len() && r == (#[trigger] gs@[k]).0;
            assert(views[k].0 == gs@[k].0);
            lemma_cluster_offset(views, text@, k);
        }
    }
    r
}

/// The first cluster of the text after character `at` ends on a character boundary.
proof fn lemma_next_cluster(t: Seq<char>, at: int, gs: Seq<(usize, Seq<char>)>)
    requires
        0 <= at <= t.len(),
        splits(gs, t.skip(at)),
        gs.len() > 0,
        byte_len(t) <= usize::MAX,
    ensures
        at + gs[0].1.len() <= t.len(),
        byte_len(t.take(at + gs[0].1.len())) == byte_len(t.take(at)) + byte_len(gs[0].1),
        on_boundary(t, (byte_len(t.take(at)) + byte_len(gs[0].1)) as int),
        byte_len(t.take(at)) + byte_len(gs[0].1) <= usize::MAX,
        t.subrange(at, at + gs[0].1.len()) == gs[0].1,
        gs[0].1.len() > 0,
{
    let g = gs[0].1;
    let suf = t.skip(at);
    lemma_flatten_prefix(gs, 1);
    lemma_flatten_take(gs, 0);
    assert(gs.take(0) =~= Seq::<(usize, Seq<char>)>::empty());
    assert(flatten(gs.take(0)) =~= Seq::<char>::empty());
    assert(flatten(gs.take(1)) =~= g);
    assert(suf.take(g.len() as int) == g);
    assert(t.take(at + g.len()) =~= t.take(at) + g);
    lemma_byte_len_concat(t.take(at), g);
    lemma_char_index(t, at + g.len());
    lemma_byte_len_prefix(t, at + g.len(), t.len() as int);
    assert(t.take(t.len() as int) =~= t);
}

/// From byte `c` to byte `d` of `t` lies exactly the grapheme cluster that starts at `c`,
/// or, at the end of the text, `d` is `c`.
pub open spec fn moved_forward(t: Seq<char>, c: int, d: int) -> bool {
    &&& c < byte_len(t) ==> c < d && t.subrange(char_index(t, c), char_index(t, d)) == grapheme_clusters(
        t.skip(char_index(t, c)),
    )[0].1
    &&& c >= byte_len(t) ==> d == c
}

/// From byte `d` to byte `c` of `t` lies exactly the grapheme cluster that ends at `c`, or,
/// at the start of the text, `d` is `c`.
pub open spec fn moved_back(t: Seq<char>, c: int, d: int) -> bool {
    &&& c > 0 ==> d < c && t.subrange(char_index(t, d), char_index(t, c)) == grapheme_clusters(
        t.take(char_index(t, c)),
    ).last().1
    &&& c <= 0 ==> d == c
}

/// An editor as plain values.
pub struct EditorView {
    pub text: Seq<char>,
    pub cursor: usize,
    pub scroll: usize,
}

impl View for Editor {
    type V = EditorView;

    open spec fn view(&self) -> EditorView {
        EditorView { text: self.text@, cursor: self.cursor, scroll: self.scroll }
    }
}

/// A fresh editor holding `t`, with the cursor at its end.
pub open spec fn fresh(t: Seq<char>) -> EditorView {
    EditorView { text: t, cursor: byte_len(t) as usize, scroll: 0 }
}

/// A text small enough for every editing operation's arithmetic.
pub open spec fn roomy(t: Seq<char>) -> bool {
    byte_len(t) <= usize::MAX / 16
}

impl Default for Editor {
    fn default() -> (r: Editor)
        ensures
            r@ == fresh(Seq::empty()),
            r.wf(),
    {
        let r = Editor::new(String::new());
        assert(r.text@ =~= Seq::<char>::empty());
        r
    }
}

impl Editor {
    /// The cursor lies between characters and the text fits in memory.
    pub open spec fn wf(&self) -> bool {
        &&& cursor_ok(self.text@, self.cursor as int)
        &&& byte_len(self.text@) <= usize::MAX
    }

    /// An editor holding `text`, with the cursor at its end.
    pub fn new(text: String) -> (r: Editor)
        ensures
            r.text@ == text@,
            r.cursor == byte_len(text@),
            r.scroll == 0,
            r.wf(),
    {
        let cursor = utf8_size(text.as_str());
        proof {
            lemma_char_index(text@, text@.len() as int);
            assert(text@.take(text@.len() as int) =~= text@);
        }
        Editor { text, cursor, scroll: 0 }
    }

    /// Whether byte `b` falls between characters of the text.
    pub fn is_boundary(&self, b: usize) -> (r: bool)
        requires
            self.wf(),
        ensures
            r == cursor_ok(self.text@, b as int),
    {
        let ghost t = self.text@;
        let cs = chars_of(self.text.as_str());
        let mut i: usize = 0;
        let mut acc: usize = 0;
        assert(t.take(0) =~= Seq::<char>::empty());
        assert(vstd::utf8::encode_utf8(Seq::<char>::empty()) =~= Seq::<u8>::empty());
        while i < cs.len() && acc < b
            invariant
                i <= cs@.len(),
                cs@ == t,
                byte_len(t) <= usize::MAX,
                acc == byte_len(t.take(i as int)),
                forall|p: int| 0 <= p < i ==> byte_len(#[trigger] t.take(p)) < b,
            decreases cs@.len() - i,
        {
            proof {
                lemma_byte_len_push(t.take(i as int), t[i as int]);
                assert(t.take(i + 1) =~= t.take(i as int).push(t[i as int]));
                lemma_byte_len_prefix(t, i + 1, t.len() as int);
                assert(t.take(t.len() as int) =~= t);
            }
            acc = acc + char_len(cs[i]);
            i = i + 1;
        }
        proof {
            if acc != b && cursor_ok(t, b as int) {
                let p = choose|p: int| 0 <= p <= t.len() && byte_len(#[trigger] t.take(p)) == b;
                if p < i {
                } else if p > i {
                    lemma_byte_len_prefix(t, i as int, p);
                    if i < t.len() {
                        assert(acc >= b);
                        lemma_byte_len_prefix(t, i as int, p);
                    }
                }
            }
        }
        acc == b
    }

    /// The display column of the cursor on a single line: the width of the text before it.
    pub fn cursor_column(&self) -> (r: usize)
        requires
            self.wf(),
        ensures
            r == display_width(self.text@.take(char_index(self.text@, self.cursor as int))),
    {
        let cs = chars_of(self.text.as_str());
        let at = char_position(&cs, self.cursor);
        let before = string_from_range(cs.as_slice(), 0, at);
        assert(before@ =~= self.text@.take(at as int));
        text_width(before.as_str())
    }

    /// Whether the text is small enough for every editing operation.
    pub fn has_room(&self) -> (r: bool)
        ensures
            r == roomy(self.text@),
    {
        utf8_size(self.text.as_str()) <= usize::MAX / 16
    }

    /// Inserts sanitised text at the cursor and moves the cursor past it, to the next
    /// cluster boundary.
    pub fn insert(&mut self, text: &str)
        requires
            old(self).wf(),
            byte_len(old(self).text@) + 4 * text@.len() <= usize::MAX,
        ensures
            final(self).text@ == insert_text(old(self).text@, old(self).cursor as int, text@),
            final(self).cursor == insert_cursor(old(self).text@, old(self).cursor as int, text@),
            final(self).scroll == old(self).scroll,
            final(self).wf(),
    {
        let ghost t = self.text@;
        let ghost p = char_index(t, self.cursor as int);
        let cleaned = clean_text(text);
        let cs = chars_of(self.text.as_str());
        let at = char_position(&cs, self.cursor);
        let joined = splice(&cs, at, &cleaned);
        let ghost new_text = t.take(p) + clean(text@) + t.skip(p);
        proof {
            lemma_clean_bytes(text@);
            lemma_len_le_byte_len(text@);
            lemma_byte_len_concat(t.take(p) + clean(text@), t.skip(p));
            lemma_byte_len_concat(t.take(p), clean(text@));
            lemma_byte_len_concat(t.take(p), t.skip(p));
            assert(t.take(p) + t.skip(p) =~= t);
        }
        self.text = string_from(joined.as_slice());
        let added = prefix_bytes(&cleaned, cleaned.len());
        assert(cleaned@.take(cleaned@.len() as int) =~= cleaned@);
        let mid_cursor = self.cursor + added;
        self.cursor = snap_cursor(&self.text, mid_cursor);
    }

    /// Lays the text out in lines of `width` display columns (at least two).
    pub fn wrapped(&self, width: usize) -> (r: Wrapped)
        requires
            self.wf(),
            width <= usize::MAX / 4,
            self.text@.len() <= usize::MAX / 16,
        ensures
            line_views(r.lines@) == wrap_of(self.text@, width).lines,
            r.positions@ == wrap_of(self.text@, width).positions,
            (r.row, r.col) == cell_of(wrap_of(self.text@, width).positions, self.cursor, 0),
            r.lines@.len() >= 1,
            forall|k: int|
                0 <= k < r.positions@.len() ==> cursor_ok(self.text@, (#[trigger] r.positions@[k]).0 as int),
    {
        let ghost t = self.text@;
        let total = self.text.as_str().len();
        let gs = grapheme_indices(self.text.as_str());
        let ghost views = cluster_views(gs@);
        proof {
            lemma_cluster_lengths(views, t);
        }
        let mut ws: Vec<usize> = Vec::new();
        let mut i: usize = 0;
        while i < gs.len()
            invariant
                i <= gs@.len(),
                views == cluster_views(gs@),
                views == grapheme_clusters(t),
                t.len() <= usize::MAX / 16,
                forall|k: int| 0 <= k < views.len() ==> (#[trigger] views[k]).1.len() <= t.len(),
                ws@ == widths_of(views).take(i as int),
                forall|k: int| 0 <= k < i ==> #[trigger] ws@[k] <= usize::MAX / 4,
            decreases gs@.len() - i,
        {
            assert(views[i as int].1 == gs@[i as int].1@);
            let w = text_width(gs[i].1.as_str());
            ws.push(w);
            i += 1;
            assert(ws@ =~= widths_of(views).take(i as int));
        }
        assert(ws@ =~= widths_of(views));
        let r = wrap_clusters(&gs, &ws, width, total, self.cursor);
        proof {
            lemma_wrap_positions(views, ws@, width, total);
            lemma_positions_on_boundary(r.positions@, views, t);
        }
        r
    }

    /// The start of the cluster before the cursor, or zero.
    fn previous(&self) -> (r: usize)
        requires
            self.wf(),
        ensures
            r == previous_of(self.text@, self.cursor as int),
            cursor_ok(self.text@, r as int),
            r <= self.cursor,
            self.cursor > 0 ==> r < self.cursor && self.text@.subrange(
                char_index(self.text@, r as int),
                char_index(self.text@, self.cursor as int),
            ) == grapheme_clusters(self.text@.take(char_index(self.text@, self.cursor as int))).last().1,
    {
        let cs = chars_of(self.text.as_str());
        let at = char_position(&cs, self.cursor);
        let before = string_from_range(cs.as_slice(), 0, at);
        let gs = grapheme_indices(before.as_str());
        let ghost pre = self.text@.take(at as int);
        assert(before@ =~= pre);
        if gs.len() == 0 {
            proof {
                lemma_char_index(self.text@, 0);
                assert(self.text@.take(0) =~= Seq::<char>::empty());
                assert(vstd::utf8::encode_utf8(Seq::<char>::empty()) =~= Seq::<u8>::empty());
                let views = cluster_views(gs@);
                assert(views.len() == 0);
                assert(flatten(views) == Seq::<char>::empty());
                assert(pre.len() == 0);
            }
            return 0;
        }
        let last = gs.len() - 1;
        let r = gs[last].0;
        proof {
            let t = self.text@;
            let views = cluster_views(gs@);
            assert(views[last as int].0 == r);
            lemma_cluster_offset(views, pre, last as int);
            let q = char_index(pre, r as int);
            lemma_char_index(pre, q);
            assert(pre.take(q) =~= t.take(q));
            lemma_char_index(t, q);
            lemma_byte_len_prefix(t, q, at as int);
            let n = flatten(views.take(last as int)).len() as int;
            lemma_flatten_prefix(views, last as int);
            lemma_flatten_take(views, last as int);
            assert(views.take(last + 1) =~= views);
            assert(pre.take(n) == flatten(views.take(last as int)));
            lemma_char_index(pre, n);
            assert(q == n);
            let g = views[last as int].1;
            assert(pre =~= pre.take(n) + g);
            assert(pre.subrange(n, pre.len() as int) =~= g);
            assert(t.subrange(n, at as int) =~= pre.subrange(n, pre.len() as int));
            assert(g.len() > 0);
            lemma_byte_len_prefix(t, n, at as int);
            assert(views.last() == views[last as int]);
        }
        r
    }

    /// Removes the bytes from `start` to `end`, both between characters.
    fn remove(&mut self, start: usize, end: usize)
        requires
            old(self).wf(),
            cursor_ok(old(self).text@, start as int),
            cursor_ok(old(self).text@, end as int),
            start <= end,
        ensures
            final(self).text@ == removed(old(self).text@, start as int, end as int),
            final(self).cursor == old(self).cursor,
            final(self).scroll == old(self).scroll,
            byte_len(final(self).text@) <= usize::MAX,
            cursor_ok(final(self).text@, start as int),
    {
        let ghost t = self.text@;
        let cs = chars_of(self.text.as_str());
        let a = char_position(&cs, start);
        let b = char_position(&cs, end);
        proof {
            if a > b {
                lemma_byte_len_prefix(t, b as int, a as int);
            }
        }
        let rest = cut(&cs, a, b);
        proof {
            let n = rest@;
            lemma_byte_len_concat(t.take(a as int), t.skip(b as int));
            lemma_byte_len_concat(t.take(b as int), t.skip(b as int));
            assert(t.take(b as int) + t.skip(b as int) =~= t);
            lemma_byte_len_prefix(t, a as int, b as int);
            assert(n.take(a as int) =~= t.take(a as int));
            lemma_char_index(n, a as int);
        }
        self.text = string_from(rest.as_slice());
    }

    /// The start of the cursor's line: just after the last line feed before it, or zero.
    fn home(&self) -> (r: usize)
        requires
            self.wf(),
        ensures
            r == line_start(self.text@, char_index(self.text@, self.cursor as int)),
            cursor_ok(self.text@, r as int),
    {
        let ghost t = self.text@;
        let cs = chars_of(self.text.as_str());
        let at = char_position(&cs, self.cursor);
        let mut p = at;
        while p > 0 && cs[p - 1] != '\n'
            invariant
                p <= at <= cs@.len(),
                cs@ == t,
                line_start(t, at as int) == line_start(t, p as int),
            decreases p,
        {
            p -= 1;
        }
        proof {
            lemma_byte_len_prefix(t, p as int, t.len() as int);
            assert(t.take(t.len() as int) =~= t);
            lemma_char_index(t, p as int);
            if p == 0 {
                assert(t.take(0) =~= Seq::<char>::empty());
                assert(vstd::utf8::encode_utf8(Seq::<char>::empty()) =~= Seq::<u8>::empty());
            }
        }
        prefix_bytes(&cs, p)
    }

    /// The end of the cursor's line: the next line feed at or after it, or the end.
    fn end(&self) -> (r: usize)
        requires
            self.wf(),
        ensures
            r == line_end(self.text@, char_index(self.text@, self.cursor as int)),
            cursor_ok(self.text@, r as int),
    {
        let ghost t = self.text@;
        let cs = chars_of(self.text.as_str());
        let at = char_position(&cs, self.cursor);
        let mut p = at;
        while p < cs.len() && cs[p] != '\n'
            invariant
                at <= p <= cs@.len(),
                cs@ == t,
                line_end(t, at as int) == line_end(t, p as int),
            decreases cs@.len() - p,
        {
            p += 1;
        }
        proof {
            lemma_byte_len_prefix(t, p as int, t.len() as int);
            assert(t.take(t.len() as int) =~= t);
            lemma_char_index(t, p as int);
        }
        prefix_bytes(&cs, p)
    }

    /// Handles a key: characters and, in multi-line fields, Enter insert text; Backspace
    /// and Delete remove a cluster; arrows, Home and End move the cursor. Keys with Control
    /// or Alt are left to the caller.
    pub fn key(&mut self, key: KeyEvent, width: usize, multiline: bool)
        requires
            old(self).wf(),
            byte_len(old(self).text@) + 4 <= usize::MAX,
            width <= usize::MAX / 4,
            old(self).text@.len() <= usize::MAX / 16,
        ensures
            final(self).wf(),
            final(self).scroll == old(self).scroll,
            (final(self).text@, final(self).cursor as int) == key_effect(
                old(self).text@,
                old(self).cursor as int,
                key,
                width,
                multiline,
            ),
            !key.control && !key.alt && (key.code == KeyCode::Left || key.code == KeyCode::Right)
                ==> final(self).text@ == old(self).text@,
            !key.control && !key.alt && key.code == KeyCode::Right ==> moved_forward(
                old(self).text@,
                old(self).cursor as int,
                final(self).cursor as int,
            ),
            !key.control && !key.alt && key.code == KeyCode::Left ==> moved_back(
                old(self).text@,
                old(self).cursor as int,
                final(self).cursor as int,
            ),
            !key.control && !key.alt && key.code == KeyCode::Delete ==> final(self).cursor == old(self).cursor
                && exists|e: int| #[trigger] moved_forward(old(self).text@, old(self).cursor as int, e)
                && final(self).text@ == removed(old(self).text@, old(self).cursor as int, e),
            !key.control && !key.alt && key.code == KeyCode::Backspace ==> moved_back(
                old(self).text@,
                old(self).cursor as int,
                final(self).cursor as int,
            ) && final(self).text@ == removed(old(self).text@, final(self).cursor as int, old(self).cursor as int),
    {
        if key.control || key.alt {
            return;
        }
        match key.code {
            KeyCode::Char(c) => {
                let mut s = String::new();
                push_char(&mut s, c);
                assert(s@ =~= seq![c]);
                self.insert(s.as_str());
            },
            KeyCode::Enter => {
                if multiline {
                    let mut s = String::new();
                    push_char(&mut s, '\n');
                    assert(s@ =~= seq!['\n']);
                    self.insert(s.as_str());
                }
            },
            KeyCode::Backspace => {
                let start = self.previous();
                let end = self.cursor;
                self.remove(start, end);
                self.cursor = start;
            },
            KeyCode::Delete => {
                let end = self.next();
                let start = self.cursor;
                assert(moved_forward(old(self).text@, old(self).cursor as int, end as int));
                self.remove(start, end);
            },
            KeyCode::Left => {
                self.cursor = self.previous();
            },
            KeyCode::Right => {
                self.cursor = self.next();
            },
            KeyCode::Home => {
                self.cursor = self.home();
            },
            KeyCode::End => {
                self.cursor = self.end();
            },
            KeyCode::Up => {
                if multiline {
                    self.cursor = self.vertical(width, true);
                }
            },
            KeyCode::Down => {
                if multiline {
                    self.cursor = self.vertical(width, false);
                }
            },
            _ => {},
        }
    }

    /// The cursor one wrapped row up or down.
    fn vertical(&self, width: usize, up: bool) -> (r: usize)
        requires
            self.wf(),
            width <= usize::MAX / 4,
            self.text@.len() <= usize::MAX / 16,
        ensures
            r == vertical(self.text@, self.cursor as int, width, up),
            cursor_ok(self.text@, r as int),
    {
        let w = self.wrapped(width);
        let last = w.lines.len() - 1;
        let target = if up {
            if w.row > 0 { w.row - 1 } else { 0 }
        } else if w.row < last {
            w.row + 1
        } else {
            last
        };
        match closest(&w.positions, target, w.col) {
            Some(b) => {
                proof {
                    let k = choose|k: int| is_nearest(w.positions@, target, w.col, k);
                    assert(is_nearest(w.positions@, target, w.col, k));
                    assert(cursor_ok(self.text@, w.positions@[k].0 as int));
                }
                b
            },
            None => self.cursor,
        }
    }

    /// The end of the cluster at the cursor, or the cursor at the end of the text.
    fn next(&self) -> (r: usize)
        requires
            self.wf(),
        ensures
            r == next_of(self.text@, self.cursor as int),
            cursor_ok(self.text@, r as int),
            r >= self.cursor,
            self.cursor < byte_len(self.text@) ==> r > self.cursor && self.text@.subrange(
                char_index(self.text@, self.cursor as int),
                char_index(self.text@, r as int),
            ) == grapheme_clusters(self.text@.skip(char_index(self.text@, self.cursor as int)))[0].1,
            self.cursor >= byte_len(self.text@) ==> r == self.cursor,
    {
        let ghost t = self.text@;
        let cs = chars_of(self.text.as_str());
        let at = char_position(&cs, self.cursor);
        let after = string_from_range(cs.as_slice(), at, cs.len());
        let gs = grapheme_indices(after.as_str());
        assert(after@ =~= t.skip(at as int));
        if gs.len() == 0 {
            proof {
                let views = cluster_views(gs@);
                assert(views.len() == 0);
                assert(flatten(views) == Seq::<char>::empty());
                assert(t.skip(at as int).len() == 0);
                assert(at == t.len());
                assert(t.take(at as int) =~= t);
            }
            return self.cursor;
        }
        let first = &gs[0].1;
        let ghost views = cluster_views(gs@);
        proof {
            assert(views[0].1 == first@);
            lemma_next_cluster(t, at as int, views);
            let g = views[0].1;
            lemma_len_le_byte_len(g);
            lemma_char_index(t, at + g.len());
            lemma_byte_len_prefix(t, at as int, t.len() as int);
            assert(t.take(t.len() as int) =~= t);
        }
        let glen = first.as_str().len();
        self.cursor + glen
    }

}

} // verus!
