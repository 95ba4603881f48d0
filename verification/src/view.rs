//! What the terminal screen shows, apart from how it is drawn: scrolling that keeps the
//! selection in view, outline entries, character colors lifted for a dark background,
//! preview text split into lines, and centred dialog boxes.
use vstd::prelude::*;
use vstd::string::*;
use crate::export::{inline_runs, inline_runs_of, run_views, Format, Run, RunView};
use crate::story::{kind_label, BlockView, Kind, Story, StoryBlock, StoryView};
use crate::text::{chars_of, decimal, is_hex, push_char, push_decimal, push_str};

verus! {

broadcast use vstd::seq_lib::group_seq_properties;

// ---------------------------------------------------------------------------------------
// Scrolling
// ---------------------------------------------------------------------------------------

/// The first visible row after scrolling just enough to show row `pos` in a window of
/// `span` rows that started at `scroll`.
pub open spec fn follow_spec(pos: int, scroll: int, span: int) -> int {
    if pos < scroll {
        pos
    } else if pos >= scroll + span {
        pos + 1 - span
    } else {
        scroll
    }
}

/// Whether the terminal is large enough for the desk: 56 columns and 18 rows.
pub fn screen_fits(width: u16, height: u16) -> (r: bool)
    ensures
        r == (width >= 56 && height >= 18),
{
    width >= 56 && height >= 18
}

/// Whether the desk has room for the preview column beside the outline and manuscript.
pub fn shows_preview(width: u16) -> (r: bool)
    ensures
        r == (width >= 110),
{
    width >= 110
}

/// Scrolls a window of `span` rows so that row `pos` is visible, moving as little as
/// possible.
pub fn follow(pos: usize, scroll: usize, span: usize) -> (r: usize)
    requires
        span >= 1,
    ensures
        r == follow_spec(pos as int, scroll as int, span as int),
        r <= pos < r + span,
{
    if pos < scroll {
        pos
    } else if pos - scroll >= span {
        pos - span + 1
    } else {
        scroll
    }
}

/// A box of at most `width` × `height` centred in an area at (`x`, `y`) of `aw` × `ah`,
/// leaving two columns on each side and a row above and below.
pub open spec fn centered_spec(x: u16, y: u16, aw: u16, ah: u16, width: u16, height: u16) -> (int, int, int, int) {
    let w: int = if aw >= 4 { if width < aw - 4 { width as int } else { aw - 4 } } else { 0 };
    let h: int = if ah >= 2 { if height < ah - 2 { height as int } else { ah - 2 } } else { 0 };
    (x + (aw - w) / 2, y + (ah - h) / 2, w, h)
}

/// A centred box for a dialog.
pub fn centered(x: u16, y: u16, aw: u16, ah: u16, width: u16, height: u16) -> (r: (u16, u16, u16, u16))
    requires
        x + aw <= u16::MAX,
        y + ah <= u16::MAX,
    ensures
        (r.0 as int, r.1 as int, r.2 as int, r.3 as int) == centered_spec(x, y, aw, ah, width, height),
        r.0 + r.2 <= x + aw,
        r.1 + r.3 <= y + ah,
{
    let w = if aw >= 4 { if width < aw - 4 { width } else { aw - 4 } } else { 0 };
    let h = if ah >= 2 { if height < ah - 2 { height } else { ah - 2 } } else { 0 };
    (x + (aw - w) / 2, y + (ah - h) / 2, w, h)
}

/// The horizontal scroll of a one-line field that keeps the cursor, `before` columns into
/// the text, inside a field `width` columns wide.
pub fn field_scroll(before: usize, width: u16) -> (r: u16)
    ensures
        r as int == (if before as int > width as int - 1 {
            let s = before - (if width > 0 { width - 1 } else { 0 });
            if s <= u16::MAX { s } else { u16::MAX as int }
        } else {
            0
        }),
{
    let room: usize = if width > 0 { (width - 1) as usize } else { 0 };
    if before > room {
        let s = before - room;
        if s <= u16::MAX as usize { s as u16 } else { u16::MAX }
    } else {
        0
    }
}

/// The rows a text of these line widths takes when wrapped at `width` columns: each line
/// at least one.
pub open spec fn wrapped_rows(widths: Seq<usize>, width: int) -> int
    decreases widths.len(),
{
    if widths.len() == 0 {
        0
    } else {
        let w = widths.last() as int;
        let rows = if w == 0 { 1 } else { (w + width - 1) / width };
        wrapped_rows(widths.drop_last(), width) + rows
    }
}

/// The preview scroll kept within the wrapped text: at most one row short of its end.
pub fn clamp_preview(scroll: u16, widths: &Vec<usize>, width: u16) -> (r: u16)
    ensures
        ({
            let rows = wrapped_rows(widths@, if width > 0 { width as int } else { 1 });
            let last = if rows > 0 { rows - 1 } else { 0 };
            let cap = if last <= u16::MAX { last } else { u16::MAX as int };
            r as int == if scroll as int <= cap { scroll as int } else { cap }
        }),
{
    let w: usize = if width > 0 { width as usize } else { 1 };
    let ghost wi = w as int;
    let mut rows: usize = 0;
    let mut big = false;
    let mut i: usize = 0;
    while i < widths.len()
        invariant
            i <= widths@.len(),
            wi == w as int,
            w >= 1,
            big ==> wrapped_rows(widths@.take(i as int), wi) > u16::MAX as int + 1,
            !big ==> rows as int == wrapped_rows(widths@.take(i as int), wi),
            !big ==> rows <= u16::MAX as usize + 1,
        decreases widths@.len() - i,
    {
        assert(widths@.take(i + 1).drop_last() =~= widths@.take(i as int));
        proof {
            lemma_rows_grow(widths@.take(i + 1), wi);
        }
        let x = widths[i];
        let add: usize = if x == 0 {
            1
        } else if x % w == 0 {
            x / w
        } else {
            assert(x / w < usize::MAX) by (nonlinear_arith)
                requires
                    w >= 1,
                    x % w != 0,
            {
            }
            x / w + 1
        };
        assert(add as int == (if x == 0 { 1 } else { (x + wi - 1) / wi })) by (nonlinear_arith)
            requires
                wi >= 1,
                wi == w,
                x == 0 ==> add == 1,
                x != 0 && x % w == 0 ==> add == x / w,
                x != 0 && x % w != 0 ==> add == x / w + 1,
        {
        }
        if !big {
            if add > u16::MAX as usize + 1 - rows {
                big = true;
            } else {
                rows = rows + add;
            }
        }
        i += 1;
    }
    assert(widths@.take(widths@.len() as int) =~= widths@);
    let last: usize = if big { u16::MAX as usize + 1 } else if rows > 0 { rows - 1 } else { 0 };
    let cap: u16 = if last <= u16::MAX as usize { last as u16 } else { u16::MAX };
    if scroll <= cap { scroll } else { cap }
}

/// Wrapped rows never shrink as lines are added.
proof fn lemma_rows_grow(widths: Seq<usize>, width: int)
    requires
        width >= 1,
        widths.len() > 0,
    ensures
        wrapped_rows(widths, width) >= wrapped_rows(widths.drop_last(), width) + 1,
{
    let w = widths.last() as int;
    if w > 0 {
        assert((w + width - 1) / width >= 1) by (nonlinear_arith)
            requires
                w >= 1,
                width >= 1,
        {
        }
    }
}

// ---------------------------------------------------------------------------------------
// Colors
// ---------------------------------------------------------------------------------------

/// The value of a hexadecimal digit.
pub open spec fn hex_digit(c: char) -> int {
    if '0' <= c <= '9' {
        c as int - '0' as int
    } else if 'a' <= c <= 'f' {
        c as int - 'a' as int + 10
    } else {
        c as int - 'A' as int + 10
    }
}

/// The value of a string of hexadecimal digits.
pub open spec fn hex_number(s: Seq<char>) -> int
    decreases s.len(),
{
    if s.len() == 0 {
        0
    } else {
        hex_number(s.drop_last()) * 16 + hex_digit(s.last())
    }
}

/// A hexadecimal `u32` as `u32::from_str_radix(s, 16)` reads it: an optional `+`, then at
/// least one hex digit, and a value that fits.
pub open spec fn parse_hex(s: Seq<char>) -> Option<u32> {
    hex_value(if s.len() > 0 && s[0] == '+' { s.skip(1) } else { s })
}

/// Every character is a hex digit.
pub open spec fn all_hex(d: Seq<char>) -> bool {
    forall|i: int| 0 <= i < d.len() ==> is_hex(#[trigger] d[i])
}

/// The value of a non-empty string of hex digits that fits a `u32`.
pub open spec fn hex_value(d: Seq<char>) -> Option<u32> {
    if d.len() > 0 && all_hex(d) && hex_number(d) <= u32::MAX {
        Some(hex_number(d) as u32)
    } else {
        None
    }
}

/// The text after its leading `#` characters.
pub open spec fn without_hashes(s: Seq<char>) -> Seq<char>
    decreases s.len(),
{
    if s.len() > 0 && s[0] == '#' { without_hashes(s.skip(1)) } else { s }
}

/// A color channel brightened by 55, at most 255.
pub open spec fn lift(b: int) -> u8 {
    if b + 55 > 255 { 255 } else { (b + 55) as u8 }
}

/// The terminal color for a character's `#RRGGBB`: its channels brightened to stay
/// legible on the dark background; text that is no hex number reads as `#b8afa0`.
pub open spec fn lifted_color(hex: Seq<char>) -> (u8, u8, u8) {
    let rgb: int = match parse_hex(without_hashes(hex)) {
        Some(v) => v as int,
        None => 0xb8afa0,
    };
    (lift((rgb / 65536) % 256), lift((rgb / 256) % 256), lift(rgb % 256))
}

/// The value of the hex digits `cs[b..]`, when there is at least one, all are hex
/// digits and the value fits.
fn hex_digits(cs: &Vec<char>, b: usize) -> (r: Option<u32>)
    requires
        b <= cs@.len(),
    ensures
        r == hex_value(cs@.subrange(b as int, cs@.len() as int)),
{
    let n = cs.len();
    let ghost d = cs@.subrange(b as int, n as int);
    let mut acc: u64 = 0;
    let mut big = false;
    let mut i = b;
    assert(cs@.subrange(b as int, b as int) =~= Seq::<char>::empty());
    while i < n
        invariant
            b <= i <= n == cs@.len(),
            d == cs@.subrange(b as int, n as int),
            forall|k: int| b <= k < i ==> is_hex(#[trigger] cs@[k]),
            big ==> hex_number(cs@.subrange(b as int, i as int)) > u32::MAX,
            !big ==> acc as int == hex_number(cs@.subrange(b as int, i as int)) && acc <= u32::MAX,
            hex_number(cs@.subrange(b as int, i as int)) >= 0,
        decreases n - i,
    {
        let c = cs[i];
        assert(cs@.subrange(b as int, i + 1).drop_last() =~= cs@.subrange(b as int, i as int));
        assert(cs@.subrange(b as int, i + 1).last() == c);
        let dv: u64 = if '0' <= c && c <= '9' {
            (c as u32 - '0' as u32) as u64
        } else if 'a' <= c && c <= 'f' {
            (c as u32 - 'a' as u32 + 10) as u64
        } else if 'A' <= c && c <= 'F' {
            (c as u32 - 'A' as u32 + 10) as u64
        } else {
            assert(d[i - b] == c);
            return None;
        };
        assert(dv as int == hex_digit(c));
        if !big {
            let next = acc * 16 + dv;
            if next > u32::MAX as u64 {
                big = true;
            } else {
                acc = next;
            }
        }
        i += 1;
    }
    assert(cs@.subrange(b as int, n as int) == d);
    if b == n || big {
        return None;
    }
    assert forall|k: int| 0 <= k < d.len() implies is_hex(#[trigger] d[k]) by {
        assert(d[k] == cs@[b + k]);
    }
    Some(acc as u32)
}

/// The brightened terminal color for a character's color.
pub fn lift_color(hex: &str) -> (r: (u8, u8, u8))
    ensures
        r == lifted_color(hex@),
{
    let cs = chars_of(hex);
    let n = cs.len();
    let mut a: usize = 0;
    while a < n && cs[a] == '#'
        invariant
            a <= n == cs@.len(),
            cs@ == hex@,
            without_hashes(hex@) == without_hashes(cs@.skip(a as int)),
        decreases n - a,
    {
        assert(cs@.skip(a as int).skip(1) =~= cs@.skip(a + 1));
        a += 1;
    }
    let ghost t = cs@.skip(a as int);
    assert(without_hashes(t) == t);
    let mut b = a;
    if b < n && cs[b] == '+' {
        b += 1;
    }
    let ghost dt = if t.len() > 0 && t[0] == '+' { t.skip(1) } else { t };
    assert(cs@.subrange(b as int, n as int) =~= dt);
    let parsed = hex_digits(&cs, b);
    assert(parsed == parse_hex(t));
    assert(without_hashes(hex@) == t);
    let v: u32 = match parsed {
        Some(x) => x,
        None => 0xb8afa0,
    };
    assert(v as int == (match parse_hex(without_hashes(hex@)) {
        Some(x) => x as int,
        None => 0xb8afa0,
    }));
    let r1 = (v / 65536 % 256) as u8;
    let r2 = (v / 256 % 256) as u8;
    let r3 = (v % 256) as u8;
    (
        if r1 > 200 { 255 } else { r1 + 55 },
        if r2 > 200 { 255 } else { r2 + 55 },
        if r3 > 200 { 255 } else { r3 + 55 },
    )
}

// ---------------------------------------------------------------------------------------
// Outline entries
// ---------------------------------------------------------------------------------------

/// A block number as two digits at least.
pub open spec fn two_digits(n: nat) -> Seq<char> {
    if n < 10 { seq!['0'] + decimal(n) } else { decimal(n) }
}

/// The heading of outline entry `i` (counted from zero): a marker when selected, the
/// number from one and the block type.
pub open spec fn outline_label_spec(i: nat, selected: bool, kind: Kind) -> Seq<char> {
    (if selected { "▸"@ } else { " "@ }) + " "@ + two_digits(i + 1) + " "@ + kind_label(kind)
}

/// The heading of an outline entry.
pub fn outline_label(i: usize, selected: bool, kind: Kind) -> (r: String)
    requires
        i < u64::MAX,
    ensures
        r@ == outline_label_spec(i as nat, selected, kind),
{
    let mut s = String::new();
    if selected {
        push_str(&mut s, "▸");
    } else {
        push_str(&mut s, " ");
    }
    push_str(&mut s, " ");
    let n = i as u64 + 1;
    if n < 10 {
        push_char(&mut s, '0');
        proof {
            reveal_strlit("0");
        }
    }
    push_decimal(&mut s, n);
    push_str(&mut s, " ");
    push_str(&mut s, kind.label());
    let ghost head = if selected { "▸"@ } else { " "@ };
    proof {
        reveal_strlit(" ");
    }
    assert(s@ =~= outline_label_spec(i as nat, selected, kind));
    s
}

/// The position of the first line feed at or after `i`, or the end.
pub open spec fn break_from(t: Seq<char>, i: int) -> int
    decreases t.len() - i,
{
    if i < 0 || i >= t.len() {
        t.len() as int
    } else if t[i] == '\n' {
        i
    } else {
        break_from(t, i + 1)
    }
}

/// The first line of a text as `str::lines` gives it: up to the first line feed, without
/// a carriage return just before it; empty for empty text.
pub open spec fn first_line(t: Seq<char>) -> Seq<char> {
    let k = break_from(t, 0);
    if k < t.len() {
        let l = t.take(k);
        if l.len() > 0 && l.last() == '\r' { l.drop_last() } else { l }
    } else {
        t
    }
}

/// The name of a block's character, if the cast has it.
pub open spec fn speaker_of(s: StoryView, b: BlockView) -> Option<Seq<char>> {
    match b.character {
        Some(id) => match crate::story::find_character(s.characters, id) {
            Some(i) => Some(s.characters[i].name),
            None => None,
        },
        None => None,
    }
}

/// The line under an outline heading: a scene break's dots, a hint for an empty block,
/// or the speaker and the first line of text.
pub open spec fn snippet_spec(s: StoryView, b: BlockView) -> Seq<char> {
    if b.kind == Kind::Divider {
        "· · ·"@
    } else {
        let text = first_line(b.text);
        if text.len() == 0 {
            "Start writing…"@
        } else {
            match speaker_of(s, b) {
                Some(name) => name + ": "@ + text,
                None => text,
            }
        }
    }
}

/// The first line of a block's text.
fn first_line_of(t: &String) -> (r: String)
    ensures
        r@ == first_line(t@),
{
    let cs = chars_of(t.as_str());
    let n = cs.len();
    let mut k: usize = 0;
    while k < n && cs[k] != '\n'
        invariant
            k <= n == cs@.len(),
            cs@ == t@,
            break_from(t@, 0) == break_from(t@, k as int),
        decreases n - k,
    {
        k += 1;
    }
    if k < n {
        let end = if k > 0 && cs[k - 1] == '\r' { k - 1 } else { k };
        let r = crate::text::string_from_range(cs.as_slice(), 0, end);
        assert(r@ =~= first_line(t@));
        r
    } else {
        let r = crate::text::string_from(cs.as_slice());
        r
    }
}

/// The line under an outline heading.
pub fn outline_snippet(story: &Story, b: &StoryBlock) -> (r: String)
    ensures
        r@ == snippet_spec(story@, b@),
{
    if b.kind == Kind::Divider {
        return String::from_str("· · ·");
    }
    let text = first_line_of(&b.text);
    proof {
        lemma_empty_bytes(text@);
    }
    if crate::text::utf8_size(text.as_str()) == 0 {
        return String::from_str("Start writing…");
    }
    let mut s = String::new();
    match story.character(b.character) {
        Some(c) => {
            push_str(&mut s, c.name.as_str());
            push_str(&mut s, ": ");
        },
        None => {},
    }
    push_str(&mut s, text.as_str());
    proof {
        reveal_strlit(": ");
        crate::text::lemma_len_le_byte_len(text@);
    }
    assert(s@ =~= snippet_spec(story@, b@));
    s
}

/// The line above the writing pane: the speaker, or `Unassigned`.
pub open spec fn speaker_line_spec(s: StoryView, b: BlockView) -> Seq<char> {
    (match speaker_of(s, b) {
        Some(name) => name,
        None => "Unassigned"@,
    }) + "  ·  Tab to change"@
}

/// The line above the writing pane.
pub fn speaker_line(story: &Story, b: &StoryBlock) -> (r: String)
    ensures
        r@ == speaker_line_spec(story@, b@),
{
    let mut s = String::new();
    match story.character(b.character) {
        Some(c) => push_str(&mut s, c.name.as_str()),
        None => push_str(&mut s, "Unassigned"),
    }
    push_str(&mut s, "  ·  Tab to change");
    assert(s@ =~= speaker_line_spec(story@, b@));
    s
}

/// Whether the reading preview names a block's character.
pub open spec fn names_speaker(k: Kind) -> bool {
    k == Kind::Dialogue || k == Kind::Action || k == Kind::Thought || k == Kind::Quote
}

/// Whether the reading preview names a block's character.
pub fn shows_speaker(k: Kind) -> (r: bool)
    ensures
        r == names_speaker(k),
{
    k == Kind::Dialogue || k == Kind::Action || k == Kind::Thought || k == Kind::Quote
}

/// A block's text as the preview shows it: dialogue in curly quotation marks.
pub open spec fn preview_text_spec(b: BlockView) -> Seq<char> {
    if b.kind == Kind::Dialogue && b.text.len() > 0 { "“"@ + b.text + "”"@ } else { b.text }
}

/// A block's text as the preview shows it.
pub fn preview_text(b: &StoryBlock) -> (r: String)
    ensures
        r@ == preview_text_spec(b@),
{
    proof {
        lemma_empty_bytes(b.text@);
    }
    if b.kind == Kind::Dialogue && crate::text::utf8_size(b.text.as_str()) > 0 {
        let mut s = String::from_str("“");
        push_str(&mut s, b.text.as_str());
        push_str(&mut s, "”");
        s
    } else {
        b.text.clone()
    }
}

/// A text has no bytes exactly when it has no characters.
proof fn lemma_empty_bytes(t: Seq<char>)
    ensures
        (crate::text::byte_len(t) == 0) == (t.len() == 0),
{
    crate::text::lemma_len_le_byte_len(t);
    if t.len() == 0 {
        assert(t =~= Seq::<char>::empty());
        assert(vstd::utf8::encode_utf8(t) =~= Seq::<u8>::empty());
    }
}

// ---------------------------------------------------------------------------------------
// Formatted text in lines
// ---------------------------------------------------------------------------------------

/// The parts of a text between line feeds (`str::split('\n')`): one more than there are
/// line feeds.
pub open spec fn split_lines(t: Seq<char>) -> Seq<Seq<char>>
    decreases t.len(),
{
    if t.len() == 0 {
        seq![Seq::empty()]
    } else {
        let p = split_lines(t.drop_last());
        if t.last() == '\n' {
            p.push(Seq::empty())
        } else {
            p.update(p.len() - 1, p.last().push(t.last()))
        }
    }
}

/// Lines with a run's parts added: the first continues the last line, each later one
/// starts a new line.
pub open spec fn place_parts(lines: Seq<Seq<RunView>>, parts: Seq<Seq<char>>, f: Format) -> Seq<Seq<RunView>>
    decreases parts.len(),
{
    if parts.len() == 0 {
        lines
    } else {
        let prev = place_parts(lines, parts.drop_last(), f);
        let piece = RunView { text: parts.last(), format: f };
        if parts.len() == 1 {
            prev.update(prev.len() - 1, prev.last().push(piece))
        } else {
            prev.push(seq![piece])
        }
    }
}

/// Formatted runs laid out in lines at their line feeds.
pub open spec fn lines_of_runs(runs: Seq<RunView>) -> Seq<Seq<RunView>>
    decreases runs.len(),
{
    if runs.len() == 0 {
        seq![Seq::empty()]
    } else {
        place_parts(lines_of_runs(runs.drop_last()), split_lines(runs.last().text), runs.last().format)
    }
}

/// Lines of runs as plain values.
pub open spec fn line_runs(v: Seq<Vec<Run>>) -> Seq<Seq<RunView>> {
    v.map_values(|l: Vec<Run>| crate::export::run_views(l@))
}

/// Adds a piece to the last line, or starts a new line with it.
fn emit(lines: &mut Vec<Vec<Run>>, text: String, format: Format, new_line: bool)
    requires
        old(lines)@.len() >= 1,
    ensures
        line_runs(final(lines)@) == (if new_line {
            line_runs(old(lines)@).push(seq![RunView { text: text@, format }])
        } else {
            let l = line_runs(old(lines)@);
            l.update(l.len() - 1, l.last().push(RunView { text: text@, format }))
        }),
        final(lines)@.len() >= 1,
{
    let ghost before = line_runs(lines@);
    let run = Run { text, format };
    if new_line {
        let mut fresh_line: Vec<Run> = Vec::new();
        fresh_line.push(run);
        lines.push(fresh_line);
        assert(crate::export::run_views(fresh_line@) =~= seq![run@]);
        assert(line_runs(lines@) =~= before.push(seq![run@]));
    } else {
        let mut last = lines.pop().unwrap();
        let ghost lv = crate::export::run_views(last@);
        last.push(run);
        assert(crate::export::run_views(last@) =~= lv.push(run@));
        lines.push(last);
        assert(line_runs(lines@) =~= before.update(before.len() - 1, lv.push(run@)));
    }
}

/// Places one run's text, split at its line feeds.
fn place_run(lines: &mut Vec<Vec<Run>>, text: &String, format: Format)
    requires
        old(lines)@.len() >= 1,
    ensures
        line_runs(final(lines)@) == place_parts(line_runs(old(lines)@), split_lines(text@), format),
        final(lines)@.len() >= 1,
{
    let ghost start = line_runs(lines@);
    let cs = chars_of(text.as_str());
    let mut piece = String::new();
    let mut first = true;
    let mut j: usize = 0;
    assert(cs@.take(0) =~= Seq::<char>::empty());
    assert(split_lines(Seq::<char>::empty()) == seq![Seq::<char>::empty()]);
    while j < cs.len()
        invariant
            j <= cs@.len(),
            cs@ == text@,
            lines@.len() >= 1,
            split_lines(cs@.take(j as int)).len() >= 1,
            line_runs(lines@) == place_parts(start, split_lines(cs@.take(j as int)).drop_last(), format),
            piece@ == split_lines(cs@.take(j as int)).last(),
            first == (split_lines(cs@.take(j as int)).len() == 1),
        decreases cs@.len() - j,
    {
        let c = cs[j];
        let ghost parts = split_lines(cs@.take(j as int));
        assert(cs@.take(j + 1).drop_last() =~= cs@.take(j as int));
        assert(cs@.take(j + 1).last() == c);
        if c == '\n' {
            let mut done = String::new();
            std::mem::swap(&mut done, &mut piece);
            emit(lines, done, format, !first);
            first = false;
            assert(split_lines(cs@.take(j + 1)) == parts.push(Seq::empty()));
            assert(parts.push(Seq::<char>::empty()).drop_last() =~= parts);
            assert(parts =~= parts.drop_last().push(parts.last()));
        } else {
            crate::text::push_char(&mut piece, c);
            assert(split_lines(cs@.take(j + 1)).drop_last() =~= parts.drop_last());
        }
        j += 1;
    }
    assert(cs@.take(cs@.len() as int) =~= cs@);
    let ghost parts = split_lines(cs@);
    emit(lines, piece, format, !first);
    assert(parts =~= parts.drop_last().push(parts.last()));
}

/// Text in the inline language as lines of formatted runs, for the reading preview.
pub fn run_lines(text: &str) -> (r: Vec<Vec<Run>>)
    ensures
        line_runs(r@) == lines_of_runs(inline_runs_of(text@)),
{
    let runs = inline_runs(text);
    let ghost rv = run_views(runs@);
    let mut lines: Vec<Vec<Run>> = Vec::new();
    let empty: Vec<Run> = Vec::new();
    assert(crate::export::run_views(empty@) =~= Seq::<RunView>::empty());
    lines.push(empty);
    assert(line_runs(lines@) =~= seq![Seq::<RunView>::empty()]);
    let mut i: usize = 0;
    assert(rv.take(0) =~= Seq::<RunView>::empty());
    while i < runs.len()
        invariant
            i <= runs@.len(),
            rv == run_views(runs@),
            lines@.len() >= 1,
            line_runs(lines@) == lines_of_runs(rv.take(i as int)),
        decreases runs@.len() - i,
    {
        assert(rv.take(i + 1).drop_last() =~= rv.take(i as int));
        assert(rv[i as int] == runs@[i as int]@);
        place_run(&mut lines, &runs[i].text, runs[i].format);
        i += 1;
    }
    assert(rv.take(runs@.len() as int) =~= rv);
    lines
}

} // verus!
