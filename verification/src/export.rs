//! The standalone HTML reading copy: a small inline language for emphasis, escaping of
//! everything else, and the page layout with cast list, contents and story blocks.
use vstd::prelude::*;
use vstd::string::*;
use crate::text::{blank, chars_of, decimal, is_blank, push_char, push_decimal, push_str, string_from_range};
use crate::story::{
    BlockView, Character, CharacterView, Kind, Story, StoryView, block_words, find_character, story_error,
    valid_story,
};

verus! {

broadcast use vstd::seq_lib::group_seq_properties;

/// The emphasis that applies to a run of text.
#[derive(Clone, Copy, Debug, PartialEq, Eq, Structural)]
pub struct Format {
    pub bold: bool,
    pub italic: bool,
    pub strike: bool,
    pub code: bool,
}

/// Plain text: no emphasis.
pub open spec fn plain_format() -> Format {
    Format { bold: false, italic: false, strike: false, code: false }
}

impl Default for Format {
    fn default() -> (r: Format)
        ensures
            r == plain_format(),
    {
        Format { bold: false, italic: false, strike: false, code: false }
    }
}

/// A stretch of text with one format.
#[derive(Debug)]
pub struct Run {
    pub text: String,
    pub format: Format,
}

/// A run as plain values.
pub struct RunView {
    pub text: Seq<char>,
    pub format: Format,
}

impl View for Run {
    type V = RunView;

    open spec fn view(&self) -> RunView {
        RunView { text: self.text@, format: self.format }
    }
}

// ---------------------------------------------------------------------------------------
// Escaping
// ---------------------------------------------------------------------------------------

/// The HTML text for one character: the five markup characters become entities.
pub open spec fn escape_char(c: char) -> Seq<char> {
    if c == '&' {
        "&amp;"@
    } else if c == '<' {
        "&lt;"@
    } else if c == '>' {
        "&gt;"@
    } else if c == '"' {
        "&quot;"@
    } else if c == '\'' {
        "&#39;"@
    } else {
        seq![c]
    }
}

/// The HTML text for a character sequence.
pub open spec fn escape_text(s: Seq<char>) -> Seq<char>
    decreases s.len(),
{
    if s.len() == 0 {
        Seq::empty()
    } else {
        escape_text(s.drop_last()) + escape_char(s.last())
    }
}

fn push_escaped_char(out: &mut String, c: char)
    ensures
        final(out)@ == old(out)@ + escape_char(c),
{
    if c == '&' {
        push_str(out, "&amp;");
    } else if c == '<' {
        push_str(out, "&lt;");
    } else if c == '>' {
        push_str(out, "&gt;");
    } else if c == '"' {
        push_str(out, "&quot;");
    } else if c == '\'' {
        push_str(out, "&#39;");
    } else {
        push_char(out, c);
    }
}

fn push_escaped(out: &mut String, cs: &Vec<char>, lo: usize, hi: usize)
    requires
        lo <= hi <= cs@.len(),
    ensures
        final(out)@ == old(out)@ + escape_text(cs@.subrange(lo as int, hi as int)),
{
    let mut i = lo;
    while i < hi
        invariant
            lo <= i <= hi <= cs@.len(),
            out@ == old(out)@ + escape_text(cs@.subrange(lo as int, i as int)),
        decreases hi - i,
    {
        push_escaped_char(out, cs[i]);
        proof {
            let next = cs@.subrange(lo as int, i + 1);
            assert(next.drop_last() =~= cs@.subrange(lo as int, i as int));
        }
        i += 1;
    }
}

/// Escapes `&`, `<`, `>`, `"` and `'` for HTML.
pub fn escape(text: &str) -> (r: String)
    ensures
        r@ == escape_text(text@),
{
    let cs = chars_of(text);
    let mut out = String::new();
    push_escaped(&mut out, &cs, 0, cs.len());
    assert(cs@.subrange(0, cs@.len() as int) =~= text@);
    out
}

/// Escaped text contains no markup characters: nothing a story holds can open a tag,
/// end an attribute or start an unescaped entity.
pub proof fn law_escape_has_no_markup(s: Seq<char>)
    ensures
        forall|i: int|
            0 <= i < escape_text(s).len() ==> {
                let c = #[trigger] escape_text(s)[i];
                c != '<' && c != '>' && c != '"' && c != '\''
            },
    decreases s.len(),
{
    if s.len() > 0 {
        law_escape_has_no_markup(s.drop_last());
        let c = s.last();
        let e = escape_char(c);
        reveal_strlit("&amp;");
        reveal_strlit("&lt;");
        reveal_strlit("&gt;");
        reveal_strlit("&quot;");
        reveal_strlit("&#39;");
        assert forall|i: int| 0 <= i < e.len() implies {
            let d = #[trigger] e[i];
            d != '<' && d != '>' && d != '"' && d != '\''
        } by {}
        let p = escape_text(s.drop_last());
        assert forall|i: int| 0 <= i < escape_text(s).len() implies {
            let c = #[trigger] escape_text(s)[i];
            c != '<' && c != '>' && c != '"' && c != '\''
        } by {
            if i < p.len() {
                assert(escape_text(s)[i] == p[i]);
            } else {
                assert(escape_text(s)[i] == e[i - p.len()]);
            }
        }
    }
}

/// A character that escaping rewrites.
pub open spec fn is_markup(c: char) -> bool {
    c == '&' || c == '<' || c == '>' || c == '"' || c == '\''
}

/// Reads HTML text back from the front: each of the five entities that escaping writes
/// becomes its character again, everything else stays.
pub open spec fn unescape(e: Seq<char>) -> Seq<char>
    decreases e.len(),
{
    if e.len() == 0 {
        Seq::empty()
    } else if e.len() >= 5 && e.take(5) == "&amp;"@ {
        seq!['&'] + unescape(e.skip(5))
    } else if e.len() >= 4 && e.take(4) == "&lt;"@ {
        seq!['<'] + unescape(e.skip(4))
    } else if e.len() >= 4 && e.take(4) == "&gt;"@ {
        seq!['>'] + unescape(e.skip(4))
    } else if e.len() >= 6 && e.take(6) == "&quot;"@ {
        seq!['"'] + unescape(e.skip(6))
    } else if e.len() >= 5 && e.take(5) == "&#39;"@ {
        seq!['\''] + unescape(e.skip(5))
    } else {
        seq![e[0]] + unescape(e.skip(1))
    }
}

proof fn lemma_escape_concat(a: Seq<char>, b: Seq<char>)
    ensures
        escape_text(a + b) == escape_text(a) + escape_text(b),
    decreases b.len(),
{
    if b.len() == 0 {
        assert(a + b =~= a);
        assert(escape_text(a) + Seq::<char>::empty() =~= escape_text(a));
    } else {
        lemma_escape_concat(a, b.drop_last());
        assert((a + b).drop_last() =~= a + b.drop_last());
        assert(escape_text(a) + escape_text(b.drop_last()) + escape_char(b.last()) =~= escape_text(a) + (
        escape_text(b.drop_last()) + escape_char(b.last())));
    }
}

proof fn lemma_unescape_char(c: char, rest: Seq<char>)
    ensures
        unescape(escape_char(c) + rest) == seq![c] + unescape(rest),
{
    reveal_strlit("&amp;");
    reveal_strlit("&lt;");
    reveal_strlit("&gt;");
    reveal_strlit("&quot;");
    reveal_strlit("&#39;");
    let e = escape_char(c) + rest;
    if c == '&' {
        assert(e.take(5) =~= "&amp;"@);
        assert(e.skip(5) =~= rest);
    } else if c == '<' {
        assert(e[1] == 'l');
        assert(e.take(4) =~= "&lt;"@);
        assert(e.skip(4) =~= rest);
        assert(e.len() >= 5 ==> e.take(5)[1] != "&amp;"@[1]);
    } else if c == '>' {
        assert(e[1] == 'g');
        assert(e.take(4) =~= "&gt;"@);
        assert(e.skip(4) =~= rest);
        assert(e.len() >= 5 ==> e.take(5)[1] != "&amp;"@[1]);
        assert(e.take(4)[1] != "&lt;"@[1]);
    } else if c == '"' {
        assert(e[1] == 'q');
        assert(e.take(6) =~= "&quot;"@);
        assert(e.skip(6) =~= rest);
        assert(e.take(5)[1] != "&amp;"@[1]);
        assert(e.take(4)[1] != "&lt;"@[1]);
        assert(e.take(4)[1] != "&gt;"@[1]);
    } else if c == '\'' {
        assert(e[1] == '#');
        assert(e.take(5) =~= "&#39;"@);
        assert(e.skip(5) =~= rest);
        assert(e.take(5)[1] != "&amp;"@[1]);
        assert(e.take(4)[1] != "&lt;"@[1]);
        assert(e.take(4)[1] != "&gt;"@[1]);
        assert(e.len() >= 6 ==> e.take(6)[1] != "&quot;"@[1]);
    } else {
        assert(e[0] == c);
        assert(e.len() >= 5 ==> e.take(5)[0] != "&amp;"@[0]);
        assert(e.len() >= 4 ==> e.take(4)[0] != "&lt;"@[0]);
        assert(e.len() >= 4 ==> e.take(4)[0] != "&gt;"@[0]);
        assert(e.len() >= 6 ==> e.take(6)[0] != "&quot;"@[0]);
        assert(e.len() >= 5 ==> e.take(5)[0] != "&#39;"@[0]);
        assert(e.skip(1) =~= rest);
    }
}

/// Escaping loses nothing: reading the entities back gives the text that was escaped.
pub proof fn law_escape_round_trip(s: Seq<char>)
    ensures
        unescape(escape_text(s)) == s,
    decreases s.len(),
{
    if s.len() > 0 {
        let rest = s.skip(1);
        law_escape_round_trip(rest);
        assert(s =~= seq![s[0]] + rest);
        lemma_escape_concat(seq![s[0]], rest);
        let one = seq![s[0]];
        assert(one.drop_last() =~= Seq::<char>::empty());
        assert(escape_text(one) == escape_text(one.drop_last()) + escape_char(one.last()));
        assert(escape_text(Seq::<char>::empty()) == Seq::<char>::empty());
        assert(Seq::<char>::empty() + escape_char(s[0]) =~= escape_char(s[0]));
        lemma_unescape_char(s[0], escape_text(rest));
    } else {
        assert(escape_text(s) =~= Seq::<char>::empty());
    }
}

/// Text without any of `&`, `<`, `>`, `"` and `'` is its own escape.
pub proof fn law_escape_keeps_plain_text(s: Seq<char>)
    requires
        forall|i: int| 0 <= i < s.len() ==> !is_markup(#[trigger] s[i]),
    ensures
        escape_text(s) == s,
    decreases s.len(),
{
    if s.len() > 0 {
        law_escape_keeps_plain_text(s.drop_last());
        assert(!is_markup(s[s.len() - 1]));
        assert(s.drop_last().push(s.last()) =~= s);
    }
}

/// Every occurrence of `pat` replaced by `rep`, scanning from the front without overlap,
/// as `str::replace` does.
pub open spec fn replace_all(s: Seq<char>, pat: Seq<char>, rep: Seq<char>) -> Seq<char>
    decreases s.len(),
{
    if s.len() == 0 || pat.len() == 0 {
        s
    } else if s.len() >= pat.len() && s.take(pat.len() as int) == pat {
        rep + replace_all(s.skip(pat.len() as int), pat, rep)
    } else {
        seq![s[0]] + replace_all(s.skip(1), pat, rep)
    }
}

/// HTML text read back by replacing the entities one after another, `&amp;` last.
pub open spec fn unreplace(e: Seq<char>) -> Seq<char> {
    replace_all(
        replace_all(
            replace_all(replace_all(replace_all(e, "&#39;"@, seq!['\'']), "&quot;"@, seq!['"']), "&gt;"@, seq!['>']),
            "&lt;"@,
            seq!['<'],
        ),
        "&amp;"@,
        seq!['&'],
    )
}

/// The step at which the chain of replacements gives a markup character back.
pub open spec fn restore_step(c: char) -> nat {
    if c == '\'' {
        1
    } else if c == '"' {
        2
    } else if c == '>' {
        3
    } else if c == '<' {
        4
    } else if c == '&' {
        5
    } else {
        0
    }
}

/// A character after `k` replacements: given back once its step is done.
pub open spec fn piece(k: nat, c: char) -> Seq<char> {
    if restore_step(c) <= k { seq![c] } else { escape_char(c) }
}

/// A text after `k` replacements of the escaped text.
pub open spec fn restored(k: nat, s: Seq<char>) -> Seq<char>
    decreases s.len(),
{
    if s.len() == 0 {
        Seq::empty()
    } else {
        piece(k, s[0]) + restored(k, s.skip(1))
    }
}

/// The entity that replacement `k` reads, and the character it gives.
pub open spec fn step_entity(k: nat) -> (Seq<char>, char) {
    if k == 1 {
        ("&#39;"@, '\'')
    } else if k == 2 {
        ("&quot;"@, '"')
    } else if k == 3 {
        ("&gt;"@, '>')
    } else if k == 4 {
        ("&lt;"@, '<')
    } else {
        ("&amp;"@, '&')
    }
}

proof fn lemma_reveal_entities()
    ensures
        "&amp;"@ =~= seq!['&', 'a', 'm', 'p', ';'],
        "&lt;"@ =~= seq!['&', 'l', 't', ';'],
        "&gt;"@ =~= seq!['&', 'g', 't', ';'],
        "&quot;"@ =~= seq!['&', 'q', 'u', 'o', 't', ';'],
        "&#39;"@ =~= seq!['&', '#', '3', '9', ';'],
{
    reveal_strlit("&amp;");
    reveal_strlit("&lt;");
    reveal_strlit("&gt;");
    reveal_strlit("&quot;");
    reveal_strlit("&#39;");
}

/// A piece that does not start the pattern, and holds no `&` after its first character,
/// passes through a replacement unchanged.
proof fn lemma_replace_passes(p: Seq<char>, rest: Seq<char>, pat: Seq<char>, rep: Seq<char>)
    requires
        pat.len() > 0,
        pat[0] == '&',
        p.len() > 0,
        !((p + rest).len() >= pat.len() && (p + rest).take(pat.len() as int) == pat),
        forall|i: int| 1 <= i < p.len() ==> p[i] != '&',
    ensures
        replace_all(p + rest, pat, rep) == p + replace_all(rest, pat, rep),
    decreases p.len(),
{
    let x = p + rest;
    assert(x[0] == p[0]);
    assert(x.skip(1) =~= p.skip(1) + rest);
    if p.len() > 1 {
        let q = p.skip(1);
        assert(q[0] == p[1]);
        assert((q + rest)[0] == q[0]);
        if (q + rest).len() >= pat.len() && (q + rest).take(pat.len() as int) == pat {
            assert((q + rest).take(pat.len() as int)[0] == pat[0]);
        }
        lemma_replace_passes(q, rest, pat, rep);
        assert(seq![p[0]] + (q + replace_all(rest, pat, rep)) =~= p + replace_all(rest, pat, rep));
    } else {
        assert(p.skip(1) + rest =~= rest);
        assert(p =~= seq![p[0]]);
    }
}

/// Replacement `k` turns the text after `k - 1` replacements into the one after `k`.
proof fn lemma_restore_step(k: nat, s: Seq<char>)
    requires
        1 <= k <= 5,
    ensures
        replace_all(restored((k - 1) as nat, s), step_entity(k).0, seq![step_entity(k).1]) == restored(k, s),
    decreases s.len(),
{
    lemma_reveal_entities();
    let pat = step_entity(k).0;
    let rep = seq![step_entity(k).1];
    if s.len() == 0 {
        assert(restored((k - 1) as nat, s) == Seq::<char>::empty());
    } else {
        let c = s[0];
        let rest = s.skip(1);
        lemma_restore_step(k, rest);
        let p = piece((k - 1) as nat, c);
        let r = restored((k - 1) as nat, rest);
        assert(restored((k - 1) as nat, s) == p + r);
        if c == step_entity(k).1 {
            assert(p == pat);
            assert((p + r).take(pat.len() as int) =~= pat);
            assert((p + r).skip(pat.len() as int) =~= r);
            assert(piece(k, c) == rep);
        } else {
            assert(piece(k, c) == p);
            assert(p.len() > 0);
            assert((p + r)[0] == p[0]);
            if p.len() > 1 {
                assert((p + r)[1] == p[1]);
            }
            if (p + r).len() >= pat.len() && (p + r).take(pat.len() as int) == pat {
                assert((p + r).take(pat.len() as int)[0] == pat[0]);
                assert((p + r).take(pat.len() as int)[1] == pat[1]);
            }
            lemma_replace_passes(p, r, pat, rep);
        }
    }
}

#[verifier::spinoff_prover]
#[verifier::rlimit(30)]
proof fn lemma_restored_none(s: Seq<char>)
    ensures
        restored(0, s) == escape_text(s),
    decreases s.len(),
{
    if s.len() > 0 {
        lemma_restored_none(s.skip(1));
        assert(s =~= seq![s[0]] + s.skip(1));
        lemma_escape_concat(seq![s[0]], s.skip(1));
        let one = seq![s[0]];
        assert(one.drop_last() =~= Seq::<char>::empty());
        assert(escape_text(one) == escape_text(one.drop_last()) + escape_char(one.last()));
        assert(Seq::<char>::empty() + escape_char(s[0]) =~= escape_char(s[0]));
    } else {
        assert(escape_text(s) == Seq::<char>::empty());
    }
}

proof fn lemma_restored_all(s: Seq<char>)
    ensures
        restored(5, s) == s,
    decreases s.len(),
{
    if s.len() > 0 {
        lemma_restored_all(s.skip(1));
        assert(s =~= seq![s[0]] + s.skip(1));
    }
}

/// The replacement chain also reads escaped text back exactly: replacing `&#39;`,
/// `&quot;`, `&gt;`, `&lt;` and then `&amp;` by their characters gives the original text.
pub proof fn law_escape_undone_by_replacing(s: Seq<char>)
    ensures
        unreplace(escape_text(s)) == s,
{
    lemma_reveal_entities();
    lemma_restored_none(s);
    lemma_restore_step(1, s);
    lemma_restore_step(2, s);
    lemma_restore_step(3, s);
    lemma_restore_step(4, s);
    lemma_restore_step(5, s);
    lemma_restored_all(s);
}

// ---------------------------------------------------------------------------------------
// The inline language
// ---------------------------------------------------------------------------------------

/// Characters that a backslash makes literal.
pub open spec fn escapable(c: char) -> bool {
    c == '*' || c == '~' || c == '`' || c == '\\'
}

/// A backslash escape starts the text.
pub open spec fn escaped_at(rest: Seq<char>) -> bool {
    rest.len() >= 2 && rest[0] == '\\' && escapable(rest[1])
}

/// The delimiter that starts the text: `**`, `*`, `~~`, `` ` `` or none.
pub open spec fn token_at(rest: Seq<char>) -> Seq<char> {
    if rest.len() >= 2 && rest[0] == '*' && rest[1] == '*' {
        seq!['*', '*']
    } else if rest.len() >= 1 && rest[0] == '*' {
        seq!['*']
    } else if rest.len() >= 2 && rest[0] == '~' && rest[1] == '~' {
        seq!['~', '~']
    } else if rest.len() >= 1 && rest[0] == '`' {
        seq!['`']
    } else {
        Seq::empty()
    }
}

/// The format inside a delimiter.
pub open spec fn with_token(f: Format, tok: Seq<char>) -> Format {
    if tok == seq!['*', '*'] {
        Format { bold: true, italic: f.italic, strike: f.strike, code: f.code }
    } else if tok == seq!['*'] {
        Format { bold: f.bold, italic: true, strike: f.strike, code: f.code }
    } else if tok == seq!['~', '~'] {
        Format { bold: f.bold, italic: f.italic, strike: true, code: f.code }
    } else {
        Format { bold: f.bold, italic: f.italic, strike: f.strike, code: true }
    }
}

/// The number of backslashes immediately before position `i`.
pub open spec fn backslashes_before(s: Seq<char>, i: int) -> nat
    decreases i,
{
    if i <= 0 || i > s.len() || s[i - 1] != '\\' {
        0
    } else {
        1 + backslashes_before(s, i - 1)
    }
}

/// `tok` occurs at position `i`.
pub open spec fn occurs_at(s: Seq<char>, tok: Seq<char>, i: int) -> bool {
    0 <= i && i + tok.len() <= s.len() && s.subrange(i, i + tok.len()) == tok
}

/// The closing delimiter: scanning occurrences of `tok` left to right without overlap
/// from position `from`, the first one that is not at the start and not escaped by an
/// odd number of backslashes.
pub open spec fn find_close(s: Seq<char>, tok: Seq<char>, from: int) -> Option<int>
    decreases s.len() - from,
{
    if from < 0 || tok.len() == 0 || from + tok.len() > s.len() {
        None
    } else if occurs_at(s, tok, from) {
        if from > 0 && backslashes_before(s, from) % 2 == 0 {
            Some(from)
        } else {
            find_close(s, tok, from + tok.len())
        }
    } else {
        find_close(s, tok, from + 1)
    }
}

/// A found closing delimiter lies inside the text.
pub proof fn lemma_find_close_bound(s: Seq<char>, tok: Seq<char>, from: int)
    ensures
        find_close(s, tok, from) matches Some(e) ==> from <= e && 0 < e && e + tok.len() <= s.len()
            && occurs_at(s, tok, e),
    decreases s.len() - from,
{
    if from < 0 || tok.len() == 0 || from + tok.len() > s.len() {
    } else if occurs_at(s, tok, from) {
        if from > 0 && backslashes_before(s, from) % 2 == 0 {
        } else {
            lemma_find_close_bound(s, tok, from + tok.len());
        }
    } else {
        lemma_find_close_bound(s, tok, from + 1);
    }
}

/// The pending plain text as a run, if there is any.
pub open spec fn flush(plain: Seq<char>, f: Format) -> Seq<RunView> {
    if plain.len() > 0 {
        seq![RunView { text: plain, format: f }]
    } else {
        Seq::empty()
    }
}

/// The runs of a text read with format `f` at nesting `depth`.
pub open spec fn parse_runs(text: Seq<char>, f: Format, depth: nat) -> Seq<RunView> {
    scan_runs(text, Seq::empty(), f, depth)
}

/// The runs produced from `rest` on, with `plain` already collected.
#[verifier::opaque]
pub open spec fn scan_runs(rest: Seq<char>, plain: Seq<char>, f: Format, depth: nat) -> Seq<
    RunView,
>
    decreases rest.len(),
{
    if rest.len() == 0 {
        flush(plain, f)
    } else if escaped_at(rest) {
        scan_runs(rest.skip(2), plain.push(rest[1]), f, depth)
    } else {
        let tok = token_at(rest);
        let tail = rest.skip(tok.len() as int);
        if tok.len() > 0 && depth < 16 && find_close(tail, tok, 0) is Some {
            let end = find_close(tail, tok, 0)->0;
            let nested = with_token(f, tok);
            proof {
                lemma_find_close_bound(tail, tok, 0);
            }
            flush(plain, f) + (if nested.code {
                seq![RunView { text: tail.take(end), format: nested }]
            } else {
                scan_runs(tail.take(end), Seq::empty(), nested, depth + 1)
            }) + scan_runs(tail.skip(end + tok.len()), Seq::empty(), f, depth)
        } else {
            scan_runs(rest.skip(1), plain.push(rest[0]), f, depth)
        }
    }
}

/// The runs of a text in the inline language.
pub open spec fn inline_runs_of(text: Seq<char>) -> Seq<RunView> {
    parse_runs(text, plain_format(), 0)
}

/// The views of a list of runs.
pub open spec fn run_views(rs: Seq<Run>) -> Seq<RunView> {
    rs.map_values(|r: Run| r@)
}

fn token_len(cs: &Vec<char>, pos: usize, hi: usize) -> (r: usize)
    requires
        pos < hi <= cs@.len(),
    ensures
        r == token_at(cs@.subrange(pos as int, hi as int)).len(),
        r <= 2,
{
    let ghost rest = cs@.subrange(pos as int, hi as int);
    if pos + 1 < hi && cs[pos] == '*' && cs[pos + 1] == '*' {
        2
    } else if cs[pos] == '*' {
        1
    } else if pos + 1 < hi && cs[pos] == '~' && cs[pos + 1] == '~' {
        2
    } else if cs[pos] == '`' {
        1
    } else {
        0
    }
}

/// Whether the delimiter `tok` (taken from position `at`) occurs at position `i`.
fn occurs(cs: &Vec<char>, at: usize, n: usize, i: usize, hi: usize) -> (r: bool)
    requires
        at + n <= cs@.len(),
        i <= hi <= cs@.len(),
    ensures
        r == occurs_at(cs@.subrange(0, hi as int), cs@.subrange(at as int, at + n), i as int),
{
    if n > hi - i {
        return false;
    }
    let mut k: usize = 0;
    let _len = cs.len();
    while k < n
        invariant
            k <= n,
            cs@.len() <= usize::MAX,
            i + n <= hi <= cs@.len(),
            at + n <= cs@.len(),
            cs@.subrange(i as int, i + k) =~= cs@.subrange(at as int, at + k),
        decreases n - k,
    {
        if cs[i + k] != cs[at + k] {
            proof {
                let s = cs@.subrange(0, hi as int);
                let tok = cs@.subrange(at as int, at + n);
                assert(s.subrange(i as int, i + n)[k as int] != tok[k as int]);
            }
            return false;
        }
        k += 1;
        assert(cs@.subrange(i as int, i + k) =~= cs@.subrange(i as int, i + k - 1).push(cs@[i + k - 1]));
        assert(cs@.subrange(at as int, at + k) =~= cs@.subrange(at as int, at + k - 1).push(cs@[at + k - 1]));
    }
    proof {
        let s = cs@.subrange(0, hi as int);
        let tok = cs@.subrange(at as int, at + n);
        assert(s.subrange(i as int, i + n) =~= tok);
    }
    true
}

/// The number of backslashes right before position `i` of `cs[lo..]`.
fn count_backslashes(cs: &Vec<char>, lo: usize, i: usize, hi: usize) -> (r: usize)
    requires
        lo <= i <= hi <= cs@.len(),
    ensures
        r == backslashes_before(cs@.subrange(lo as int, hi as int), i - lo),
{
    let ghost s = cs@.subrange(lo as int, hi as int);
    let mut k: usize = i;
    let mut n: usize = 0;
    while k > lo && cs[k - 1] == '\\'
        invariant
            lo <= k <= i <= hi <= cs@.len(),
            s == cs@.subrange(lo as int, hi as int),
            n == i - k,
            backslashes_before(s, i - lo) == n + backslashes_before(s, k - lo),
        decreases k,
    {
        assert(s[k - lo - 1] == cs@[k - 1]);
        k -= 1;
        n += 1;
    }
    n
}

/// The closing delimiter in `cs[lo..hi]` for the delimiter `cs[at..at + n]`.
fn closing(cs: &Vec<char>, lo: usize, hi: usize, at: usize, n: usize) -> (r: Option<usize>)
    requires
        lo <= hi <= cs@.len(),
        at + n <= cs@.len(),
    ensures
        match find_close(cs@.subrange(lo as int, hi as int), cs@.subrange(at as int, at + n), 0) {
            Some(e) => r == Some((e + lo) as usize),
            None => r is None,
        },
{
    let ghost s = cs@.subrange(lo as int, hi as int);
    let ghost tok = cs@.subrange(at as int, at + n);
    if n == 0 {
        return None;
    }
    let mut i: usize = lo;
    while n <= hi - i
        invariant
            lo <= i <= hi,
            hi <= cs@.len(),
            at + n <= cs@.len(),
            n > 0,
            s == cs@.subrange(lo as int, hi as int),
            tok == cs@.subrange(at as int, at + n),
            find_close(s, tok, 0) == find_close(s, tok, i - lo),
        decreases hi - i,
    {
        let hit = occurs(cs, at, n, i, hi);
        proof {
            assert(occurs_at(cs@.subrange(0, hi as int), tok, i as int) == occurs_at(s, tok, i - lo)) by {
                if i + n <= hi {
                    assert(cs@.subrange(0, hi as int).subrange(i as int, i + n) =~= s.subrange(
                        i - lo,
                        i - lo + n,
                    ));
                }
            }
        }
        if hit {
            let b = count_backslashes(cs, lo, i, hi);
            if i > lo && b % 2 == 0 {
                return Some(i);
            }
            i += n;
        } else {
            i += 1;
        }
    }
    None
}

fn push_run(out: &mut Vec<Run>, cs: &Vec<char>, lo: usize, hi: usize, format: Format)
    requires
        lo <= hi <= cs@.len(),
    ensures
        run_views(final(out)@) == run_views(old(out)@) + seq![
            RunView { text: cs@.subrange(lo as int, hi as int), format },
        ],
{
    let text = string_from_range(cs.as_slice(), lo, hi);
    out.push(Run { text, format });
    assert(run_views(out@) =~= run_views(old(out)@) + seq![
        RunView { text: cs@.subrange(lo as int, hi as int), format },
    ]);
}

fn flush_plain(out: &mut Vec<Run>, plain: &mut Vec<char>, format: Format)
    ensures
        run_views(final(out)@) == run_views(old(out)@) + flush(old(plain)@, format),
        final(plain)@ == Seq::<char>::empty(),
{
    if plain.len() > 0 {
        let n = plain.len();
        let text = string_from_range(plain.as_slice(), 0, n);
        assert(plain@.subrange(0, n as int) =~= plain@);
        out.push(Run { text, format });
        assert(run_views(out@) =~= run_views(old(out)@) + flush(old(plain)@, format));
        *plain = Vec::new();
    } else {
        assert(run_views(out@) =~= run_views(old(out)@) + flush(old(plain)@, format));
    }
}

fn nested_format(f: Format, cs: &Vec<char>, at: usize, n: usize) -> (r: Format)
    requires
        at + n <= cs@.len(),
        n > 0,
        cs@.subrange(at as int, at + n) == seq!['*', '*'] || cs@.subrange(at as int, at + n)
            == seq!['*'] || cs@.subrange(at as int, at + n) == seq!['~', '~']
            || cs@.subrange(at as int, at + n) == seq!['`'],
    ensures
        r == with_token(f, cs@.subrange(at as int, at + n)),
{
    let ghost tok = cs@.subrange(at as int, at + n);
    assert(tok[0] == cs@[at as int]);
    if n == 2 && cs[at] == '*' {
        assert(tok =~= seq!['*', '*']);
        Format { bold: true, italic: f.italic, strike: f.strike, code: f.code }
    } else if cs[at] == '*' {
        assert(tok =~= seq!['*']);
        Format { bold: f.bold, italic: true, strike: f.strike, code: f.code }
    } else if cs[at] == '~' {
        assert(tok =~= seq!['~', '~']);
        Format { bold: f.bold, italic: f.italic, strike: true, code: f.code }
    } else {
        assert(tok =~= seq!['`']);
        Format { bold: f.bold, italic: f.italic, strike: f.strike, code: true }
    }
}

proof fn lemma_parse_is_scan(text: Seq<char>, f: Format, depth: nat)
    ensures
        parse_runs(text, f, depth) == scan_runs(text, Seq::empty(), f, depth),
{
}

proof fn lemma_scan_end(plain: Seq<char>, f: Format, depth: nat)
    ensures
        scan_runs(Seq::empty(), plain, f, depth) == flush(plain, f),
{
    reveal(scan_runs);
}

proof fn lemma_scan_escape(rest: Seq<char>, plain: Seq<char>, f: Format, depth: nat)
    requires
        escaped_at(rest),
    ensures
        scan_runs(rest, plain, f, depth) == scan_runs(rest.skip(2), plain.push(rest[1]), f, depth),
{
    reveal(scan_runs);
}

proof fn lemma_scan_char(rest: Seq<char>, plain: Seq<char>, f: Format, depth: nat)
    requires
        rest.len() > 0,
        !escaped_at(rest),
        !(token_at(rest).len() > 0 && depth < 16 && find_close(
            rest.skip(token_at(rest).len() as int),
            token_at(rest),
            0,
        ) is Some),
    ensures
        scan_runs(rest, plain, f, depth) == scan_runs(rest.skip(1), plain.push(rest[0]), f, depth),
{
    reveal(scan_runs);
}

proof fn lemma_scan_delimited(rest: Seq<char>, plain: Seq<char>, f: Format, depth: nat)
    requires
        rest.len() > 0,
        !escaped_at(rest),
        token_at(rest).len() > 0,
        depth < 16,
        find_close(rest.skip(token_at(rest).len() as int), token_at(rest), 0) is Some,
    ensures
        ({
            let tok = token_at(rest);
            let tail = rest.skip(tok.len() as int);
            let end = find_close(tail, tok, 0)->0;
            let nested = with_token(f, tok);
            scan_runs(rest, plain, f, depth) == flush(plain, f) + (if nested.code {
                seq![RunView { text: tail.take(end), format: nested }]
            } else {
                parse_runs(tail.take(end), nested, depth + 1)
            }) + scan_runs(tail.skip(end + tok.len()), Seq::empty(), f, depth)
        }),
{
    reveal(scan_runs);
}

/// The texts of the runs, one after another.
pub open spec fn run_texts(rs: Seq<RunView>) -> Seq<char>
    decreases rs.len(),
{
    if rs.len() == 0 {
        Seq::empty()
    } else {
        run_texts(rs.drop_last()) + rs.last().text
    }
}

/// The characters of `s` whose mark in `m` is set, in order.
pub open spec fn marked(s: Seq<char>, m: Seq<bool>) -> Seq<char>
    decreases s.len(),
{
    if s.len() == 0 || m.len() == 0 {
        Seq::empty()
    } else {
        (if m[0] { seq![s[0]] } else { Seq::empty() }) + marked(s.skip(1), m.skip(1))
    }
}

/// `a` is `b` with some characters left out.
pub open spec fn subsequence_of(a: Seq<char>, b: Seq<char>) -> bool {
    exists|m: Seq<bool>| m.len() == b.len() && marked(b, m) == a
}

/// Every run holds some text.
pub open spec fn runs_nonempty(rs: Seq<RunView>) -> bool {
    forall|k: int| 0 <= k < rs.len() ==> (#[trigger] rs[k]).text.len() > 0
}

proof fn lemma_run_texts_concat(a: Seq<RunView>, b: Seq<RunView>)
    ensures
        run_texts(a + b) == run_texts(a) + run_texts(b),
    decreases b.len(),
{
    if b.len() == 0 {
        assert(a + b =~= a);
        assert(run_texts(a) + Seq::<char>::empty() =~= run_texts(a));
    } else {
        lemma_run_texts_concat(a, b.drop_last());
        assert((a + b).drop_last() =~= a + b.drop_last());
        assert(run_texts(a) + run_texts(b.drop_last()) + b.last().text =~= run_texts(a) + (run_texts(
            b.drop_last(),
        ) + b.last().text));
    }
}

proof fn lemma_marked_concat(a: Seq<char>, ma: Seq<bool>, b: Seq<char>, mb: Seq<bool>)
    requires
        ma.len() == a.len(),
        mb.len() == b.len(),
    ensures
        marked(a + b, ma + mb) == marked(a, ma) + marked(b, mb),
    decreases a.len(),
{
    if a.len() == 0 {
        assert(a + b =~= b);
        assert(ma + mb =~= mb);
        assert(Seq::<char>::empty() + marked(b, mb) =~= marked(b, mb));
    } else {
        lemma_marked_concat(a.skip(1), ma.skip(1), b, mb);
        assert((a + b).skip(1) =~= a.skip(1) + b);
        assert((ma + mb).skip(1) =~= ma.skip(1) + mb);
        let h: Seq<char> = if ma[0] { seq![a[0]] } else { Seq::empty() };
        assert(h + (marked(a.skip(1), ma.skip(1)) + marked(b, mb)) =~= h + marked(a.skip(1), ma.skip(1))
            + marked(b, mb));
    }
}

proof fn lemma_marked_all(s: Seq<char>, keep: bool)
    ensures
        marked(s, Seq::new(s.len(), |i: int| keep)) == (if keep { s } else { Seq::empty() }),
    decreases s.len(),
{
    if s.len() > 0 {
        lemma_marked_all(s.skip(1), keep);
        assert(Seq::new(s.len(), |i: int| keep).skip(1) =~= Seq::new(s.skip(1).len(), |i: int| keep));
        if keep {
            assert(seq![s[0]] + s.skip(1) =~= s);
        } else {
            assert(Seq::<char>::empty() + Seq::<char>::empty() =~= Seq::<char>::empty());
        }
    }
}

proof fn lemma_flush_texts(plain: Seq<char>, f: Format)
    ensures
        run_texts(flush(plain, f)) == plain,
        runs_nonempty(flush(plain, f)),
{
    let one = flush(plain, f);
    if plain.len() > 0 {
        assert(one.drop_last() =~= Seq::<RunView>::empty());
        assert(run_texts(one) == run_texts(one.drop_last()) + one.last().text);
        assert(run_texts(Seq::<RunView>::empty()) == Seq::<char>::empty());
        assert(Seq::<char>::empty() + plain =~= plain);
    } else {
        assert(one.len() == 0);
        assert(plain =~= Seq::<char>::empty());
    }
}

proof fn lemma_nonempty_concat(a: Seq<RunView>, b: Seq<RunView>)
    requires
        runs_nonempty(a),
        runs_nonempty(b),
    ensures
        runs_nonempty(a + b),
{
    assert forall|k: int| 0 <= k < (a + b).len() implies (#[trigger] (a + b)[k]).text.len() > 0 by {
        if k < a.len() {
            assert((a + b)[k] == a[k]);
        } else {
            assert((a + b)[k] == b[k - a.len()]);
        }
    }
}

/// The runs read from `rest`, after `plain`, hold text and spell `plain` followed by some
/// of the characters of `rest`, in order; `m` marks which.
proof fn lemma_scan_texts(rest: Seq<char>, plain: Seq<char>, f: Format, depth: nat) -> (m: Seq<bool>)
    ensures
        m.len() == rest.len(),
        run_texts(scan_runs(rest, plain, f, depth)) == plain + marked(rest, m),
        runs_nonempty(scan_runs(rest, plain, f, depth)),
    decreases rest.len(), 1nat,
{
    if rest.len() == 0 {
        lemma_scan_end(plain, f, depth);
        lemma_flush_texts(plain, f);
        assert(plain + marked(rest, Seq::empty()) =~= plain);
        Seq::empty()
    } else if escaped_at(rest) {
        lemma_scan_texts_escape(rest, plain, f, depth)
    } else {
        let tok = token_at(rest);
        let tail = rest.skip(tok.len() as int);
        if tok.len() > 0 && depth < 16 && find_close(tail, tok, 0) is Some {
            lemma_scan_texts_delimited(rest, plain, f, depth)
        } else {
            lemma_scan_texts_char(rest, plain, f, depth)
        }
    }
}

proof fn lemma_scan_texts_escape(rest: Seq<char>, plain: Seq<char>, f: Format, depth: nat) -> (m: Seq<
    bool,
>)
    requires
        escaped_at(rest),
    ensures
        m.len() == rest.len(),
        run_texts(scan_runs(rest, plain, f, depth)) == plain + marked(rest, m),
        runs_nonempty(scan_runs(rest, plain, f, depth)),
    decreases rest.len(), 0nat,
{
    lemma_scan_escape(rest, plain, f, depth);
    let m1 = lemma_scan_texts(rest.skip(2), plain.push(rest[1]), f, depth);
    let m = seq![false, true] + m1;
    assert(rest.skip(1).skip(1) =~= rest.skip(2));
    assert(m.skip(1) =~= seq![true] + m1);
    assert(m.skip(1).skip(1) =~= m1);
    assert(marked(rest.skip(1), m.skip(1)) == seq![rest[1]] + marked(rest.skip(2), m1));
    assert(marked(rest, m) == Seq::<char>::empty() + marked(rest.skip(1), m.skip(1)));
    assert(plain.push(rest[1]) + marked(rest.skip(2), m1) =~= plain + (Seq::<char>::empty() + (seq![
        rest[1],
    ] + marked(rest.skip(2), m1))));
    m
}

proof fn lemma_scan_texts_char(rest: Seq<char>, plain: Seq<char>, f: Format, depth: nat) -> (m: Seq<bool>)
    requires
        rest.len() > 0,
        !escaped_at(rest),
        !(token_at(rest).len() > 0 && depth < 16 && find_close(
            rest.skip(token_at(rest).len() as int),
            token_at(rest),
            0,
        ) is Some),
    ensures
        m.len() == rest.len(),
        run_texts(scan_runs(rest, plain, f, depth)) == plain + marked(rest, m),
        runs_nonempty(scan_runs(rest, plain, f, depth)),
    decreases rest.len(), 0nat,
{
    lemma_scan_char(rest, plain, f, depth);
    let m1 = lemma_scan_texts(rest.skip(1), plain.push(rest[0]), f, depth);
    let m = seq![true] + m1;
    assert(m.skip(1) =~= m1);
    assert(marked(rest, m) == seq![rest[0]] + marked(rest.skip(1), m1));
    assert(plain.push(rest[0]) + marked(rest.skip(1), m1) =~= plain + (seq![rest[0]] + marked(
        rest.skip(1),
        m1,
    )));
    m
}

#[verifier::spinoff_prover]
proof fn lemma_scan_texts_delimited(rest: Seq<char>, plain: Seq<char>, f: Format, depth: nat) -> (m: Seq<
    bool,
>)
    requires
        rest.len() > 0,
        !escaped_at(rest),
        token_at(rest).len() > 0,
        depth < 16,
        find_close(rest.skip(token_at(rest).len() as int), token_at(rest), 0) is Some,
    ensures
        m.len() == rest.len(),
        run_texts(scan_runs(rest, plain, f, depth)) == plain + marked(rest, m),
        runs_nonempty(scan_runs(rest, plain, f, depth)),
    decreases rest.len(), 0nat,
{
    let tok = token_at(rest);
    let tail = rest.skip(tok.len() as int);
    lemma_scan_delimited(rest, plain, f, depth);
    lemma_find_close_bound(tail, tok, 0);
    let end = find_close(tail, tok, 0)->0;
    let nested = with_token(f, tok);
    let tl = tok.len() as int;
    let inner_text = tail.take(end);
    let after = tail.skip(end + tl);
    let inner: Seq<RunView> = if nested.code {
        seq![RunView { text: inner_text, format: nested }]
    } else {
        parse_runs(inner_text, nested, depth + 1)
    };
    let mut m1: Seq<bool> = Seq::new(end as nat, |i: int| true);
    if nested.code {
        lemma_marked_all(inner_text, true);
        assert(inner.drop_last() =~= Seq::<RunView>::empty());
        assert(run_texts(inner) == run_texts(inner.drop_last()) + inner_text);
        assert(run_texts(Seq::<RunView>::empty()) == Seq::<char>::empty());
        assert(Seq::<char>::empty() + inner_text =~= inner_text);
    } else {
        m1 = lemma_scan_texts(inner_text, Seq::empty(), nested, depth + 1);
        assert(Seq::<char>::empty() + marked(inner_text, m1) =~= marked(inner_text, m1));
    }
    let m2 = lemma_scan_texts(after, Seq::empty(), f, depth);
    assert(Seq::<char>::empty() + marked(after, m2) =~= marked(after, m2));
    let skip_tok: Seq<bool> = Seq::new(tl as nat, |i: int| false);
    let m = skip_tok + m1 + skip_tok + m2;
    let mid = tail.subrange(end, end + tl);
    assert(rest =~= rest.take(tl) + inner_text + mid + after);
    lemma_marked_all(rest.take(tl), false);
    lemma_marked_all(mid, false);
    lemma_marked_concat(rest.take(tl), skip_tok, inner_text, m1);
    lemma_marked_concat(rest.take(tl) + inner_text, skip_tok + m1, mid, skip_tok);
    lemma_marked_concat(rest.take(tl) + inner_text + mid, skip_tok + m1 + skip_tok, after, m2);
    let scanned = scan_runs(after, Seq::empty(), f, depth);
    lemma_flush_texts(plain, f);
    lemma_run_texts_concat(flush(plain, f), inner);
    lemma_run_texts_concat(flush(plain, f) + inner, scanned);
    lemma_nonempty_concat(flush(plain, f), inner);
    lemma_nonempty_concat(flush(plain, f) + inner, scanned);
    assert(plain + marked(rest, m) =~= plain + marked(inner_text, m1) + marked(after, m2));
    m
}

/// What the inline language keeps of a text: every run holds text, and the runs, one
/// after another, spell the text with only delimiters and escaping backslashes left out.
pub proof fn law_runs_come_from_text(text: Seq<char>)
    ensures
        runs_nonempty(inline_runs_of(text)),
        subsequence_of(run_texts(inline_runs_of(text)), text),
{
    let m = lemma_scan_texts(text, Seq::empty(), plain_format(), 0);
    assert(Seq::<char>::empty() + marked(text, m) =~= marked(text, m));
}

/// Reads `cs[lo..hi]` with format `format` at nesting `depth`, appending its runs.
#[verifier::rlimit(60)]
fn parse(cs: &Vec<char>, lo: usize, hi: usize, format: Format, depth: usize, out: &mut Vec<Run>)
    requires
        lo <= hi <= cs@.len(),
        depth <= 16,
    ensures
        run_views(final(out)@) == run_views(old(out)@) + parse_runs(
            cs@.subrange(lo as int, hi as int),
            format,
            depth as nat,
        ),
    decreases hi - lo,
{
    let ghost whole = cs@.subrange(lo as int, hi as int);
    let ghost start = run_views(out@);
    let mut plain: Vec<char> = Vec::new();
    let mut pos = lo;
    assert(plain@ =~= Seq::<char>::empty());
    proof {
        lemma_parse_is_scan(whole, format, depth as nat);
    }
    assert(start + parse_runs(whole, format, depth as nat) == run_views(out@) + scan_runs(
        cs@.subrange(pos as int, hi as int), plain@, format, depth as nat));
    while pos < hi
        invariant
            lo <= pos <= hi <= cs@.len(),
            depth <= 16,
            whole == cs@.subrange(lo as int, hi as int),
            start + parse_runs(whole, format, depth as nat) == run_views(out@) + scan_runs(
                cs@.subrange(pos as int, hi as int),
                plain@,
                format,
                depth as nat,
            ),
        decreases hi - pos,
    {
        let ghost rest = cs@.subrange(pos as int, hi as int);
        if pos + 1 < hi && cs[pos] == '\\' && (cs[pos + 1] == '*' || cs[pos + 1] == '~' || cs[pos
            + 1] == '`' || cs[pos + 1] == '\\') {
            proof {
                lemma_scan_escape(rest, plain@, format, depth as nat);
            }
            plain.push(cs[pos + 1]);
            pos += 2;
            assert(rest.skip(2) =~= cs@.subrange(pos as int, hi as int));
            continue;
        }
        assert(!escaped_at(rest));
        let n = token_len(cs, pos, hi);
        let ghost tok = token_at(rest);
        let mut close: Option<usize> = None;
        if n > 0 && depth < 16 {
            proof {
                assert(cs@.subrange(pos as int, pos + n) =~= tok);
                assert(rest.skip(n as int) =~= cs@.subrange(pos + n, hi as int));
            }
            close = closing(cs, pos + n, hi, pos, n);
        }
        match close {
            Some(end) => {
                let ghost tail = rest.skip(n as int);
                let ghost e = find_close(tail, tok, 0)->0;
                proof {
                    lemma_find_close_bound(tail, tok, 0);
                    lemma_scan_delimited(rest, plain@, format, depth as nat);
                    assert(tok == seq!['*', '*'] || tok == seq!['*'] || tok == seq!['~', '~'] || tok == seq!['`']);
                }
                let nested = nested_format(format, cs, pos, n);
                flush_plain(out, &mut plain, format);
                if nested.code {
                    push_run(out, cs, pos + n, end, nested);
                    assert(tail.take(e) =~= cs@.subrange(pos + n, end as int));
                } else {
                    parse(cs, pos + n, end, nested, depth + 1, out);
                    assert(tail.take(e) =~= cs@.subrange(pos + n, end as int));
                }
                proof {
                    assert(tail.skip(e + n) =~= cs@.subrange(end + n, hi as int));
                }
                pos = end + n;
            },
            None => {
                proof {
                    lemma_scan_char(rest, plain@, format, depth as nat);
                }
                plain.push(cs[pos]);
                pos += 1;
                assert(rest.skip(1) =~= cs@.subrange(pos as int, hi as int));
            },
        }
    }
    proof {
        lemma_scan_end(plain@, format, depth as nat);
        assert(cs@.subrange(pos as int, hi as int) =~= Seq::<char>::empty());
    }
    flush_plain(out, &mut plain, format);
    assert(run_views(out@) =~= start + parse_runs(whole, format, depth as nat));
}

/// Splits text in the inline language into formatted runs: `**bold**`, `*italic*`,
/// `~~strikethrough~~` and `` `code` ``, with backslash escapes. Raw HTML and URLs stay text.
pub fn inline_runs(text: &str) -> (r: Vec<Run>)
    ensures
        run_views(r@) == inline_runs_of(text@),
{
    let cs = chars_of(text);
    let mut runs: Vec<Run> = Vec::new();
    assert(run_views(runs@) =~= Seq::<RunView>::empty());
    parse(&cs, 0, cs.len(), Format::default(), 0, &mut runs);
    assert(cs@.subrange(0, cs@.len() as int) =~= text@);
    runs
}

// ---------------------------------------------------------------------------------------
// HTML for inline text and paragraphs
// ---------------------------------------------------------------------------------------

/// The opening tags for a format.
pub open spec fn open_tags(f: Format) -> Seq<char> {
    (if f.bold { "<strong>"@ } else { Seq::empty() }) + (if f.italic { "<em>"@ } else { Seq::empty() })
        + (if f.strike { "<s>"@ } else { Seq::empty() }) + (if f.code { "<code>"@ } else { Seq::empty() })
}

/// The closing tags for a format, in reverse order.
pub open spec fn close_tags(f: Format) -> Seq<char> {
    (if f.code { "</code>"@ } else { Seq::empty() }) + (if f.strike { "</s>"@ } else { Seq::empty() })
        + (if f.italic { "</em>"@ } else { Seq::empty() }) + (if f.bold { "</strong>"@ } else { Seq::empty() })
}

/// The HTML for one character of a run: escaped, with line breaks kept.
pub open spec fn html_char(c: char) -> Seq<char> {
    if c == '\n' { "<br>\n"@ } else { escape_char(c) }
}

/// The HTML for the text of a run.
pub open spec fn html_text(s: Seq<char>) -> Seq<char>
    decreases s.len(),
{
    if s.len() == 0 {
        Seq::empty()
    } else {
        html_text(s.drop_last()) + html_char(s.last())
    }
}

/// The HTML for a run.
pub open spec fn run_html(r: RunView) -> Seq<char> {
    open_tags(r.format) + html_text(r.text) + close_tags(r.format)
}

/// The HTML for a list of runs.
pub open spec fn runs_html(rs: Seq<RunView>) -> Seq<char>
    decreases rs.len(),
{
    if rs.len() == 0 {
        Seq::empty()
    } else {
        runs_html(rs.drop_last()) + run_html(rs.last())
    }
}

/// The HTML for text in the inline language.
pub open spec fn inline_html(text: Seq<char>) -> Seq<char> {
    runs_html(inline_runs_of(text))
}

fn push_html_text(out: &mut String, s: &String)
    ensures
        final(out)@ == old(out)@ + html_text(s@),
{
    let cs = chars_of(s.as_str());
    let mut i: usize = 0;
    while i < cs.len()
        invariant
            i <= cs@.len(),
            cs@ == s@,
            out@ == old(out)@ + html_text(cs@.take(i as int)),
        decreases cs@.len() - i,
    {
        if cs[i] == '\n' {
            push_str(out, "<br>\n");
        } else {
            push_escaped_char(out, cs[i]);
        }
        assert(cs@.take(i + 1).drop_last() =~= cs@.take(i as int));
        i += 1;
    }
    assert(cs@.take(cs@.len() as int) =~= s@);
}

fn push_tag(out: &mut String, on: bool, tag: &str)
    ensures
        final(out)@ == old(out)@ + (if on { tag@ } else { Seq::empty() }),
{
    if on {
        push_str(out, tag);
    } else {
        assert(out@ =~= old(out)@ + Seq::<char>::empty());
    }
}

fn push_open_tags(out: &mut String, f: Format)
    ensures
        final(out)@ == old(out)@ + open_tags(f),
{
    let ghost a = out@;
    push_tag(out, f.bold, "<strong>");
    let ghost b = out@;
    push_tag(out, f.italic, "<em>");
    let ghost c = out@;
    push_tag(out, f.strike, "<s>");
    let ghost d = out@;
    push_tag(out, f.code, "<code>");
    assert(out@ =~= a + open_tags(f));
}

fn push_close_tags(out: &mut String, f: Format)
    ensures
        final(out)@ == old(out)@ + close_tags(f),
{
    let ghost a = out@;
    push_tag(out, f.code, "</code>");
    push_tag(out, f.strike, "</s>");
    push_tag(out, f.italic, "</em>");
    push_tag(out, f.bold, "</strong>");
    assert(out@ =~= a + close_tags(f));
}

fn push_run_html(out: &mut String, r: &Run)
    ensures
        final(out)@ == old(out)@ + run_html(r@),
{
    let ghost a = out@;
    push_open_tags(out, r.format);
    push_html_text(out, &r.text);
    push_close_tags(out, r.format);
    assert(out@ =~= a + run_html(r@));
}

fn push_inline(out: &mut String, text: &str)
    ensures
        final(out)@ == old(out)@ + inline_html(text@),
{
    let runs = inline_runs(text);
    let ghost rs = run_views(runs@);
    let mut i: usize = 0;
    while i < runs.len()
        invariant
            i <= runs@.len(),
            rs == run_views(runs@),
            rs == inline_runs_of(text@),
            out@ == old(out)@ + runs_html(rs.take(i as int)),
        decreases runs@.len() - i,
    {
        push_run_html(out, &runs[i]);
        assert(rs.take(i + 1).drop_last() =~= rs.take(i as int));
        assert(rs[i as int] == runs@[i as int]@);
        i += 1;
    }
    assert(rs.take(runs@.len() as int) =~= rs);
}

/// Renders text in the inline language as HTML: emphasis becomes tags, everything else
/// is escaped and line breaks become `<br>`.
pub fn inline(text: &str) -> (r: String)
    ensures
        r@ == inline_html(text@),
{
    let mut out = String::new();
    push_inline(&mut out, text);
    assert(out@ =~= inline_html(text@));
    out
}

/// The first paragraph break (two line feeds) at or after `from`.
pub open spec fn first_break(s: Seq<char>, from: int) -> Option<int>
    decreases s.len() - from,
{
    if from < 0 || from + 2 > s.len() {
        None
    } else if s[from] == '\n' && s[from + 1] == '\n' {
        Some(from)
    } else {
        first_break(s, from + 1)
    }
}

pub proof fn lemma_first_break_bound(s: Seq<char>, from: int)
    ensures
        first_break(s, from) matches Some(i) ==> from <= i && i + 2 <= s.len(),
    decreases s.len() - from,
{
    if from >= 0 && from + 2 <= s.len() && !(s[from] == '\n' && s[from + 1] == '\n') {
        lemma_first_break_bound(s, from + 1);
    }
}

/// One paragraph: nothing when blank.
pub open spec fn paragraph_html(p: Seq<char>) -> Seq<char> {
    if is_blank(p) { Seq::empty() } else { "<p>"@ + inline_html(p) + "</p>\n"@ }
}

/// The paragraphs of a text, separated by blank lines (`split("\n\n")`).
pub open spec fn paragraphs_html(s: Seq<char>) -> Seq<char>
    decreases s.len(),
{
    match first_break(s, 0) {
        Some(i) => {
            proof {
                lemma_first_break_bound(s, 0);
            }
            paragraph_html(s.take(i)) + paragraphs_html(s.skip(i + 2))
        },
        None => paragraph_html(s),
    }
}

fn push_paragraph(out: &mut String, cs: &Vec<char>, lo: usize, hi: usize)
    requires
        lo <= hi <= cs@.len(),
    ensures
        final(out)@ == old(out)@ + paragraph_html(cs@.subrange(lo as int, hi as int)),
{
    let p = string_from_range(cs.as_slice(), lo, hi);
    if crate::text::blank(p.as_str()) {
        return;
    }
    push_str(out, "<p>");
    push_inline(out, p.as_str());
    push_str(out, "</p>\n");
    assert(out@ =~= old(out)@ + paragraph_html(cs@.subrange(lo as int, hi as int)));
}

/// The first break in `cs[pos..hi]`, as a position of `cs`.
fn next_break(cs: &Vec<char>, pos: usize, hi: usize) -> (r: Option<usize>)
    requires
        pos <= hi <= cs@.len(),
    ensures
        match first_break(cs@.subrange(pos as int, hi as int), 0) {
            Some(i) => r == Some((i + pos) as usize),
            None => r is None,
        },
{
    let ghost s = cs@.subrange(pos as int, hi as int);
    let mut i = pos;
    while hi - i > 1
        invariant
            pos <= i <= hi <= cs@.len(),
            s == cs@.subrange(pos as int, hi as int),
            first_break(s, 0) == first_break(s, i - pos),
        decreases hi - i,
    {
        if cs[i] == '\n' && cs[i + 1] == '\n' {
            return Some(i);
        }
        i += 1;
    }
    None
}

/// Renders text as paragraphs split at blank lines, skipping blank paragraphs.
pub fn paragraphs(text: &str) -> (r: String)
    ensures
        r@ == paragraphs_html(text@),
{
    let cs = chars_of(text);
    let mut out = String::new();
    let mut pos: usize = 0;
    let hi = cs.len();
    loop
        invariant
            pos <= hi == cs@.len(),
            cs@ == text@,
            paragraphs_html(text@) == out@ + paragraphs_html(cs@.subrange(pos as int, hi as int)),
        decreases hi - pos,
    {
        let ghost rest = cs@.subrange(pos as int, hi as int);
        match next_break(&cs, pos, hi) {
            Some(b) => {
                proof {
                    lemma_first_break_bound(rest, 0);
                    assert(rest.take(b - pos) =~= cs@.subrange(pos as int, b as int));
                    assert(rest.skip(b - pos + 2) =~= cs@.subrange(b + 2, hi as int));
                }
                push_paragraph(&mut out, &cs, pos, b);
                pos = b + 2;
            },
            None => {
                push_paragraph(&mut out, &cs, pos, hi);
                return out;
            },
        }
    }
}

// ---------------------------------------------------------------------------------------
// The complete page
// ---------------------------------------------------------------------------------------

/// The reader's stylesheet: typography, character colors, dark mode, narrow screens and print.
pub const READER_CSS: &'static str = ":root{color-scheme:light dark;--paper:#fbf8f1;--ink:#2a2622;--muted:#6f665c;--rule:#ddd3c4;--accent:#9b513c;--character:#716355}\n@media (prefers-color-scheme:dark){:root{--paper:#171b20;--ink:#e2ddd2;--muted:#9aa2a8;--rule:#38434b;--accent:#e0b470}}\n*{box-sizing:border-box}\nhtml{background:var(--paper);color:var(--ink)}\nbody{margin:0;font:1.12rem/1.7 Georgia,'Iowan Old Style','Palatino Linotype',serif;background:var(--paper);color:var(--ink)}\nmain{max-width:40rem;margin:0 auto;padding:3rem 1.25rem 4rem}\n.skip{position:absolute;left:-999px}\n.skip:focus{left:1rem;top:1rem;background:var(--paper);padding:.5rem}\n.cover{text-align:center;margin-bottom:2.5rem}\n.cover h1{font-size:2.4rem;line-height:1.2;margin:0 0 .5rem;font-weight:normal}\n.subtitle{font-style:italic;color:var(--muted);margin:0}\n.byline{margin:.75rem 0 0;letter-spacing:.04em}\n.reading-time{font-size:.85rem;color:var(--muted)}\n.cast{border-top:1px solid var(--rule);border-bottom:1px solid var(--rule);padding:.75rem 0;margin:0 0 2rem}\n.cast summary{cursor:pointer;font-variant:small-caps;letter-spacing:.05em}\n.cast-member{border-left:4px solid var(--character);padding-left:.75rem;margin:.75rem 0}\n.cast-member dt{font-weight:bold;color:var(--character)}\n.cast-member dd{margin:0;color:var(--muted)}\n.contents{margin:0 0 2.5rem}\n.eyebrow{font-size:.75rem;letter-spacing:.2em;color:var(--muted)}\n.contents ol{padding-left:1.25rem}\n.contents a{color:inherit}\nh2{font-weight:normal;font-size:1.5rem;text-align:center;margin:3rem 0 1.5rem}\n.narration p{margin:0 0 1rem}\n.dialogue,.action,.thought{border-left:3px solid var(--character);padding-left:1rem;margin:1.25rem 0}\n.speaker{display:block;font-size:.8rem;letter-spacing:.12em;text-transform:uppercase;color:var(--character);font-weight:bold}\n.speech p{margin:0 0 .5rem}\n.speech p:first-child::before{content:'\\201C'}\n.speech p:last-child::after{content:'\\201D'}\n.action{font-style:italic;color:var(--muted)}\n.thought{font-style:italic}\n.kind-label{display:block;font-size:.75rem;color:var(--muted);font-style:normal}\n.quotation{margin:1.75rem 2rem;font-style:italic}\n.quotation blockquote{margin:0}\n.quotation figcaption{text-align:right;color:var(--muted);font-style:normal}\n.scene-break{border:0;text-align:center;margin:2.5rem 0}\n.scene-break::after{content:'\\2042';color:var(--muted)}\ncode{font-family:ui-monospace,Menlo,Consolas,monospace;font-size:.9em}\nfooter{text-align:center;color:var(--muted);margin-top:3rem}\n@media (max-width:32rem){body{font-size:1rem}main{padding:2rem 1rem 3rem}.quotation{margin:1.5rem .75rem}}\n@media print{:root{--paper:#fff;--ink:#000}main{max-width:none;padding:0}.skip,.cast summary{display:none}.cast{border:0}details.cast>*{display:block}h2{break-after:avoid}}";

/// The start of the page, up to the title element's text.
pub const PAGE_START: &'static str = "<!doctype html>\n<html lang=\"en\">\n<head>\n<meta charset=\"utf-8\">\n<meta name=\"viewport\" content=\"width=device-width, initial-scale=1\">\n<meta name=\"color-scheme\" content=\"light dark\">\n<meta name=\"generator\" content=\"Playrite\">\n<title>";

/// Between the title element's text and the stylesheet.
pub const STYLE_START: &'static str = "</title>\n<style>\n";

/// From the stylesheet to the cover heading's text.
pub const COVER_START: &'static str = "\n</style>\n</head>\n<body>\n<a class=\"skip\" href=\"#story\">Skip to story</a>\n<main>\n<header class=\"cover\">\n<h1>";

/// The end of the page.
pub const PAGE_END: &'static str = "</article>\n<footer><span aria-hidden=\"true\">⁂</span><p>The end</p></footer>\n</main>\n</body>\n</html>\n";

/// The color of blocks without a character.
pub const NEUTRAL_COLOR: &'static str = "#716355";


/// The character that a block names, if it exists.
pub open spec fn block_character(s: StoryView, b: BlockView) -> Option<CharacterView> {
    match b.character {
        Some(id) => match find_character(s.characters, id) {
            Some(k) => Some(s.characters[k]),
            None => None,
        },
        None => None,
    }
}

/// Whether a block appears in the reading copy: private notes never do, and other blocks
/// only with text, except scene breaks.
pub open spec fn shown(b: BlockView) -> bool {
    !(b.kind == Kind::Note || (b.kind != Kind::Divider && is_blank(b.text)))
}

/// The color of a block: its character's, or a neutral one.
pub open spec fn block_color(c: Option<CharacterView>) -> Seq<char> {
    match c {
        Some(c) => c.color,
        None => NEUTRAL_COLOR@,
    }
}

/// The speaker label of a block with a character.
pub open spec fn speaker_html(c: Option<CharacterView>) -> Seq<char> {
    match c {
        Some(c) => "<span class=\"speaker\">"@ + escape_text(c.name) + "</span>"@,
        None => Seq::empty(),
    }
}

/// The attribution of a quotation with a character.
pub open spec fn caption_html(c: Option<CharacterView>) -> Seq<char> {
    match c {
        Some(c) => "<figcaption>— "@ + escape_text(c.name) + "</figcaption>"@,
        None => Seq::empty(),
    }
}

/// The HTML of a shown block of type `kind` at position `i`.
pub open spec fn block_markup(kind: Kind, i: nat, text: Seq<char>, c: Option<CharacterView>) -> Seq<
    char,
> {
    match kind {
        Kind::Scene => "<h2 id=\"scene-"@ + decimal(i) + "\">"@ + inline_html(text) + "</h2>\n"@,
        Kind::Narration => "<div class=\"narration\">"@ + paragraphs_html(text) + "</div>\n"@,
        Kind::Dialogue => "<div class=\"dialogue\" style=\"--character: "@ + block_color(c) + "\">"@
            + speaker_html(c) + "<div class=\"speech\">"@ + paragraphs_html(text) + "</div></div>\n"@,
        Kind::Action => "<div class=\"action\" style=\"--character: "@ + block_color(c) + "\">"@
            + speaker_html(c) + paragraphs_html(text) + "</div>\n"@,
        Kind::Thought => "<div class=\"thought\" style=\"--character: "@ + block_color(c) + "\">"@
            + speaker_html(c) + "<span class=\"kind-label\">thinking</span>"@ + paragraphs_html(text)
            + "</div>\n"@,
        Kind::Quote => "<figure class=\"quotation\"><blockquote>"@ + paragraphs_html(text)
            + "</blockquote>"@ + caption_html(c) + "</figure>\n"@,
        Kind::Divider => "<hr class=\"scene-break\" aria-label=\"Scene break\">\n"@,
        Kind::Note => Seq::empty(),
    }
}

/// The HTML for block `i`.
pub open spec fn block_html(s: StoryView, i: int) -> Seq<char> {
    let b = s.blocks[i];
    if !shown(b) {
        Seq::empty()
    } else {
        block_markup(b.kind, i as nat, b.text, block_character(s, b))
    }
}

/// The HTML for the first `n` blocks.
pub open spec fn blocks_html(s: StoryView, n: int) -> Seq<char>
    decreases n,
{
    if n <= 0 || n > s.blocks.len() {
        Seq::empty()
    } else {
        blocks_html(s, n - 1) + block_html(s, n - 1)
    }
}

/// A scene heading with text: an entry of the contents.
pub open spec fn scene_entry(b: BlockView) -> bool {
    b.kind == Kind::Scene && !is_blank(b.text)
}

/// The number of contents entries among the first `n` blocks.
pub open spec fn scene_count(bs: Seq<BlockView>, n: int) -> nat
    decreases n,
{
    if n <= 0 || n > bs.len() {
        0
    } else {
        scene_count(bs, n - 1) + if scene_entry(bs[n - 1]) { 1nat } else { 0nat }
    }
}

/// The contents entries for the first `n` blocks.
pub open spec fn contents_items(s: StoryView, n: int) -> Seq<char>
    decreases n,
{
    if n <= 0 || n > s.blocks.len() {
        Seq::empty()
    } else {
        contents_items(s, n - 1) + if scene_entry(s.blocks[n - 1]) {
            "<li><a href=\"#scene-"@ + decimal((n - 1) as nat) + "\">"@ + inline_html(
                s.blocks[n - 1].text,
            ) + "</a></li>\n"@
        } else {
            Seq::empty()
        }
    }
}

/// The contents list, present when the story has more than one scene heading.
pub open spec fn contents_html(s: StoryView) -> Seq<char> {
    if scene_count(s.blocks, s.blocks.len() as int) > 1 {
        "<nav class=\"contents\" aria-label=\"Scenes\"><span class=\"eyebrow\">CONTENTS</span><ol>\n"@
            + contents_items(s, s.blocks.len() as int) + "</ol></nav>\n"@
    } else {
        Seq::empty()
    }
}

/// One member of the cast list.
pub open spec fn cast_member_html(c: CharacterView) -> Seq<char> {
    "<div class=\"cast-member\" style=\"--character: "@ + escape_text(c.color) + "\"><dt>"@
        + escape_text(c.name) + "</dt><dd>"@ + escape_text(c.description) + "</dd></div>\n"@
}

/// The members of the cast list.
pub open spec fn cast_members_html(cs: Seq<CharacterView>) -> Seq<char>
    decreases cs.len(),
{
    if cs.len() == 0 {
        Seq::empty()
    } else {
        cast_members_html(cs.drop_last()) + cast_member_html(cs.last())
    }
}

/// The expandable cast list, present when the story has characters.
pub open spec fn cast_html(cs: Seq<CharacterView>) -> Seq<char> {
    if cs.len() > 0 {
        "<details class=\"cast\"><summary>The characters</summary><dl>\n"@ + cast_members_html(cs)
            + "</dl></details>\n"@
    } else {
        Seq::empty()
    }
}

/// Reading minutes at 220 words a minute, rounded up, at least one.
pub open spec fn reading_minutes(words: nat) -> nat {
    if words == 0 { 1 } else { ((words + 219) / 220) as nat }
}

/// The cover: title, subtitle and byline when present, length and reading time.
pub open spec fn cover_html(s: StoryView) -> Seq<char> {
    PAGE_START@ + escape_text(s.title) + STYLE_START@ + READER_CSS@ + COVER_START@ + escape_text(s.title)
        + "</h1>\n"@ + subtitle_html(s.subtitle) + byline_html(s.author) + reading_html(block_words(s.blocks))
}

/// The complete reading copy of a story.
pub open spec fn render_html(s: StoryView) -> Seq<char> {
    cover_html(s) + cast_html(s.characters) + contents_html(s) + "<article id=\"story\" aria-label=\"Story\">\n"@
        + blocks_html(s, s.blocks.len() as int) + PAGE_END@
}

fn push_escaped_str(out: &mut String, text: &str)
    ensures
        final(out)@ == old(out)@ + escape_text(text@),
{
    let e = escape(text);
    push_str(out, e.as_str());
}

/// The subtitle line, when the subtitle has text.
pub open spec fn subtitle_html(t: Seq<char>) -> Seq<char> {
    if !is_blank(t) {
        "<p class=\"subtitle\">"@ + escape_text(t) + "</p>\n"@
    } else {
        Seq::empty()
    }
}

/// The byline, when the author has text.
pub open spec fn byline_html(t: Seq<char>) -> Seq<char> {
    if !is_blank(t) {
        "<p class=\"byline\">By "@ + escape_text(t) + "</p>\n"@
    } else {
        Seq::empty()
    }
}

/// The length and reading time of the story.
pub open spec fn reading_html(words: nat) -> Seq<char> {
    "<p class=\"reading-time\">"@ + decimal(words) + " words <span aria-hidden=\"true\">·</span> "@
        + decimal(reading_minutes(words)) + " min read</p>\n</header>\n"@
}

proof fn lemma_empty_plus(x: Seq<char>)
    ensures
        Seq::<char>::empty() + x == x,
{
    assert(Seq::<char>::empty() + x =~= x);
}

fn subtitle_line(t: &str) -> (r: String)
    ensures
        r@ == subtitle_html(t@),
{
    let mut out = String::new();
    if !blank(t) {
        push_str(&mut out, "<p class=\"subtitle\">");
        proof { lemma_empty_plus("<p class=\"subtitle\">"@); }
        push_escaped_str(&mut out, t);
        push_str(&mut out, "</p>\n");
    }
    out
}

fn byline(t: &str) -> (r: String)
    ensures
        r@ == byline_html(t@),
{
    let mut out = String::new();
    if !blank(t) {
        push_str(&mut out, "<p class=\"byline\">By ");
        proof { lemma_empty_plus("<p class=\"byline\">By "@); }
        push_escaped_str(&mut out, t);
        push_str(&mut out, "</p>\n");
    }
    out
}

fn reading_time(words: usize) -> (r: String)
    ensures
        r@ == reading_html(words as nat),
{
    let minutes = if words == 0 {
        1
    } else {
        words / 220 + if words % 220 != 0 { 1usize } else { 0usize }
    };
    assert(minutes == reading_minutes(words as nat));
    let mut out = String::new();
    push_str(&mut out, "<p class=\"reading-time\">");
    proof { lemma_empty_plus("<p class=\"reading-time\">"@); }
    push_decimal(&mut out, words as u64);
    push_str(&mut out, " words <span aria-hidden=\"true\">·</span> ");
    push_decimal(&mut out, minutes as u64);
    push_str(&mut out, " min read</p>\n</header>\n");
    out
}

fn cover(story: &Story) -> (r: String)
    requires
        block_words(story@.blocks) <= usize::MAX,
    ensures
        r@ == cover_html(story@),
{
    let mut out = String::new();
    push_str(&mut out, PAGE_START);
    proof { lemma_empty_plus(PAGE_START@); }
    push_escaped_str(&mut out, story.title.as_str());
    push_str(&mut out, STYLE_START);
    push_str(&mut out, READER_CSS);
    push_str(&mut out, COVER_START);
    push_escaped_str(&mut out, story.title.as_str());
    push_str(&mut out, "</h1>\n");
    let sub = subtitle_line(story.subtitle.as_str());
    push_str(&mut out, sub.as_str());
    let by = byline(story.author.as_str());
    push_str(&mut out, by.as_str());
    let rt = reading_time(story.word_count());
    push_str(&mut out, rt.as_str());
    out
}

fn push_cast(out: &mut String, story: &Story)
    ensures
        final(out)@ == old(out)@ + cast_html(story@.characters),
{
    let ghost cs = story@.characters;
    if story.characters.len() == 0 {
        assert(out@ =~= old(out)@ + cast_html(cs));
        return;
    }
    push_str(out, "<details class=\"cast\"><summary>The characters</summary><dl>\n");
    let ghost head = out@;
    let mut i: usize = 0;
    while i < story.characters.len()
        invariant
            i <= cs.len(),
            cs == story@.characters,
            out@ == head + cast_members_html(cs.take(i as int)),
        decreases cs.len() - i,
    {
        let c = &story.characters[i];
        assert(cs[i as int] == c@);
        let ghost before = out@;
        push_str(out, "<div class=\"cast-member\" style=\"--character: ");
        push_escaped_str(out, c.color.as_str());
        push_str(out, "\"><dt>");
        push_escaped_str(out, c.name.as_str());
        push_str(out, "</dt><dd>");
        push_escaped_str(out, c.description.as_str());
        push_str(out, "</dd></div>\n");
        assert(out@ =~= before + cast_member_html(c@));
        assert(cs.take(i + 1).drop_last() =~= cs.take(i as int));
        i += 1;
    }
    assert(cs.take(cs.len() as int) =~= cs);
    push_str(out, "</dl></details>\n");
    assert(out@ =~= old(out)@ + cast_html(cs));
}

fn count_scenes(story: &Story) -> (r: usize)
    ensures
        r == scene_count(story@.blocks, story@.blocks.len() as int),
{
    let ghost bs = story@.blocks;
    let mut n: usize = 0;
    let mut i: usize = 0;
    while i < story.blocks.len()
        invariant
            i <= bs.len(),
            bs == story@.blocks,
            n == scene_count(bs, i as int),
            n <= i,
        decreases bs.len() - i,
    {
        let b = &story.blocks[i];
        assert(bs[i as int] == b@);
        if b.kind == Kind::Scene && !blank(b.text.as_str()) {
            n += 1;
        }
        i += 1;
    }
    n
}

fn push_contents(out: &mut String, story: &Story)
    ensures
        final(out)@ == old(out)@ + contents_html(story@),
{
    let ghost s = story@;
    if count_scenes(story) <= 1 {
        assert(out@ =~= old(out)@ + contents_html(s));
        return;
    }
    push_str(out, "<nav class=\"contents\" aria-label=\"Scenes\"><span class=\"eyebrow\">CONTENTS</span><ol>\n");
    let ghost head = out@;
    let mut i: usize = 0;
    while i < story.blocks.len()
        invariant
            i <= s.blocks.len(),
            s == story@,
            out@ == head + contents_items(s, i as int),
        decreases s.blocks.len() - i,
    {
        let b = &story.blocks[i];
        assert(s.blocks[i as int] == b@);
        let ghost before = out@;
        if b.kind == Kind::Scene && !blank(b.text.as_str()) {
            push_str(out, "<li><a href=\"#scene-");
            push_decimal(out, i as u64);
            push_str(out, "\">");
            push_inline(out, b.text.as_str());
            push_str(out, "</a></li>\n");
        }
        assert(out@ =~= head + contents_items(s, i + 1));
        i += 1;
    }
    push_str(out, "</ol></nav>\n");
    assert(out@ =~= old(out)@ + contents_html(s));
}

fn push_paragraphs(out: &mut String, text: &str)
    ensures
        final(out)@ == old(out)@ + paragraphs_html(text@),
{
    let p = paragraphs(text);
    push_str(out, p.as_str());
}

fn speaker(character: Option<&Character>) -> (r: String)
    ensures
        r@ == speaker_html(match character { Some(c) => Some(c@), None => None }),
{
    let mut out = String::new();
    if let Some(ch) = character {
        push_str(&mut out, "<span class=\"speaker\">");
        proof { lemma_empty_plus("<span class=\"speaker\">"@); }
        push_escaped_str(&mut out, ch.name.as_str());
        push_str(&mut out, "</span>");
    } else {
        assert(out@ =~= Seq::<char>::empty());
    }
    out
}

fn caption(character: Option<&Character>) -> (r: String)
    ensures
        r@ == caption_html(match character { Some(c) => Some(c@), None => None }),
{
    let mut out = String::new();
    if let Some(ch) = character {
        push_str(&mut out, "<figcaption>— ");
        proof { lemma_empty_plus("<figcaption>— "@); }
        push_escaped_str(&mut out, ch.name.as_str());
        push_str(&mut out, "</figcaption>");
    } else {
        assert(out@ =~= Seq::<char>::empty());
    }
    out
}

fn color_of(character: Option<&Character>) -> (r: &str)
    ensures
        r@ == block_color(match character { Some(c) => Some(c@), None => None }),
{
    match character {
        Some(ch) => ch.color.as_str(),
        None => NEUTRAL_COLOR,
    }
}

fn markup(kind: Kind, i: usize, text: &str, character: Option<&Character>) -> (r: String)
    ensures
        r@ == block_markup(kind, i as nat, text@, match character { Some(c) => Some(c@), None => None }),
{
    let mut out = String::new();
    match kind {
        Kind::Scene => {
            push_str(&mut out, "<h2 id=\"scene-");
            proof { lemma_empty_plus("<h2 id=\"scene-"@); }
            push_decimal(&mut out, i as u64);
            push_str(&mut out, "\">");
            push_inline(&mut out, text);
            push_str(&mut out, "</h2>\n");
        },
        Kind::Narration => {
            push_str(&mut out, "<div class=\"narration\">");
            proof { lemma_empty_plus("<div class=\"narration\">"@); }
            push_paragraphs(&mut out, text);
            push_str(&mut out, "</div>\n");
        },
        Kind::Dialogue => {
            push_str(&mut out, "<div class=\"dialogue\" style=\"--character: ");
            proof { lemma_empty_plus("<div class=\"dialogue\" style=\"--character: "@); }
            push_str(&mut out, color_of(character));
            push_str(&mut out, "\">");
            let label = speaker(character);
            push_str(&mut out, label.as_str());
            push_str(&mut out, "<div class=\"speech\">");
            push_paragraphs(&mut out, text);
            push_str(&mut out, "</div></div>\n");
        },
        Kind::Action => {
            push_str(&mut out, "<div class=\"action\" style=\"--character: ");
            proof { lemma_empty_plus("<div class=\"action\" style=\"--character: "@); }
            push_str(&mut out, color_of(character));
            push_str(&mut out, "\">");
            let label = speaker(character);
            push_str(&mut out, label.as_str());
            push_paragraphs(&mut out, text);
            push_str(&mut out, "</div>\n");
        },
        Kind::Thought => {
            push_str(&mut out, "<div class=\"thought\" style=\"--character: ");
            proof { lemma_empty_plus("<div class=\"thought\" style=\"--character: "@); }
            push_str(&mut out, color_of(character));
            push_str(&mut out, "\">");
            let label = speaker(character);
            push_str(&mut out, label.as_str());
            push_str(&mut out, "<span class=\"kind-label\">thinking</span>");
            push_paragraphs(&mut out, text);
            push_str(&mut out, "</div>\n");
        },
        Kind::Quote => {
            push_str(&mut out, "<figure class=\"quotation\"><blockquote>");
            proof { lemma_empty_plus("<figure class=\"quotation\"><blockquote>"@); }
            push_paragraphs(&mut out, text);
            push_str(&mut out, "</blockquote>");
            let cap = caption(character);
            push_str(&mut out, cap.as_str());
            push_str(&mut out, "</figure>\n");
        },
        Kind::Divider => {
            push_str(&mut out, "<hr class=\"scene-break\" aria-label=\"Scene break\">\n");
            proof { lemma_empty_plus("<hr class=\"scene-break\" aria-label=\"Scene break\">\n"@); }
        },
        Kind::Note => {},
    }
    out
}

fn push_block(out: &mut String, story: &Story, i: usize)
    requires
        i < story@.blocks.len(),
    ensures
        final(out)@ == old(out)@ + block_html(story@, i as int),
{
    let ghost s = story@;
    let b = &story.blocks[i];
    assert(s.blocks[i as int] == b@);
    if b.kind == Kind::Note || (b.kind != Kind::Divider && blank(b.text.as_str())) {
        assert(out@ =~= old(out)@ + block_html(s, i as int));
        return;
    }
    let character = story.character(b.character);
    assert(block_character(s, b@) == match character { Some(c) => Some(c@), None => None::<CharacterView> });
    let m = markup(b.kind, i, b.text.as_str(), character);
    push_str(out, m.as_str());
}

/// Renders the complete standalone reading copy: cover, cast list, contents, and every
/// block except private notes.
pub fn render(story: &Story) -> (r: String)
    requires
        block_words(story@.blocks) <= usize::MAX,
    ensures
        r@ == render_html(story@),
{
    let ghost s = story@;
    let c = cover(story);
    let mut out = String::new();
    push_str(&mut out, c.as_str());
    proof { lemma_empty_plus(c@); }
    push_cast(&mut out, story);
    push_contents(&mut out, story);
    push_str(&mut out, "<article id=\"story\" aria-label=\"Story\">\n");
    let ghost head = out@;
    let mut i: usize = 0;
    while i < story.blocks.len()
        invariant
            i <= s.blocks.len(),
            s == story@,
            out@ == head + blocks_html(s, i as int),
        decreases s.blocks.len() - i,
    {
        push_block(&mut out, story, i);
        proof {
            vstd::seq_lib::lemma_concat_associative(head, blocks_html(s, i as int), block_html(s, i as int));
        }
        i += 1;
    }
    push_str(&mut out, PAGE_END);
    out
}

// ---------------------------------------------------------------------------------------
// Output file names
// ---------------------------------------------------------------------------------------

/// Where the last path segment of `p[..end]` starts.
pub open spec fn segment_start(p: Seq<char>, end: int) -> int
    decreases end,
{
    if end <= 0 || end > p.len() {
        0
    } else if p[end - 1] == '/' {
        end
    } else {
        segment_start(p, end - 1)
    }
}

pub proof fn lemma_segment_start(p: Seq<char>, end: int)
    requires
        0 <= end <= p.len(),
    ensures
        0 <= segment_start(p, end) <= end,
        segment_start(p, end) > 0 ==> p[segment_start(p, end) - 1] == '/',
        forall|j: int| segment_start(p, end) <= j < end ==> p[j] != '/',
    decreases end,
{
    if end > 0 && p[end - 1] != '/' {
        lemma_segment_start(p, end - 1);
    }
}

/// A file name without its extension, as `Path::file_stem` finds it.
pub open spec fn file_stem(n: Seq<char>) -> Seq<char> {
    match extension_of(n) {
        Some(e) => n.take(n.len() - e.len() - 1),
        None => n,
    }
}

/// A path that reads the same on every platform and ends with its file name, if it has
/// one: no `\`, no `:`, and no separator or `.` component after the file name.
pub open spec fn simple_path(p: Seq<char>) -> bool {
    &&& forall|i: int| 0 <= i < p.len() ==> p[i] != '\\' && p[i] != ':'
    &&& file_name(p) is None || file_name(p) == Some(p.skip(segment_start(p, p.len() as int)))
}

/// The path with the extension of its file name set to `ext` (added where there is none,
/// replaced where there is one); a path without a file name stays as it is.
pub open spec fn extension_set(p: Seq<char>, ext: Seq<char>) -> Seq<char> {
    match file_name(p) {
        None => p,
        Some(n) => p.take(p.len() - n.len()) + file_stem(n) + seq!['.'] + ext,
    }
}

/// `name` is what setting the extension of `path` to `ext` gives: on a simple path, the
/// path with its file name's extension set; on any path, the path itself (when it has no
/// file name) or a name that ends with `.` and `ext`.
pub open spec fn named_after(path: Seq<char>, name: Seq<char>, ext: Seq<char>) -> bool {
    let tail = seq!['.'] + ext;
    &&& simple_path(path) ==> name == extension_set(path, ext)
    &&& name == path || (name.len() >= tail.len() && name.subrange(name.len() - tail.len(), name.len() as int)
        == tail)
}

/// `Path::with_extension`, shown as text: the path with its file name's extension set to
/// `ext`. The call panics when `ext` holds a path separator, so `requires` admits only an
/// extension without `/` or `\`. For a non-empty `ext` the contract states what the
/// documentation of `PathBuf::set_extension` promises: a path without a file name stays
/// as it is; otherwise the extension is added, or replaced, and is used in its entirety.
/// It states the exact result for paths that end with their file name and hold no `\` or
/// `:`, where every platform splits the path alike; for other paths it states only that
/// the result is the path or ends with `.` and `ext`, what happens to separators or `.`
/// components after the file name being left unstated.
#[verifier::external_body]
pub(crate) fn with_extension(path: &String, ext: &str) -> (r: String)
    requires
        forall|i: int| 0 <= i < ext@.len() ==> ext@[i] != '/' && ext@[i] != '\\',
    ensures
        ext@.len() > 0 ==> named_after(path@, r@, ext@),
{
    std::path::Path::new(path.as_str()).with_extension(ext).display().to_string()
}

/// The final component of a path, as `Path::file_name` finds it: separators at the end and
/// `.` components are skipped; a final `..` or an empty path has none.
pub open spec fn file_name(p: Seq<char>) -> Option<Seq<char>>
    decreases p.len(),
{
    if p.len() == 0 {
        None
    } else if p.last() == '/' {
        file_name(p.drop_last())
    } else {
        let k = segment_start(p, p.len() as int);
        proof {
            lemma_segment_start(p, p.len() as int);
        }
        let seg = p.skip(k);
        if seg == seq!['.'] {
            file_name(p.take(k))
        } else if seg == seq!['.', '.'] {
            None
        } else {
            Some(seg)
        }
    }
}

/// The position of the last `.` in `s[..end]`.
pub open spec fn last_dot(s: Seq<char>, end: int) -> Option<int>
    decreases end,
{
    if end <= 0 || end > s.len() {
        None
    } else if s[end - 1] == '.' {
        Some(end - 1)
    } else {
        last_dot(s, end - 1)
    }
}

/// The extension of a file name, as `Path::extension` finds it: the text after the last
/// `.`, unless that dot starts the name.
pub open spec fn extension_of(name: Seq<char>) -> Option<Seq<char>> {
    match last_dot(name, name.len() as int) {
        Some(d) => if d > 0 { Some(name.skip(d + 1)) } else { None },
        None => None,
    }
}

/// ASCII lower case.
pub open spec fn lower(c: char) -> char {
    if 'A' <= c <= 'Z' { ((c as u32) + 32) as char } else { c }
}

/// `html` or `htm`, in any ASCII case.
pub open spec fn is_html_extension(e: Seq<char>) -> bool {
    ||| (e.len() == 4 && lower(e[0]) == 'h' && lower(e[1]) == 't' && lower(e[2]) == 'm' && lower(e[3]) == 'l')
    ||| (e.len() == 3 && lower(e[0]) == 'h' && lower(e[1]) == 't' && lower(e[2]) == 'm')
}

/// The path names an HTML file.
pub open spec fn html_path(p: Seq<char>) -> bool {
    match file_name(p) {
        Some(n) => match extension_of(n) {
            Some(e) => is_html_extension(e),
            None => false,
        },
        None => false,
    }
}

fn lower_char(c: char) -> (r: char)
    ensures
        r == lower(c),
{
    if 'A' <= c && c <= 'Z' {
        let v = c as u32 + 32;
        char_from(v)
    } else {
        c
    }
}

fn char_from(v: u32) -> (r: char)
    requires
        0x61 <= v <= 0x7a,
    ensures
        r == v as char,
{
    if v == 0x61 { 'a' } else if v == 0x62 { 'b' } else if v == 0x63 { 'c' } else if v == 0x64 { 'd' }
    else if v == 0x65 { 'e' } else if v == 0x66 { 'f' } else if v == 0x67 { 'g' } else if v == 0x68 { 'h' }
    else if v == 0x69 { 'i' } else if v == 0x6a { 'j' } else if v == 0x6b { 'k' } else if v == 0x6c { 'l' }
    else if v == 0x6d { 'm' } else if v == 0x6e { 'n' } else if v == 0x6f { 'o' } else if v == 0x70 { 'p' }
    else if v == 0x71 { 'q' } else if v == 0x72 { 'r' } else if v == 0x73 { 's' } else if v == 0x74 { 't' }
    else if v == 0x75 { 'u' } else if v == 0x76 { 'v' } else if v == 0x77 { 'w' } else if v == 0x78 { 'x' }
    else if v == 0x79 { 'y' } else { 'z' }
}

/// Where the file name of `cs[..end]` lies, if it has one.
fn file_name_range(cs: &Vec<char>) -> (r: Option<(usize, usize)>)
    ensures
        match file_name(cs@) {
            Some(n) => r matches Some((a, b)) && a <= b <= cs@.len() && cs@.subrange(a as int, b as int) == n,
            None => r is None,
        },
{
    let mut end = cs.len();
    assert(cs@.take(end as int) =~= cs@);
    loop
        invariant
            end <= cs@.len(),
            file_name(cs@) == file_name(cs@.take(end as int)),
        decreases end,
    {
        let ghost p = cs@.take(end as int);
        if end == 0 {
            return None;
        }
        if cs[end - 1] == '/' {
            assert(p.drop_last() =~= cs@.take(end - 1));
            end -= 1;
            continue;
        }
        let mut start = end;
        while start > 0 && cs[start - 1] != '/'
            invariant
                start <= end <= cs@.len(),
                p == cs@.take(end as int),
                segment_start(p, p.len() as int) == segment_start(p, start as int),
            decreases start,
        {
            start -= 1;
        }
        proof {
            lemma_segment_start(p, p.len() as int);
            assert(p.skip(start as int) =~= cs@.subrange(start as int, end as int));
        }
        let ghost seg = p.skip(start as int);
        if end - start == 1 && cs[start] == '.' {
            assert(seg =~= seq!['.']);
            assert(p.take(start as int) =~= cs@.take(start as int));
            end = start;
            continue;
        }
        if end - start == 2 && cs[start] == '.' && cs[start + 1] == '.' {
            assert(seg =~= seq!['.', '.']);
            return None;
        }
        assert(seg != seq!['.']) by {
            if seg == seq!['.'] {
                assert(seg.len() == 1 && seg[0] == cs@[start as int]);
            }
        }
        assert(seg != seq!['.', '.']) by {
            if seg == seq!['.', '.'] {
                assert(seg.len() == 2 && seg[0] == cs@[start as int] && seg[1] == cs@[start + 1]);
            }
        }
        return Some((start, end));
    }
}

/// Whether the path names an `.html` or `.htm` file (any case), as the export requires.
pub fn is_html_path(path: &str) -> (r: bool)
    ensures
        r == html_path(path@),
{
    let cs = chars_of(path);
    match file_name_range(&cs) {
        None => false,
        Some((a, b)) => {
            let ghost name = cs@.subrange(a as int, b as int);
            let mut d = b;
            while d > a && cs[d - 1] != '.'
                invariant
                    a <= d <= b <= cs@.len(),
                    name == cs@.subrange(a as int, b as int),
                    last_dot(name, name.len() as int) == last_dot(name, d - a),
                decreases d,
            {
                d -= 1;
            }
            if d == a {
                return false;
            }
            let dot = d - 1;
            assert(name[dot - a] == '.');
            if dot == a {
                return false;
            }
            let ghost ext = name.skip(dot - a + 1);
            assert(ext =~= cs@.subrange(d as int, b as int));
            let n = b - d;
            if n == 4 {
                lower_char(cs[d]) == 'h' && lower_char(cs[d + 1]) == 't' && lower_char(cs[d + 2]) == 'm'
                    && lower_char(cs[d + 3]) == 'l'
            } else if n == 3 {
                lower_char(cs[d]) == 'h' && lower_char(cs[d + 1]) == 't' && lower_char(cs[d + 2]) == 'm'
            } else {
                false
            }
        },
    }
}

/// The message for an export file name without an HTML extension.
pub open spec fn extension_message() -> Seq<char> {
    "Choose an .html or .htm output filename"@
}

/// Prepares an export to `path`: the story must be valid and the path must name an
/// `.html` or `.htm` file; the result is the page to write there.
pub fn write(story: &Story, path: &str) -> (r: Result<String, String>)
    requires
        block_words(story@.blocks) <= usize::MAX,
    ensures
        !valid_story(story@) ==> (r matches Err(e) && Some(e@) == story_error(story@)),
        valid_story(story@) && !html_path(path@) ==> (r matches Err(e) && e@ == extension_message()),
        valid_story(story@) && html_path(path@) ==> (r matches Ok(h) && h@ == render_html(story@)),
{
    story.validate()?;
    if !is_html_path(path) {
        return Err(String::from_str("Choose an .html or .htm output filename"));
    }
    Ok(render(story))
}

// ---------------------------------------------------------------------------------------
// Private notes stay private
// ---------------------------------------------------------------------------------------

/// A story whose block `i` is replaced by a private note with any text and character.
pub open spec fn with_note(s: StoryView, i: int, text: Seq<char>, character: Option<u64>) -> StoryView {
    StoryView {
        blocks: s.blocks.update(i, BlockView { kind: Kind::Note, character, text }),
        ..s
    }
}

/// Two blocks that the reading copy cannot tell apart: the same type, the same text
/// unless a note or a scene break, and the same character unless a note, a scene break, a
/// narration or a scene heading.
pub open spec fn reads_alike(a: BlockView, b: BlockView) -> bool {
    &&& a.kind == b.kind
    &&& (a.kind == Kind::Note || a.kind == Kind::Divider || a.text == b.text)
    &&& (a.kind == Kind::Note || a.kind == Kind::Divider || a.kind == Kind::Narration || a.kind
        == Kind::Scene || a.character == b.character)
}

/// Two stories that the reading copy cannot tell apart: the same title, subtitle, author
/// and cast, and blocks that read alike one for one.
pub open spec fn stories_read_alike(s: StoryView, t: StoryView) -> bool {
    &&& s.title == t.title
    &&& s.subtitle == t.subtitle
    &&& s.author == t.author
    &&& s.characters == t.characters
    &&& s.blocks.len() == t.blocks.len()
    &&& forall|k: int| 0 <= k < s.blocks.len() ==> reads_alike(#[trigger] s.blocks[k], t.blocks[k])
}

proof fn lemma_words_alike(a: Seq<BlockView>, b: Seq<BlockView>)
    requires
        a.len() == b.len(),
        forall|k: int| 0 <= k < a.len() ==> reads_alike(#[trigger] a[k], b[k]),
    ensures
        block_words(a) == block_words(b),
    decreases a.len(),
{
    if a.len() > 0 {
        let n = a.len() - 1;
        assert(reads_alike(a[n], b[n]));
        assert forall|k: int| 0 <= k < a.drop_last().len() implies reads_alike(
            #[trigger] a.drop_last()[k],
            b.drop_last()[k],
        ) by {
            assert(reads_alike(a[k], b[k]));
        }
        lemma_words_alike(a.drop_last(), b.drop_last());
    }
}

proof fn lemma_contents_alike(s: StoryView, t: StoryView, n: int)
    requires
        stories_read_alike(s, t),
    ensures
        scene_count(t.blocks, n) == scene_count(s.blocks, n),
        contents_items(t, n) == contents_items(s, n),
    decreases n,
{
    if n > 0 && n <= s.blocks.len() {
        lemma_contents_alike(s, t, n - 1);
        assert(reads_alike(s.blocks[n - 1], t.blocks[n - 1]));
    }
}

proof fn lemma_blocks_alike(s: StoryView, t: StoryView, n: int)
    requires
        stories_read_alike(s, t),
    ensures
        blocks_html(t, n) == blocks_html(s, n),
    decreases n,
{
    if n > 0 && n <= s.blocks.len() {
        lemma_blocks_alike(s, t, n - 1);
        let a = s.blocks[n - 1];
        let b = t.blocks[n - 1];
        assert(reads_alike(a, b));
        assert(shown(a) == shown(b));
        if a.kind != Kind::Note && a.kind != Kind::Divider && a.kind != Kind::Narration && a.kind
            != Kind::Scene {
            assert(block_character(s, a) == block_character(t, b));
        }
        assert(block_html(s, n - 1) == block_html(t, n - 1));
    }
}

/// The reading copy shows only what readers see: the text of notes and scene breaks, and
/// the character of notes, scene breaks, narration and scene headings, never change it.
pub proof fn law_export_ignores_hidden(s: StoryView, t: StoryView)
    requires
        stories_read_alike(s, t),
    ensures
        render_html(s) == render_html(t),
{
    lemma_words_alike(s.blocks, t.blocks);
    lemma_contents_alike(s, t, s.blocks.len() as int);
    lemma_blocks_alike(s, t, s.blocks.len() as int);
}

/// Private notes never reach the reading copy: changing the text or character of a note
/// leaves the rendered HTML unchanged.
pub proof fn law_notes_are_private(s: StoryView, i: int, text: Seq<char>, character: Option<u64>)
    requires
        0 <= i < s.blocks.len(),
        s.blocks[i].kind == Kind::Note,
    ensures
        render_html(with_note(s, i, text, character)) == render_html(s),
{
    let t = with_note(s, i, text, character);
    assert forall|k: int| 0 <= k < s.blocks.len() implies reads_alike(#[trigger] s.blocks[k], t.blocks[k]) by {
        if k != i {
            assert(t.blocks[k] == s.blocks[k]);
        }
    }
    law_export_ignores_hidden(s, t);
}

/// The blocks' HTML up to block `i` is the start of the HTML of all the blocks.
proof fn lemma_blocks_html_prefix(s: StoryView, i: int, n: int)
    requires
        0 <= i <= n <= s.blocks.len(),
    ensures
        blocks_html(s, i).len() <= blocks_html(s, n).len(),
        blocks_html(s, n).take(blocks_html(s, i).len() as int) == blocks_html(s, i),
    decreases n - i,
{
    if i == n {
        assert(blocks_html(s, n).take(blocks_html(s, n).len() as int) =~= blocks_html(s, n));
    } else {
        lemma_blocks_html_prefix(s, i, n - 1);
        let a = blocks_html(s, i);
        let b = blocks_html(s, n - 1);
        assert(blocks_html(s, n) == b + block_html(s, n - 1));
        assert(blocks_html(s, n).take(a.len() as int) =~= b.take(a.len() as int));
    }
}

/// Every block's HTML appears in the reading copy.
pub proof fn lemma_render_holds_block(s: StoryView, i: int)
    requires
        0 <= i < s.blocks.len(),
    ensures
        exists|pre: Seq<char>, post: Seq<char>| render_html(s) == pre + block_html(s, i) + post,
{
    let n = s.blocks.len() as int;
    lemma_blocks_html_prefix(s, i + 1, n);
    let whole = blocks_html(s, n);
    let upto = blocks_html(s, i + 1);
    assert(upto == blocks_html(s, i) + block_html(s, i));
    let after = whole.skip(upto.len() as int);
    assert(whole =~= upto + after);
    let head = cover_html(s) + cast_html(s.characters) + contents_html(s) + "<article id=\"story\" aria-label=\"Story\">\n"@;
    let pre = head + blocks_html(s, i);
    let post = after + PAGE_END@;
    assert(render_html(s) =~= pre + block_html(s, i) + post);
}

/// Every dialogue line of the reading copy that has a speaker in the cast names the
/// speaker: the block's HTML is the dialogue frame in the speaker's color, the speaker's
/// name (escaped) in a speaker label, then the speech, and it appears in the page.
#[verifier::spinoff_prover]
#[verifier::rlimit(40)]
pub proof fn law_dialogue_names_speaker(s: StoryView, i: int, k: int)
    requires
        0 <= i < s.blocks.len(),
        s.blocks[i].kind == Kind::Dialogue,
        !is_blank(s.blocks[i].text),
        s.blocks[i].character == Some(s.characters[k].id),
        find_character(s.characters, s.characters[k].id) == Some(k),
    ensures
        block_html(s, i) == "<div class=\"dialogue\" style=\"--character: "@ + s.characters[k].color + "\">"@
            + "<span class=\"speaker\">"@ + escape_text(s.characters[k].name) + "</span>"@
            + "<div class=\"speech\">"@ + paragraphs_html(s.blocks[i].text) + "</div></div>\n"@,
        exists|pre: Seq<char>, post: Seq<char>| render_html(s) == pre + block_html(s, i) + post,
{
    lemma_render_holds_block(s, i);
    let c = s.characters[k];
    assert(block_character(s, s.blocks[i]) == Some(c));
    assert(shown(s.blocks[i]));
    assert(block_html(s, i) == block_markup(s.blocks[i].kind, i as nat, s.blocks[i].text, Some(c)));
    let t = s.blocks[i].text;
    assert(block_html(s, i) =~= "<div class=\"dialogue\" style=\"--character: "@ + c.color + "\">"@
        + "<span class=\"speaker\">"@ + escape_text(c.name) + "</span>"@ + "<div class=\"speech\">"@
        + paragraphs_html(t) + "</div></div>\n"@);
}

/// Action blocks with a speaker in the cast name the speaker: the block's HTML is the
/// action frame in the speaker's color, the speaker label with the escaped name, then the
/// paragraphs.
#[verifier::spinoff_prover]
#[verifier::rlimit(40)]
pub proof fn law_action_names_speaker(s: StoryView, i: int, k: int)
    requires
        0 <= i < s.blocks.len(),
        s.blocks[i].kind == Kind::Action,
        !is_blank(s.blocks[i].text),
        s.blocks[i].character == Some(s.characters[k].id),
        find_character(s.characters, s.characters[k].id) == Some(k),
    ensures
        block_html(s, i) == "<div class=\"action\" style=\"--character: "@ + s.characters[k].color + "\">"@
            + "<span class=\"speaker\">"@ + escape_text(s.characters[k].name) + "</span>"@
            + paragraphs_html(s.blocks[i].text) + "</div>\n"@,
        exists|pre: Seq<char>, post: Seq<char>| render_html(s) == pre + block_html(s, i) + post,
{
    lemma_render_holds_block(s, i);
    let c = s.characters[k];
    assert(block_character(s, s.blocks[i]) == Some(c));
    assert(shown(s.blocks[i]));
    assert(block_html(s, i) == block_markup(s.blocks[i].kind, i as nat, s.blocks[i].text, Some(c)));
    assert(block_html(s, i) =~= "<div class=\"action\" style=\"--character: "@ + c.color + "\">"@
        + "<span class=\"speaker\">"@ + escape_text(c.name) + "</span>"@ + paragraphs_html(s.blocks[i].text)
        + "</div>\n"@);
}

/// Thought blocks with a speaker in the cast name the speaker: the block's HTML is the
/// thought frame in the speaker's color, the speaker label with the escaped name, the
/// "thinking" label, then the paragraphs.
#[verifier::spinoff_prover]
#[verifier::rlimit(40)]
pub proof fn law_thought_names_speaker(s: StoryView, i: int, k: int)
    requires
        0 <= i < s.blocks.len(),
        s.blocks[i].kind == Kind::Thought,
        !is_blank(s.blocks[i].text),
        s.blocks[i].character == Some(s.characters[k].id),
        find_character(s.characters, s.characters[k].id) == Some(k),
    ensures
        block_html(s, i) == "<div class=\"thought\" style=\"--character: "@ + s.characters[k].color + "\">"@
            + "<span class=\"speaker\">"@ + escape_text(s.characters[k].name) + "</span>"@
            + "<span class=\"kind-label\">thinking</span>"@ + paragraphs_html(s.blocks[i].text) + "</div>\n"@,
        exists|pre: Seq<char>, post: Seq<char>| render_html(s) == pre + block_html(s, i) + post,
{
    lemma_render_holds_block(s, i);
    let c = s.characters[k];
    assert(block_character(s, s.blocks[i]) == Some(c));
    assert(shown(s.blocks[i]));
    assert(block_html(s, i) == block_markup(s.blocks[i].kind, i as nat, s.blocks[i].text, Some(c)));
    assert(block_html(s, i) =~= "<div class=\"thought\" style=\"--character: "@ + c.color + "\">"@
        + "<span class=\"speaker\">"@ + escape_text(c.name) + "</span>"@
        + "<span class=\"kind-label\">thinking</span>"@ + paragraphs_html(s.blocks[i].text) + "</div>\n"@);
}

} // verus!
