//! Character-level helpers shared by the manuscript model, the binary format,
//! the HTML export and the text editor.
use vstd::prelude::*;
use vstd::string::*;
use vstd::utf8::{char_is_scalar, encode_scalar, encode_utf8};

verus! {

broadcast use vstd::seq_lib::group_seq_properties;

/// Unicode `White_Space`, the property that `char::is_whitespace` reports.
pub open spec fn is_ws(c: char) -> bool {
    ||| '\u{9}' <= c <= '\u{d}'
    ||| c == ' '
    ||| c == '\u{85}'
    ||| c == '\u{a0}'
    ||| c == '\u{1680}'
    ||| '\u{2000}' <= c <= '\u{200a}'
    ||| c == '\u{2028}'
    ||| c == '\u{2029}'
    ||| c == '\u{202f}'
    ||| c == '\u{205f}'
    ||| c == '\u{3000}'
}

/// Whether a character is Unicode whitespace.
pub fn is_whitespace(c: char) -> (r: bool)
    ensures
        r == is_ws(c),
{
    ('\u{9}' <= c && c <= '\u{d}') || c == ' ' || c == '\u{85}' || c == '\u{a0}' || c
        == '\u{1680}' || ('\u{2000}' <= c && c <= '\u{200a}') || c == '\u{2028}' || c
        == '\u{2029}' || c == '\u{202f}' || c == '\u{205f}' || c == '\u{3000}'
}

/// General category `Cc`, the property that `char::is_control` reports.
pub open spec fn is_ctrl(c: char) -> bool {
    c <= '\u{1f}' || ('\u{7f}' <= c <= '\u{9f}')
}

/// Whether a character is a control character.
pub fn is_control(c: char) -> (r: bool)
    ensures
        r == is_ctrl(c),
{
    c <= '\u{1f}' || ('\u{7f}' <= c && c <= '\u{9f}')
}

/// An ASCII hexadecimal digit.
pub open spec fn is_hex(c: char) -> bool {
    ('0' <= c <= '9') || ('a' <= c <= 'f') || ('A' <= c <= 'F')
}

/// Every character is whitespace (so trimming leaves nothing).
pub open spec fn is_blank(s: Seq<char>) -> bool {
    forall|i: int| 0 <= i < s.len() ==> is_ws(#[trigger] s[i])
}

/// The number of bytes of the UTF-8 encoding of a character sequence.
pub open spec fn byte_len(s: Seq<char>) -> nat {
    encode_utf8(s).len()
}

/// The length of the text in bytes: the number of bytes of its UTF-8 encoding, which for
/// a text held in memory fits in a `usize`.
pub(crate) fn utf8_size(s: &str) -> (r: usize)
    ensures
        r == byte_len(s@),
{
    let bytes = s.as_bytes();
    proof {
        vstd::slice::axiom_spec_len(bytes);
    }
    bytes.len()
}

/// The characters of a string slice, in order.
pub fn chars_of(s: &str) -> (r: Vec<char>)
    ensures
        r@ == s@,
{
    let mut r: Vec<char> = Vec::new();
    for c in it: s.chars()
        invariant
            r@ == it.seq().take(it.index() as int),
            it.seq() == s@,
    {
        r.push(c);
    }
    r
}

/// Appends one character (`String::push`).
#[verifier::external_body]
pub(crate) fn push_char(s: &mut String, c: char)
    ensures
        final(s)@ == old(s)@.push(c),
{
    s.push(c);
}

/// Appends a string slice.
pub fn push_str(s: &mut String, t: &str)
    ensures
        final(s)@ == old(s)@ + t@,
{
    s.append(t);
}

/// Builds a string from a slice of characters.
pub fn string_from(cs: &[char]) -> (r: String)
    ensures
        r@ == cs@,
{
    let mut r = String::new();
    let mut i: usize = 0;
    while i < cs.len()
        invariant
            i <= cs@.len(),
            r@ == cs@.take(i as int),
        decreases cs@.len() - i,
    {
        push_char(&mut r, cs[i]);
        i += 1;
        assert(r@ =~= cs@.take(i as int));
    }
    assert(cs@.take(cs@.len() as int) =~= cs@);
    r
}

/// Builds a string from a character sequence range `[from, to)` of a slice.
pub fn string_from_range(cs: &[char], from: usize, to: usize) -> (r: String)
    requires
        from <= to <= cs@.len(),
    ensures
        r@ == cs@.subrange(from as int, to as int),
{
    let mut r = String::new();
    let mut i: usize = from;
    while i < to
        invariant
            from <= i <= to <= cs@.len(),
            r@ == cs@.subrange(from as int, i as int),
        decreases to - i,
    {
        push_char(&mut r, cs[i]);
        i += 1;
        assert(r@ =~= cs@.subrange(from as int, i as int));
    }
    r
}

/// Whether a string holds only whitespace (`s.trim().is_empty()`).
pub fn blank(s: &str) -> (r: bool)
    ensures
        r == is_blank(s@),
{
    let cs = chars_of(s);
    let mut i: usize = 0;
    while i < cs.len()
        invariant
            i <= cs@.len(),
            cs@ == s@,
            forall|j: int| 0 <= j < i ==> is_ws(#[trigger] cs@[j]),
        decreases cs@.len() - i,
    {
        if !is_whitespace(cs[i]) {
            return false;
        }
        i += 1;
    }
    true
}

/// The decimal digits of a natural number.
pub open spec fn decimal(n: nat) -> Seq<char>
    decreases n,
{
    if n < 10 {
        seq![digit_char(n)]
    } else {
        decimal(n / 10).push(digit_char(n % 10))
    }
}

/// The ASCII digit for a value below ten.
pub open spec fn digit_char(d: nat) -> char {
    if d == 0 { '0' }
    else if d == 1 { '1' }
    else if d == 2 { '2' }
    else if d == 3 { '3' }
    else if d == 4 { '4' }
    else if d == 5 { '5' }
    else if d == 6 { '6' }
    else if d == 7 { '7' }
    else if d == 8 { '8' }
    else { '9' }
}

fn digit(d: u64) -> (r: char)
    requires
        d < 10,
    ensures
        r == digit_char(d as nat),
{
    if d == 0 { '0' }
    else if d == 1 { '1' }
    else if d == 2 { '2' }
    else if d == 3 { '3' }
    else if d == 4 { '4' }
    else if d == 5 { '5' }
    else if d == 6 { '6' }
    else if d == 7 { '7' }
    else if d == 8 { '8' }
    else { '9' }
}

/// Appends the decimal representation of a number.
pub fn push_decimal(s: &mut String, n: u64)
    ensures
        final(s)@ == old(s)@ + decimal(n as nat),
    decreases n,
{
    if n < 10 {
        push_char(s, digit(n));
        assert(decimal(n as nat) =~= seq![digit_char(n as nat)]);
    } else {
        push_decimal(s, n / 10);
        push_char(s, digit(n % 10));
    }
}

/// Whether two strings hold the same characters.
pub fn same_text(a: &String, b: &String) -> (r: bool)
    ensures
        r == (a@ == b@),
{
    *a == *b
}

/// The number of UTF-8 bytes of a character.
pub open spec fn utf8_len(c: char) -> nat {
    encode_scalar(c as u32).len()
}

/// The number of UTF-8 bytes of a character (`char::len_utf8`).
pub fn char_len(c: char) -> (r: usize)
    ensures
        r == utf8_len(c),
        1 <= r <= 4,
{
    proof {
        char_is_scalar(c);
    }
    let v = c as u32;
    if v <= 0x7f {
        1
    } else if v <= 0x7ff {
        2
    } else if v <= 0xffff {
        3
    } else {
        4
    }
}

/// Encoding a concatenation concatenates the encodings.
pub proof fn lemma_encode_concat(a: Seq<char>, b: Seq<char>)
    ensures
        encode_utf8(a + b) == encode_utf8(a) + encode_utf8(b),
    decreases a.len(),
{
    if a.len() == 0 {
        assert(a + b =~= b);
        assert(encode_utf8(a) =~= Seq::<u8>::empty());
        assert(Seq::<u8>::empty() + encode_utf8(b) =~= encode_utf8(b));
    } else {
        assert((a + b).drop_first() =~= a.drop_first() + b);
        assert((a + b)[0] == a[0]);
        lemma_encode_concat(a.drop_first(), b);
        assert(encode_utf8(a + b) =~= encode_utf8(a) + encode_utf8(b));
    }
}

/// The byte length of a sequence with one more character.
pub proof fn lemma_byte_len_push(s: Seq<char>, c: char)
    ensures
        byte_len(s.push(c)) == byte_len(s) + utf8_len(c),
{
    lemma_encode_concat(s, seq![c]);
    assert(s.push(c) =~= s + seq![c]);
    assert(seq![c].drop_first() =~= Seq::<char>::empty());
    assert(encode_utf8(seq![c]) == encode_scalar(c as u32) + encode_utf8(Seq::<char>::empty()));
    assert(encode_utf8(seq![c]) =~= encode_scalar(c as u32));
}

/// The byte length of a concatenation.
pub proof fn lemma_byte_len_concat(a: Seq<char>, b: Seq<char>)
    ensures
        byte_len(a + b) == byte_len(a) + byte_len(b),
{
    lemma_encode_concat(a, b);
}

/// Every character takes at least one byte, so longer prefixes take more bytes.
pub proof fn lemma_byte_len_prefix(s: Seq<char>, p: int, q: int)
    requires
        0 <= p <= q <= s.len(),
    ensures
        byte_len(s.take(p)) + (q - p) <= byte_len(s.take(q)),
    decreases q - p,
{
    if p < q {
        lemma_byte_len_prefix(s, p, q - 1);
        assert(s.take(q) =~= s.take(q - 1).push(s[q - 1]));
        lemma_byte_len_push(s.take(q - 1), s[q - 1]);
        char_is_scalar(s[q - 1]);
    }
}

/// The character count of a sequence never exceeds its byte length.
pub proof fn lemma_len_le_byte_len(s: Seq<char>)
    ensures
        s.len() <= byte_len(s),
{
    lemma_byte_len_prefix(s, 0, s.len() as int);
    assert(s.take(s.len() as int) =~= s);
}

/// A byte offset that falls between characters: the byte length of some prefix.
pub open spec fn on_boundary(s: Seq<char>, b: int) -> bool {
    exists|p: int| 0 <= p <= s.len() && byte_len(#[trigger] s.take(p)) == b
}

/// The number of characters before a byte offset that falls between characters.
pub open spec fn char_index(s: Seq<char>, b: int) -> int {
    choose|p: int| 0 <= p <= s.len() && byte_len(#[trigger] s.take(p)) == b
}

/// Distinct prefixes have distinct byte lengths.
pub proof fn lemma_char_index(s: Seq<char>, p: int)
    requires
        0 <= p <= s.len(),
    ensures
        on_boundary(s, byte_len(s.take(p)) as int),
        char_index(s, byte_len(s.take(p)) as int) == p,
{
    let b = byte_len(s.take(p)) as int;
    assert(on_boundary(s, b));
    let q = char_index(s, b);
    if q < p {
        lemma_byte_len_prefix(s, q, p);
    } else if q > p {
        lemma_byte_len_prefix(s, p, q);
    }
}

/// Finds the character position of a byte offset between characters.
pub fn char_position(cs: &Vec<char>, b: usize) -> (r: usize)
    requires
        on_boundary(cs@, b as int),
    ensures
        r as int == char_index(cs@, b as int),
        r <= cs@.len(),
        byte_len(cs@.take(r as int)) == b,
{
    let ghost p = char_index(cs@, b as int);
    proof {
        lemma_char_index(cs@, p);
    }
    let mut i: usize = 0;
    let mut acc: usize = 0;
    let _n = cs.len();
    assert(cs@.take(0) =~= Seq::<char>::empty());
    while acc < b
        invariant
            cs@.len() <= usize::MAX,
            0 <= p <= cs@.len(),
            byte_len(cs@.take(p)) == b,
            i <= p,
            acc == byte_len(cs@.take(i as int)),
        decreases b - acc,
    {
        proof {
            if i == p {
                assert(false);
            }
            lemma_byte_len_prefix(cs@, i as int, p);
            lemma_byte_len_push(cs@.take(i as int), cs@[i as int]);
            assert(cs@.take(i + 1) =~= cs@.take(i as int).push(cs@[i as int]));
            lemma_byte_len_prefix(cs@, i + 1, p);
        }
        acc = acc + char_len(cs[i]);
        i = i + 1;
    }
    proof {
        if i < p {
            lemma_byte_len_prefix(cs@, i as int, p);
            lemma_byte_len_prefix(cs@, i + 1, p);
            lemma_byte_len_push(cs@.take(i as int), cs@[i as int]);
            assert(cs@.take(i + 1) =~= cs@.take(i as int).push(cs@[i as int]));
            char_is_scalar(cs@[i as int]);
        }
    }
    i
}

/// The byte length of the first `n` characters.
pub fn prefix_bytes(cs: &Vec<char>, n: usize) -> (r: usize)
    requires
        n <= cs@.len(),
        byte_len(cs@) <= usize::MAX,
    ensures
        r == byte_len(cs@.take(n as int)),
{
    let mut i: usize = 0;
    let mut acc: usize = 0;
    assert(cs@.take(0) =~= Seq::<char>::empty());
    while i < n
        invariant
            i <= n <= cs@.len(),
            byte_len(cs@) <= usize::MAX,
            acc == byte_len(cs@.take(i as int)),
        decreases n - i,
    {
        proof {
            lemma_byte_len_push(cs@.take(i as int), cs@[i as int]);
            assert(cs@.take(i + 1) =~= cs@.take(i as int).push(cs@[i as int]));
            lemma_byte_len_prefix(cs@, i + 1, cs@.len() as int);
            assert(cs@.take(cs@.len() as int) =~= cs@);
        }
        acc = acc + char_len(cs[i]);
        i = i + 1;
    }
    acc
}

/// The text without leading whitespace.
pub open spec fn trim_start(s: Seq<char>) -> Seq<char>
    decreases s.len(),
{
    if s.len() > 0 && is_ws(s[0]) {
        trim_start(s.skip(1))
    } else {
        s
    }
}

/// The text without trailing whitespace.
pub open spec fn trim_end(s: Seq<char>) -> Seq<char>
    decreases s.len(),
{
    if s.len() > 0 && is_ws(s.last()) {
        trim_end(s.drop_last())
    } else {
        s
    }
}

/// The text without leading and trailing whitespace (`str::trim`).
pub open spec fn trim(s: Seq<char>) -> Seq<char> {
    trim_end(trim_start(s))
}

/// The text without leading and trailing whitespace.
pub fn trimmed(s: &str) -> (r: String)
    ensures
        r@ == trim(s@),
{
    let cs = chars_of(s);
    let n = cs.len();
    let mut a: usize = 0;
    while a < n && is_whitespace(cs[a])
        invariant
            a <= n == cs@.len(),
            cs@ == s@,
            trim_start(s@) == trim_start(cs@.skip(a as int)),
        decreases n - a,
    {
        assert(cs@.skip(a as int).skip(1) =~= cs@.skip(a + 1));
        a += 1;
    }
    let mut b: usize = n;
    assert(cs@.skip(a as int) =~= cs@.subrange(a as int, n as int));
    while b > a && is_whitespace(cs[b - 1])
        invariant
            a <= b <= n == cs@.len(),
            cs@ == s@,
            trim_start(s@) == cs@.subrange(a as int, n as int),
            trim(s@) == trim_end(cs@.subrange(a as int, b as int)),
        decreases b,
    {
        assert(cs@.subrange(a as int, b as int).drop_last() =~= cs@.subrange(a as int, b - 1));
        b -= 1;
    }
    string_from_range(cs.as_slice(), a, b)
}

} // verus!
