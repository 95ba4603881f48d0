//! The versioned binary manuscript format: a signature, a version, three metadata
//! strings, the characters and the blocks; all integers little-endian, strings as a
//! `u32` byte length followed by UTF-8.
use vstd::prelude::*;
use vstd::string::*;
use vstd::slice::slice_subrange;
use vstd::utf8::{decode_utf8, encode_utf8, valid_utf8, encode_utf8_valid_utf8, encode_utf8_decode_utf8};
use crate::text::{decimal, push_decimal};
use crate::story::{
    BlockView, Character, CharacterView, Kind, Story, StoryBlock, StoryView, story_error,
    valid_story,
};

verus! {

broadcast use vstd::seq_lib::group_seq_properties;

// ---------------------------------------------------------------------------------------
// Wire layout
// ---------------------------------------------------------------------------------------

/// The eight-byte signature `PLAYRITE`.
pub open spec fn magic() -> Seq<u8> {
    seq![0x50u8, 0x4cu8, 0x41u8, 0x59u8, 0x52u8, 0x49u8, 0x54u8, 0x45u8]
}

/// A `u32` in little-endian order.
pub open spec fn le32(v: u32) -> Seq<u8> {
    seq![(v & 0xff) as u8, ((v >> 8) & 0xff) as u8, ((v >> 16) & 0xff) as u8, ((v >> 24) & 0xff) as u8]
}

/// A `u64` in little-endian order.
pub open spec fn le64(v: u64) -> Seq<u8> {
    seq![
        (v & 0xff) as u8,
        ((v >> 8) & 0xff) as u8,
        ((v >> 16) & 0xff) as u8,
        ((v >> 24) & 0xff) as u8,
        ((v >> 32) & 0xff) as u8,
        ((v >> 40) & 0xff) as u8,
        ((v >> 48) & 0xff) as u8,
        ((v >> 56) & 0xff) as u8,
    ]
}

/// The `u32` that four little-endian bytes hold.
pub open spec fn u32_of(b: Seq<u8>) -> u32 {
    (b[0] as u32) | ((b[1] as u32) << 8) | ((b[2] as u32) << 16) | ((b[3] as u32) << 24)
}

/// The `u64` that eight little-endian bytes hold.
pub open spec fn u64_of(b: Seq<u8>) -> u64 {
    (b[0] as u64) | ((b[1] as u64) << 8) | ((b[2] as u64) << 16) | ((b[3] as u64) << 24) | ((
    b[4] as u64) << 32) | ((b[5] as u64) << 40) | ((b[6] as u64) << 48) | ((b[7] as u64) << 56)
}

/// A string: its UTF-8 byte length, then its UTF-8 bytes.
pub open spec fn enc_string(s: Seq<char>) -> Seq<u8> {
    le32(encode_utf8(s).len() as u32) + encode_utf8(s)
}

/// A character record.
pub open spec fn enc_character(c: CharacterView) -> Seq<u8> {
    le64(c.id) + (enc_string(c.name) + (enc_string(c.description) + enc_string(c.color)))
}

/// The tag of each block type; part of the format contract.
pub open spec fn kind_tag(k: Kind) -> u8 {
    match k {
        Kind::Narration => 0,
        Kind::Dialogue => 1,
        Kind::Action => 2,
        Kind::Thought => 3,
        Kind::Quote => 4,
        Kind::Scene => 5,
        Kind::Divider => 6,
        Kind::Note => 7,
    }
}

/// The block type of a tag, for tags below eight.
pub open spec fn tag_kind(t: u8) -> Kind {
    if t == 0 { Kind::Narration }
    else if t == 1 { Kind::Dialogue }
    else if t == 2 { Kind::Action }
    else if t == 3 { Kind::Thought }
    else if t == 4 { Kind::Quote }
    else if t == 5 { Kind::Scene }
    else if t == 6 { Kind::Divider }
    else { Kind::Note }
}

/// A block's character reference: `0`, or `1` followed by the ID.
pub open spec fn enc_reference(r: Option<u64>) -> Seq<u8> {
    match r {
        None => seq![0u8],
        Some(id) => seq![1u8] + le64(id),
    }
}

/// A block record.
pub open spec fn enc_block(b: BlockView) -> Seq<u8> {
    seq![kind_tag(b.kind)] + (enc_reference(b.character) + enc_string(b.text))
}

/// Character records, in order.
pub open spec fn enc_characters(cs: Seq<CharacterView>) -> Seq<u8>
    decreases cs.len(),
{
    if cs.len() == 0 {
        Seq::empty()
    } else {
        enc_character(cs[0]) + enc_characters(cs.drop_first())
    }
}

/// Block records, in order.
pub open spec fn enc_blocks(bs: Seq<BlockView>) -> Seq<u8>
    decreases bs.len(),
{
    if bs.len() == 0 {
        Seq::empty()
    } else {
        enc_block(bs[0]) + enc_blocks(bs.drop_first())
    }
}

/// The complete file for a story.
pub open spec fn story_bytes(s: StoryView) -> Seq<u8> {
    magic() + (le32(s.version) + (enc_string(s.title) + (enc_string(s.subtitle) + (enc_string(
        s.author,
    ) + (le32(s.characters.len() as u32) + (enc_characters(s.characters) + (le32(
        s.blocks.len() as u32,
    ) + enc_blocks(s.blocks))))))))
}

/// A string's UTF-8 length fits the `u32` length field.
pub open spec fn fits_string(s: Seq<char>) -> bool {
    encode_utf8(s).len() <= u32::MAX
}

/// Every length and count of a story fits its `u32` field.
pub open spec fn fits(s: StoryView) -> bool {
    &&& fits_string(s.title)
    &&& fits_string(s.subtitle)
    &&& fits_string(s.author)
    &&& s.characters.len() <= u32::MAX
    &&& characters_fit(s.characters)
    &&& s.blocks.len() <= u32::MAX
    &&& blocks_fit(s.blocks)
}

/// The message for a story too large for the format.
pub open spec fn size_message() -> Seq<char> {
    "Manuscript exceeds the format's size limits"@
}

/// What `encode` returns for a story.
pub open spec fn spec_encode(s: StoryView) -> Result<Seq<u8>, Seq<char>> {
    if !valid_story(s) {
        Err(story_error(s)->0)
    } else if !fits(s) {
        Err(size_message())
    } else {
        Ok(story_bytes(s))
    }
}

// ---------------------------------------------------------------------------------------
// Reading
// ---------------------------------------------------------------------------------------

/// The message for input that ends inside a field.
pub open spec fn truncated() -> Seq<char> {
    "Truncated Playrite manuscript"@
}

/// A parse step: the value read and the bytes after it, or the reason for failing.
pub type Parsed<T> = Result<(T, Seq<u8>), Seq<char>>;

/// Reads one byte.
#[verifier::opaque]
pub open spec fn read_byte(b: Seq<u8>) -> Parsed<u8> {
    if b.len() < 1 { Err(truncated()) } else { Ok((b[0], b.skip(1))) }
}

/// Reads a little-endian `u32`.
#[verifier::opaque]
pub open spec fn read_u32(b: Seq<u8>) -> Parsed<u32> {
    if b.len() < 4 { Err(truncated()) } else { Ok((u32_of(b.take(4)), b.skip(4))) }
}

/// Reads a little-endian `u64`.
#[verifier::opaque]
pub open spec fn read_u64(b: Seq<u8>) -> Parsed<u64> {
    if b.len() < 8 { Err(truncated()) } else { Ok((u64_of(b.take(8)), b.skip(8))) }
}

/// Reads a length-prefixed UTF-8 string.
#[verifier::opaque]
pub open spec fn read_string(b: Seq<u8>) -> Parsed<Seq<char>> {
    match read_u32(b) {
        Err(e) => Err(e),
        Ok((n, r)) => if r.len() < n {
            Err(truncated())
        } else if !valid_utf8(r.take(n as int)) {
            Err("Invalid UTF-8 in Playrite manuscript"@)
        } else {
            Ok((decode_utf8(r.take(n as int)), r.skip(n as int)))
        },
    }
}

/// Reads a character record.
#[verifier::opaque]
pub open spec fn read_character(b: Seq<u8>) -> Parsed<CharacterView> {
    match read_u64(b) {
        Err(e) => Err(e),
        Ok((id, r1)) => match read_string(r1) {
            Err(e) => Err(e),
            Ok((name, r2)) => match read_string(r2) {
                Err(e) => Err(e),
                Ok((description, r3)) => match read_string(r3) {
                    Err(e) => Err(e),
                    Ok((color, r4)) => Ok((CharacterView { id, name, description, color }, r4)),
                },
            },
        },
    }
}

/// Reads `n` character records.
pub open spec fn read_characters(b: Seq<u8>, n: nat) -> Parsed<Seq<CharacterView>>
    decreases n,
{
    if n == 0 {
        Ok((Seq::empty(), b))
    } else {
        match read_character(b) {
            Err(e) => Err(e),
            Ok((c, r)) => match read_characters(r, (n - 1) as nat) {
                Err(e) => Err(e),
                Ok((cs, r2)) => Ok((seq![c] + cs, r2)),
            },
        }
    }
}

/// Reads a block's character reference.
#[verifier::opaque]
pub open spec fn read_reference(b: Seq<u8>) -> Parsed<Option<u64>> {
    match read_byte(b) {
        Err(e) => Err(e),
        Ok((t, r)) => if t == 0 {
            Ok((None, r))
        } else if t == 1 {
            match read_u64(r) {
                Err(e) => Err(e),
                Ok((id, r2)) => Ok((Some(id), r2)),
            }
        } else {
            Err("Invalid character reference tag: "@ + decimal(t as nat))
        },
    }
}

/// Reads a block record.
#[verifier::opaque]
pub open spec fn read_block(b: Seq<u8>) -> Parsed<BlockView> {
    match read_byte(b) {
        Err(e) => Err(e),
        Ok((t, r1)) => if t > 7 {
            Err("Unknown block type: "@ + decimal(t as nat))
        } else {
            match read_reference(r1) {
                Err(e) => Err(e),
                Ok((character, r2)) => match read_string(r2) {
                    Err(e) => Err(e),
                    Ok((text, r3)) => Ok((BlockView { kind: tag_kind(t), character, text }, r3)),
                },
            }
        },
    }
}

/// Reads `n` block records.
pub open spec fn read_blocks(b: Seq<u8>, n: nat) -> Parsed<Seq<BlockView>>
    decreases n,
{
    if n == 0 {
        Ok((Seq::empty(), b))
    } else {
        match read_block(b) {
            Err(e) => Err(e),
            Ok((x, r)) => match read_blocks(r, (n - 1) as nat) {
                Err(e) => Err(e),
                Ok((xs, r2)) => Ok((seq![x] + xs, r2)),
            },
        }
    }
}

/// The message for a file without the signature.
pub open spec fn signature_message() -> Seq<char> {
    "Not a Playrite manuscript (missing PLAYRITE signature)"@
}

/// Reads the header, metadata, characters and blocks of a file.
pub open spec fn read_story(b: Seq<u8>) -> Parsed<StoryView> {
    if b.len() < 8 {
        Err(truncated())
    } else if b.take(8) != magic() {
        Err(signature_message())
    } else {
        match read_u32(b.skip(8)) {
            Err(e) => Err(e),
            Ok((version, r1)) => if version != 1 {
                Err("Unsupported story version: "@ + decimal(version as nat))
            } else {
                match read_string(r1) {
                    Err(e) => Err(e),
                    Ok((title, r2)) => match read_string(r2) {
                        Err(e) => Err(e),
                        Ok((subtitle, r3)) => match read_string(r3) {
                            Err(e) => Err(e),
                            Ok((author, r4)) => match read_u32(r4) {
                                Err(e) => Err(e),
                                Ok((nc, r5)) => match read_characters(r5, nc as nat) {
                                    Err(e) => Err(e),
                                    Ok((characters, r6)) => match read_u32(r6) {
                                        Err(e) => Err(e),
                                        Ok((nb, r7)) => match read_blocks(r7, nb as nat) {
                                            Err(e) => Err(e),
                                            Ok((blocks, r8)) => Ok((
                                                StoryView {
                                                    version,
                                                    title,
                                                    subtitle,
                                                    author,
                                                    characters,
                                                    blocks,
                                                },
                                                r8,
                                            )),
                                        },
                                    },
                                },
                            },
                        },
                    },
                }
            },
        }
    }
}

/// ASCII whitespace as `u8::is_ascii_whitespace` defines it.
pub open spec fn ascii_ws(b: u8) -> bool {
    b == 0x20 || b == 0x09 || b == 0x0a || b == 0x0c || b == 0x0d
}

/// The first byte that is not ASCII whitespace is `{`: a legacy JSON manuscript,
/// which the JSON reader handles rather than this decoder.
pub open spec fn legacy_json(b: Seq<u8>) -> bool {
    exists|i: int|
        0 <= i < b.len() && b[i] == 0x7b && forall|j: int| 0 <= j < i ==> ascii_ws(#[trigger] b[j])
}

/// The message `decode` gives for a legacy JSON manuscript.
pub open spec fn legacy_message() -> Seq<char> {
    "Legacy JSON manuscript: read it with the JSON reader"@
}

/// The message for bytes after the last block.
pub open spec fn trailing_message() -> Seq<char> {
    "Unexpected trailing data in Playrite manuscript"@
}

/// What `decode` returns for a byte sequence.
pub open spec fn spec_decode(b: Seq<u8>) -> Result<StoryView, Seq<char>> {
    if legacy_json(b) {
        Err(legacy_message())
    } else {
        match read_story(b) {
            Err(e) => Err(e),
            Ok((s, rest)) => if rest.len() > 0 {
                Err(trailing_message())
            } else if !valid_story(s) {
                Err(story_error(s)->0)
            } else {
                Ok(s)
            },
        }
    }
}

// ---------------------------------------------------------------------------------------
// Writing
// ---------------------------------------------------------------------------------------

fn push_u32(bytes: &mut Vec<u8>, v: u32)
    ensures
        final(bytes)@ == old(bytes)@ + le32(v),
{
    bytes.push((v & 0xff) as u8);
    bytes.push(((v >> 8) & 0xff) as u8);
    bytes.push(((v >> 16) & 0xff) as u8);
    bytes.push(((v >> 24) & 0xff) as u8);
    assert(final(bytes)@ =~= old(bytes)@ + le32(v));
}

fn push_u64(bytes: &mut Vec<u8>, v: u64)
    ensures
        final(bytes)@ == old(bytes)@ + le64(v),
{
    bytes.push((v & 0xff) as u8);
    bytes.push(((v >> 8) & 0xff) as u8);
    bytes.push(((v >> 16) & 0xff) as u8);
    bytes.push(((v >> 24) & 0xff) as u8);
    bytes.push(((v >> 32) & 0xff) as u8);
    bytes.push(((v >> 40) & 0xff) as u8);
    bytes.push(((v >> 48) & 0xff) as u8);
    bytes.push(((v >> 56) & 0xff) as u8);
    assert(final(bytes)@ =~= old(bytes)@ + le64(v));
}

fn push_bytes(bytes: &mut Vec<u8>, more: &[u8])
    ensures
        final(bytes)@ == old(bytes)@ + more@,
{
    let mut i: usize = 0;
    while i < more.len()
        invariant
            i <= more@.len(),
            bytes@ == old(bytes)@ + more@.take(i as int),
        decreases more@.len() - i,
    {
        bytes.push(more[i]);
        i += 1;
        assert(bytes@ =~= old(bytes)@ + more@.take(i as int));
    }
    assert(more@.take(more@.len() as int) =~= more@);
}

/// Writes a length field, refusing values beyond the format's `u32` limit.
fn length(bytes: &mut Vec<u8>, value: usize) -> (r: Result<(), String>)
    ensures
        r is Ok <==> value <= u32::MAX,
        r matches Err(e) ==> e@ == size_message() && final(bytes)@ == old(bytes)@,
        r is Ok ==> final(bytes)@ == old(bytes)@ + le32(value as u32),
{
    if value > 0xffff_ffffusize {
        return Err(String::from_str("Manuscript exceeds the format's size limits"));
    }
    push_u32(bytes, value as u32);
    Ok(())
}

/// Writes a string field.
fn string(bytes: &mut Vec<u8>, value: &str) -> (r: Result<(), String>)
    ensures
        r is Ok <==> fits_string(value@),
        r matches Err(e) ==> e@ == size_message(),
        r is Ok ==> final(bytes)@ == old(bytes)@ + enc_string(value@),
{
    let raw = value.as_bytes();
    length(bytes, raw.len())?;
    push_bytes(bytes, raw);
    assert(bytes@ =~= old(bytes)@ + enc_string(value@));
    Ok(())
}

fn tag(k: Kind) -> (r: u8)
    ensures
        r == kind_tag(k),
{
    match k {
        Kind::Narration => 0,
        Kind::Dialogue => 1,
        Kind::Action => 2,
        Kind::Thought => 3,
        Kind::Quote => 4,
        Kind::Scene => 5,
        Kind::Divider => 6,
        Kind::Note => 7,
    }
}

/// The strings of every character fit the format's length fields.
pub open spec fn characters_fit(cs: Seq<CharacterView>) -> bool {
    forall|k: int|
        0 <= k < cs.len() ==> fits_string((#[trigger] cs[k]).name) && fits_string(cs[k].description)
            && fits_string(cs[k].color)
}

/// The text of every block fits the format's length field.
pub open spec fn blocks_fit(bs: Seq<BlockView>) -> bool {
    forall|k: int| 0 <= k < bs.len() ==> fits_string((#[trigger] bs[k]).text)
}

/// Writes the character records; fails when a string exceeds the format's limit.
fn encode_characters(bytes: &mut Vec<u8>, characters: &Vec<Character>) -> (r: Result<(), String>)
    ensures
        r is Ok <==> characters_fit(characters@.map_values(|c: Character| c@)),
        r matches Err(e) ==> e@ == size_message(),
        r is Ok ==> final(bytes)@ == old(bytes)@ + enc_characters(
            characters@.map_values(|c: Character| c@),
        ),
{
    let ghost cs = characters@.map_values(|c: Character| c@);
    let ghost head = bytes@;
    let mut i: usize = 0;
    while i < characters.len()
        invariant
            i <= cs.len(),
            cs == characters@.map_values(|c: Character| c@),
            bytes@ == head + enc_characters(cs.take(i as int)),
            head == old(bytes)@,
            characters_fit(cs.take(i as int)),
        decreases cs.len() - i,
    {
        let c = &characters[i];
        assert(cs[i as int] == c@);
        push_u64(bytes, c.id);
        let r1 = string(bytes, c.name.as_str());
        if r1.is_err() {
            assert(!fits_string(cs[i as int].name));
            return Err(String::from_str("Manuscript exceeds the format's size limits"));
        }
        let r2 = string(bytes, c.description.as_str());
        if r2.is_err() {
            assert(!fits_string(cs[i as int].description));
            return Err(String::from_str("Manuscript exceeds the format's size limits"));
        }
        let r3 = string(bytes, c.color.as_str());
        if r3.is_err() {
            assert(!fits_string(cs[i as int].color));
            return Err(String::from_str("Manuscript exceeds the format's size limits"));
        }
        proof {
            lemma_enc_characters_push(cs.take(i as int), c@);
            assert(cs.take(i as int).push(c@) =~= cs.take(i + 1));
            assert(bytes@ =~= head + enc_characters(cs.take(i + 1)));
            assert forall|k: int| 0 <= k < i + 1 implies fits_string((#[trigger] cs.take(i + 1)[k]).name)
                && fits_string(cs.take(i + 1)[k].description) && fits_string(cs.take(i + 1)[k].color) by {
                if k < i {
                    assert(cs.take(i as int)[k] == cs.take(i + 1)[k]);
                }
            }
        }
        i += 1;
    }
    assert(cs.take(cs.len() as int) =~= cs);
    Ok(())
}

/// Writes the block records; fails when a text exceeds the format's limit.
fn encode_blocks(bytes: &mut Vec<u8>, blocks: &Vec<StoryBlock>) -> (r: Result<(), String>)
    ensures
        r is Ok <==> blocks_fit(blocks@.map_values(|b: StoryBlock| b@)),
        r matches Err(e) ==> e@ == size_message(),
        r is Ok ==> final(bytes)@ == old(bytes)@ + enc_blocks(
            blocks@.map_values(|b: StoryBlock| b@),
        ),
{
    let ghost bs = blocks@.map_values(|b: StoryBlock| b@);
    let ghost head = bytes@;
    let mut j: usize = 0;
    while j < blocks.len()
        invariant
            j <= bs.len(),
            bs == blocks@.map_values(|b: StoryBlock| b@),
            bytes@ == head + enc_blocks(bs.take(j as int)),
            head == old(bytes)@,
            blocks_fit(bs.take(j as int)),
        decreases bs.len() - j,
    {
        let b = &blocks[j];
        assert(bs[j as int] == b@);
        let ghost before = bytes@;
        bytes.push(tag(b.kind));
        match b.character {
            Some(id) => {
                bytes.push(1u8);
                push_u64(bytes, id);
            },
            None => {
                bytes.push(0u8);
            },
        }
        assert(bytes@ =~= before + seq![kind_tag(b.kind)] + enc_reference(b.character));
        let r = string(bytes, b.text.as_str());
        if r.is_err() {
            assert(!fits_string(bs[j as int].text));
            return Err(String::from_str("Manuscript exceeds the format's size limits"));
        }
        proof {
            lemma_enc_blocks_push(bs.take(j as int), b@);
            assert(bs.take(j as int).push(b@) =~= bs.take(j + 1));
            assert(bytes@ =~= head + enc_blocks(bs.take(j + 1)));
            assert forall|k: int| 0 <= k < j + 1 implies fits_string((#[trigger] bs.take(j + 1)[k]).text) by {
                if k < j {
                    assert(bs.take(j as int)[k] == bs.take(j + 1)[k]);
                }
            }
        }
        j += 1;
    }
    assert(bs.take(bs.len() as int) =~= bs);
    Ok(())
}

/// Encodes a valid story in the binary format.
pub fn encode(story: &Story) -> (r: Result<Vec<u8>, String>)
    ensures
        match spec_encode(story@) {
            Ok(b) => r matches Ok(v) && v@ == b,
            Err(e) => r matches Err(m) && m@ == e,
        },
{
    story.validate()?;
    let ghost s = story@;
    let mut bytes: Vec<u8> = Vec::new();
    bytes.push(0x50u8);
    bytes.push(0x4cu8);
    bytes.push(0x41u8);
    bytes.push(0x59u8);
    bytes.push(0x52u8);
    bytes.push(0x49u8);
    bytes.push(0x54u8);
    bytes.push(0x45u8);
    assert(bytes@ =~= magic());
    push_u32(&mut bytes, story.version);
    string(&mut bytes, story.title.as_str())?;
    string(&mut bytes, story.subtitle.as_str())?;
    string(&mut bytes, story.author.as_str())?;
    let ghost p5 = bytes@;
    length(&mut bytes, story.characters.len())?;
    encode_characters(&mut bytes, &story.characters)?;
    length(&mut bytes, story.blocks.len())?;
    encode_blocks(&mut bytes, &story.blocks)?;
    proof {
        assert(fits(s));
        lemma_story_bytes_split(s);
        assert(p5 =~= magic() + le32(s.version) + enc_string(s.title) + enc_string(s.subtitle)
            + enc_string(s.author));
    }
    Ok(bytes)
}

/// The file is the header and metadata, followed by the counted records.
proof fn lemma_story_bytes_split(s: StoryView)
    ensures
        story_bytes(s) == magic() + le32(s.version) + enc_string(s.title) + enc_string(s.subtitle)
            + enc_string(s.author) + le32(s.characters.len() as u32) + enc_characters(s.characters)
            + le32(s.blocks.len() as u32) + enc_blocks(s.blocks),
{
    let a = magic();
    let b = le32(s.version);
    let c = enc_string(s.title);
    let d = enc_string(s.subtitle);
    let e = enc_string(s.author);
    let f = le32(s.characters.len() as u32);
    let g = enc_characters(s.characters);
    let h = le32(s.blocks.len() as u32);
    let i = enc_blocks(s.blocks);
    let r8 = h + i;
    let r7 = g + r8;
    let r6 = f + r7;
    let r5 = e + r6;
    let r4 = d + r5;
    let r3 = c + r4;
    let r2 = b + r3;
    vstd::seq_lib::lemma_concat_associative(a, b, r3);
    vstd::seq_lib::lemma_concat_associative(a + b, c, r4);
    vstd::seq_lib::lemma_concat_associative(a + b + c, d, r5);
    vstd::seq_lib::lemma_concat_associative(a + b + c + d, e, r6);
    vstd::seq_lib::lemma_concat_associative(a + b + c + d + e, f, r7);
    vstd::seq_lib::lemma_concat_associative(a + b + c + d + e + f, g, r8);
    vstd::seq_lib::lemma_concat_associative(a + b + c + d + e + f + g, h, i);
}

/// `std::str::from_utf8`: the text that valid UTF-8 bytes encode, `None` for invalid UTF-8.
#[verifier::external_body]
fn utf8_text(bytes: &[u8]) -> (r: Option<String>)
    ensures
        r is Some <==> valid_utf8(bytes@),
        r matches Some(t) ==> t@ == decode_utf8(bytes@),
{
    match std::str::from_utf8(bytes) {
        Ok(t) => Some(t.to_owned()),
        Err(_) => None,
    }
}

/// A cursor over the bytes of a manuscript.
struct Reader<'a> {
    bytes: &'a [u8],
    pos: usize,
}

impl<'a> Reader<'a> {
    /// The bytes not yet read.
    spec fn rest(&self) -> Seq<u8> {
        self.bytes@.skip(self.pos as int)
    }

    spec fn wf(&self) -> bool {
        self.pos <= self.bytes@.len()
    }

    /// Consumes `length` bytes and returns where they start.
    fn take(&mut self, length: usize) -> (r: Result<usize, String>)
        requires
            old(self).wf(),
        ensures
            final(self).wf(),
            final(self).bytes == old(self).bytes,
            length <= old(self).rest().len() ==> r == Ok::<usize, String>(old(self).pos)
                && final(self).pos == old(self).pos + length,
            length > old(self).rest().len() ==> (r matches Err(e) && e@ == truncated()),
    {
        if length > self.bytes.len() - self.pos {
            return Err(String::from_str("Truncated Playrite manuscript"));
        }
        let start = self.pos;
        self.pos = self.pos + length;
        Ok(start)
    }

    fn byte(&mut self) -> (r: Result<u8, String>)
        requires
            old(self).wf(),
        ensures
            final(self).wf(),
            final(self).bytes == old(self).bytes,
            match read_byte(old(self).rest()) {
                Ok((v, rest)) => r == Ok::<u8, String>(v) && final(self).rest() == rest,
                Err(e) => r matches Err(m) && m@ == e,
            },
    {
        reveal(read_byte);
        let start = self.take(1)?;
        assert(self.rest() =~= old(self).rest().skip(1));
        Ok(self.bytes[start])
    }

    fn u32(&mut self) -> (r: Result<u32, String>)
        requires
            old(self).wf(),
        ensures
            final(self).wf(),
            final(self).bytes == old(self).bytes,
            match read_u32(old(self).rest()) {
                Ok((v, rest)) => r == Ok::<u32, String>(v) && final(self).rest() == rest,
                Err(e) => r matches Err(m) && m@ == e,
            },
    {
        reveal(read_u32);
        let i = self.take(4)?;
        let b = self.bytes;
        let v = (b[i] as u32) | ((b[i + 1] as u32) << 8) | ((b[i + 2] as u32) << 16) | ((b[i
            + 3] as u32) << 24);
        assert(self.rest() =~= old(self).rest().skip(4));
        assert(old(self).rest().take(4) =~= seq![b@[i as int], b@[i + 1], b@[i + 2], b@[i + 3]]);
        Ok(v)
    }

    fn u64(&mut self) -> (r: Result<u64, String>)
        requires
            old(self).wf(),
        ensures
            final(self).wf(),
            final(self).bytes == old(self).bytes,
            match read_u64(old(self).rest()) {
                Ok((v, rest)) => r == Ok::<u64, String>(v) && final(self).rest() == rest,
                Err(e) => r matches Err(m) && m@ == e,
            },
    {
        reveal(read_u64);
        let i = self.take(8)?;
        let b = self.bytes;
        let v = (b[i] as u64) | ((b[i + 1] as u64) << 8) | ((b[i + 2] as u64) << 16) | ((b[i
            + 3] as u64) << 24) | ((b[i + 4] as u64) << 32) | ((b[i + 5] as u64) << 40) | ((b[i
            + 6] as u64) << 48) | ((b[i + 7] as u64) << 56);
        assert(self.rest() =~= old(self).rest().skip(8));
        assert(old(self).rest().take(8) =~= seq![
            b@[i as int],
            b@[i + 1],
            b@[i + 2],
            b@[i + 3],
            b@[i + 4],
            b@[i + 5],
            b@[i + 6],
            b@[i + 7],
        ]);
        Ok(v)
    }

    fn string(&mut self) -> (r: Result<String, String>)
        requires
            old(self).wf(),
        ensures
            final(self).wf(),
            final(self).bytes == old(self).bytes,
            match read_string(old(self).rest()) {
                Ok((v, rest)) => r matches Ok(t) && t@ == v && final(self).rest() == rest,
                Err(e) => r matches Err(m) && m@ == e,
            },
    {
        reveal(read_string);
        let length = self.u32()? as usize;
        let ghost mid = self.rest();
        let start = self.take(length)?;
        let raw = slice_subrange(self.bytes, start, start + length);
        assert(raw@ =~= mid.take(length as int));
        assert(self.rest() =~= mid.skip(length as int));
        match utf8_text(raw) {
            Some(t) => Ok(t),
            None => Err(String::from_str("Invalid UTF-8 in Playrite manuscript")),
        }
    }
}

fn kind_of(t: u8) -> (r: Kind)
    ensures
        r == tag_kind(t),
{
    if t == 0 { Kind::Narration }
    else if t == 1 { Kind::Dialogue }
    else if t == 2 { Kind::Action }
    else if t == 3 { Kind::Thought }
    else if t == 4 { Kind::Quote }
    else if t == 5 { Kind::Scene }
    else if t == 6 { Kind::Divider }
    else { Kind::Note }
}

/// A parse result with some values already read placed in front.
pub open spec fn prepend<T>(acc: Seq<T>, p: Parsed<Seq<T>>) -> Parsed<Seq<T>> {
    match p {
        Ok((xs, r)) => Ok((acc + xs, r)),
        Err(e) => Err(e),
    }
}

fn read_character_record(reader: &mut Reader) -> (r: Result<Character, String>)
    requires
        old(reader).wf(),
    ensures
        final(reader).wf(),
        final(reader).bytes == old(reader).bytes,
        match read_character(old(reader).rest()) {
            Ok((v, rest)) => r matches Ok(c) && c@ == v && final(reader).rest() == rest,
            Err(e) => r matches Err(m) && m@ == e,
        },
{
    reveal(read_character);
    let id = reader.u64()?;
    let name = reader.string()?;
    let description = reader.string()?;
    let color = reader.string()?;
    Ok(Character { id, name, description, color })
}

fn read_block_record(reader: &mut Reader) -> (r: Result<StoryBlock, String>)
    requires
        old(reader).wf(),
    ensures
        final(reader).wf(),
        final(reader).bytes == old(reader).bytes,
        match read_block(old(reader).rest()) {
            Ok((v, rest)) => r matches Ok(b) && b@ == v && final(reader).rest() == rest,
            Err(e) => r matches Err(m) && m@ == e,
        },
{
    reveal(read_block);
    reveal(read_reference);
    let t = reader.byte()?;
    if t > 7 {
        let mut e = String::from_str("Unknown block type: ");
        push_decimal(&mut e, t as u64);
        return Err(e);
    }
    let kind = kind_of(t);
    let ghost r1 = reader.rest();
    let r = reader.byte()?;
    let character = if r == 0 {
        None
    } else if r == 1 {
        Some(reader.u64()?)
    } else {
        let mut e = String::from_str("Invalid character reference tag: ");
        push_decimal(&mut e, r as u64);
        return Err(e);
    };
    assert(read_reference(r1) == Ok::<(Option<u64>, Seq<u8>), Seq<char>>((character, reader.rest())));
    let text = reader.string()?;
    Ok(StoryBlock { kind, character, text })
}

fn read_character_records(reader: &mut Reader, n: u32) -> (r: Result<Vec<Character>, String>)
    requires
        old(reader).wf(),
    ensures
        final(reader).wf(),
        final(reader).bytes == old(reader).bytes,
        match read_characters(old(reader).rest(), n as nat) {
            Ok((v, rest)) => r matches Ok(cs) && cs@.map_values(|c: Character| c@) == v 
                && final(reader).rest() == rest,
            Err(e) => r matches Err(m) && m@ == e,
        },
{
    let mut characters: Vec<Character> = Vec::new();
    let mut i: u32 = 0;
    let ghost start = reader.rest();
    while i < n
        invariant
            i <= n,
            reader.wf(),
            reader.bytes == old(reader).bytes,
            start == old(reader).rest(),
            read_characters(start, n as nat) == prepend(
                characters@.map_values(|c: Character| c@),
                read_characters(reader.rest(), (n - i) as nat),
            ),
        decreases n - i,
    {
        let ghost acc = characters@.map_values(|c: Character| c@);
        let ghost here = reader.rest();
        let c = read_character_record(reader)?;
        proof {
            let rest_after = reader.rest();
            assert(read_characters(here, (n - i) as nat) == prepend(
                seq![c@],
                read_characters(rest_after, (n - i - 1) as nat),
            ));
        }
        characters.push(c);
        proof {
            let acc2 = characters@.map_values(|c: Character| c@);
            assert(acc2 =~= acc.push(c@));
            match read_characters(reader.rest(), (n - i - 1) as nat) {
                Ok((xs, r)) => {
                    assert(acc + (seq![c@] + xs) =~= acc2 + xs);
                },
                Err(e) => {},
            }
        }
        i += 1;
    }
    assert(characters@.map_values(|c: Character| c@) + Seq::<CharacterView>::empty() =~= characters@.map_values(|c: Character| c@));
    Ok(characters)
}

fn read_block_records(reader: &mut Reader, n: u32) -> (r: Result<Vec<StoryBlock>, String>)
    requires
        old(reader).wf(),
    ensures
        final(reader).wf(),
        final(reader).bytes == old(reader).bytes,
        match read_blocks(old(reader).rest(), n as nat) {
            Ok((v, rest)) => r matches Ok(bs) && bs@.map_values(|b: StoryBlock| b@) == v 
                && final(reader).rest() == rest,
            Err(e) => r matches Err(m) && m@ == e,
        },
{
    let mut blocks: Vec<StoryBlock> = Vec::new();
    let mut i: u32 = 0;
    let ghost start = reader.rest();
    while i < n
        invariant
            i <= n,
            reader.wf(),
            reader.bytes == old(reader).bytes,
            start == old(reader).rest(),
            read_blocks(start, n as nat) == prepend(
                blocks@.map_values(|b: StoryBlock| b@),
                read_blocks(reader.rest(), (n - i) as nat),
            ),
        decreases n - i,
    {
        let ghost acc = blocks@.map_values(|b: StoryBlock| b@);
        let ghost here = reader.rest();
        let b = read_block_record(reader)?;
        proof {
            let rest_after = reader.rest();
            assert(read_blocks(here, (n - i) as nat) == prepend(
                seq![b@],
                read_blocks(rest_after, (n - i - 1) as nat),
            ));
        }
        blocks.push(b);
        proof {
            let acc2 = blocks@.map_values(|b: StoryBlock| b@);
            assert(acc2 =~= acc.push(b@));
            match read_blocks(reader.rest(), (n - i - 1) as nat) {
                Ok((xs, r)) => {
                    assert(acc + (seq![b@] + xs) =~= acc2 + xs);
                },
                Err(e) => {},
            }
        }
        i += 1;
    }
    assert(blocks@.map_values(|b: StoryBlock| b@) + Seq::<BlockView>::empty() =~= blocks@.map_values(|b: StoryBlock| b@));
    Ok(blocks)
}

/// Whether the first byte that is not ASCII whitespace is `{`.
pub fn is_legacy_json(bytes: &[u8]) -> (r: bool)
    ensures
        r == legacy_json(bytes@),
{
    let mut i: usize = 0;
    while i < bytes.len()
        invariant
            i <= bytes@.len(),
            forall|j: int| 0 <= j < i ==> ascii_ws(#[trigger] bytes@[j]),
        decreases bytes@.len() - i,
    {
        let b = bytes[i];
        if !(b == 0x20 || b == 0x09 || b == 0x0a || b == 0x0c || b == 0x0d) {
            proof {
                if b != 0x7b && legacy_json(bytes@) {
                    let k = choose|k: int|
                        0 <= k < bytes@.len() && bytes@[k] == 0x7b && forall|j: int|
                            0 <= j < k ==> ascii_ws(#[trigger] bytes@[j]);
                    if k < i {
                    } else if k > i {
                        assert(ascii_ws(bytes@[i as int]));
                    }
                }
            }
            return b == 0x7b;
        }
        i += 1;
    }
    false
}

/// Decodes a binary manuscript: the signature, version 1, the metadata, the characters
/// and the blocks, with no bytes left over, forming a valid story.
pub fn decode(bytes: &[u8]) -> (r: Result<Story, String>)
    ensures
        match spec_decode(bytes@) {
            Ok(s) => r matches Ok(t) && t@ == s,
            Err(e) => r matches Err(m) && m@ == e,
        },
{
    if is_legacy_json(bytes) {
        return Err(String::from_str("Legacy JSON manuscript: read it with the JSON reader"));
    }
    let mut reader = Reader { bytes, pos: 0 };
    assert(reader.rest() =~= bytes@);
    let start = reader.take(8)?;
    let b = bytes;
    if !(b[0] == 0x50 && b[1] == 0x4c && b[2] == 0x41 && b[3] == 0x59 && b[4] == 0x52 && b[5]
        == 0x49 && b[6] == 0x54 && b[7] == 0x45) {
        proof {
            assert(bytes@.take(8) != magic()) by {
                if bytes@.take(8) == magic() {
                    assert(bytes@.take(8)[0] == magic()[0]);
                    assert(bytes@.take(8)[1] == magic()[1]);
                    assert(bytes@.take(8)[2] == magic()[2]);
                    assert(bytes@.take(8)[3] == magic()[3]);
                    assert(bytes@.take(8)[4] == magic()[4]);
                    assert(bytes@.take(8)[5] == magic()[5]);
                    assert(bytes@.take(8)[6] == magic()[6]);
                    assert(bytes@.take(8)[7] == magic()[7]);
                }
            }
        }
        return Err(String::from_str("Not a Playrite manuscript (missing PLAYRITE signature)"));
    }
    assert(bytes@.take(8) =~= magic());
    assert(reader.rest() =~= bytes@.skip(8));
    let version = reader.u32()?;
    if version != 1 {
        let mut e = String::from_str("Unsupported story version: ");
        push_decimal(&mut e, version as u64);
        return Err(e);
    }
    let title = reader.string()?;
    let subtitle = reader.string()?;
    let author = reader.string()?;
    let nc = reader.u32()?;
    let characters = read_character_records(&mut reader, nc)?;
    let nb = reader.u32()?;
    let blocks = read_block_records(&mut reader, nb)?;
    if reader.pos < bytes.len() {
        return Err(String::from_str("Unexpected trailing data in Playrite manuscript"));
    }
    let story = Story { version, title, subtitle, author, characters, blocks };
    story.validate()?;
    Ok(story)
}

/// Appending a character appends its record.
pub proof fn lemma_enc_characters_push(cs: Seq<CharacterView>, c: CharacterView)
    ensures
        enc_characters(cs.push(c)) =~= enc_characters(cs) + enc_character(c),
    decreases cs.len(),
{
    if cs.len() == 0 {
        assert(cs.push(c).drop_first() =~= Seq::<CharacterView>::empty());
    } else {
        assert(cs.push(c).drop_first() =~= cs.drop_first().push(c));
        lemma_enc_characters_push(cs.drop_first(), c);
    }
}

/// Appending a block appends its record.
pub proof fn lemma_enc_blocks_push(bs: Seq<BlockView>, b: BlockView)
    ensures
        enc_blocks(bs.push(b)) =~= enc_blocks(bs) + enc_block(b),
    decreases bs.len(),
{
    if bs.len() == 0 {
        assert(bs.push(b).drop_first() =~= Seq::<BlockView>::empty());
    } else {
        assert(bs.push(b).drop_first() =~= bs.drop_first().push(b));
        lemma_enc_blocks_push(bs.drop_first(), b);
    }
}

// ---------------------------------------------------------------------------------------
// Laws of the format
// ---------------------------------------------------------------------------------------

proof fn lemma_le32(v: u32)
    ensures
        u32_of(le32(v)) == v,
{
    assert(((v & 0xff) as u8 as u32) | ((((v >> 8) & 0xff) as u8 as u32) << 8) | ((((v >> 16)
        & 0xff) as u8 as u32) << 16) | ((((v >> 24) & 0xff) as u8 as u32) << 24) == v)
        by (bit_vector);
}

proof fn lemma_le64(v: u64)
    ensures
        u64_of(le64(v)) == v,
{
    assert(((v & 0xff) as u8 as u64) | ((((v >> 8) & 0xff) as u8 as u64) << 8) | ((((v >> 16)
        & 0xff) as u8 as u64) << 16) | ((((v >> 24) & 0xff) as u8 as u64) << 24) | ((((v >> 32)
        & 0xff) as u8 as u64) << 32) | ((((v >> 40) & 0xff) as u8 as u64) << 40) | ((((v >> 48)
        & 0xff) as u8 as u64) << 48) | ((((v >> 56) & 0xff) as u8 as u64) << 56) == v)
        by (bit_vector);
}

proof fn lemma_read_u32(v: u32, rest: Seq<u8>)
    ensures
        read_u32(le32(v) + rest) == Ok::<(u32, Seq<u8>), Seq<char>>((v, rest)),
{
    reveal(read_u32);
    lemma_le32(v);
    assert((le32(v) + rest).take(4) =~= le32(v));
    assert((le32(v) + rest).skip(4) =~= rest);
}

proof fn lemma_read_u64(v: u64, rest: Seq<u8>)
    ensures
        read_u64(le64(v) + rest) == Ok::<(u64, Seq<u8>), Seq<char>>((v, rest)),
{
    reveal(read_u64);
    lemma_le64(v);
    assert((le64(v) + rest).take(8) =~= le64(v));
    assert((le64(v) + rest).skip(8) =~= rest);
}

proof fn lemma_read_string(s: Seq<char>, rest: Seq<u8>)
    requires
        fits_string(s),
    ensures
        read_string(enc_string(s) + rest) == Ok::<(Seq<char>, Seq<u8>), Seq<char>>((s, rest)),
{
    reveal(read_string);
    let n = encode_utf8(s).len() as u32;
    let body = encode_utf8(s);
    assert(enc_string(s) + rest =~= le32(n) + (body + rest));
    lemma_read_u32(n, body + rest);
    assert((body + rest).take(n as int) =~= body);
    assert((body + rest).skip(n as int) =~= rest);
    encode_utf8_valid_utf8(s);
    encode_utf8_decode_utf8(s);
}

proof fn lemma_read_character(c: CharacterView, rest: Seq<u8>)
    requires
        fits_string(c.name),
        fits_string(c.description),
        fits_string(c.color),
    ensures
        read_character(enc_character(c) + rest) == Ok::<(CharacterView, Seq<u8>), Seq<char>>((c, rest)),
{
    reveal(read_character);
    let a = enc_string(c.name);
    let b = enc_string(c.description);
    let d = enc_string(c.color);
    assert(enc_character(c) + rest =~= le64(c.id) + (a + (b + (d + rest))));
    lemma_read_u64(c.id, a + (b + (d + rest)));
    lemma_read_string(c.name, b + (d + rest));
    lemma_read_string(c.description, d + rest);
    lemma_read_string(c.color, rest);
}

proof fn lemma_read_characters(cs: Seq<CharacterView>, rest: Seq<u8>)
    requires
        characters_fit(cs),
    ensures
        read_characters(enc_characters(cs) + rest, cs.len()) == Ok::<
            (Seq<CharacterView>, Seq<u8>),
            Seq<char>,
        >((cs, rest)),
    decreases cs.len(),
{
    if cs.len() == 0 {
        assert(enc_characters(cs) + rest =~= rest);
        assert(cs =~= Seq::<CharacterView>::empty());
    } else {
        let tail = cs.drop_first();
        assert(characters_fit(tail)) by {
            assert forall|k: int| 0 <= k < tail.len() implies fits_string((#[trigger] tail[k]).name)
                && fits_string(tail[k].description) && fits_string(tail[k].color) by {
                assert(tail[k] == cs[k + 1]);
            }
        }
        assert(cs[0] == cs[0]);
        assert(enc_characters(cs) + rest =~= enc_character(cs[0]) + (enc_characters(tail) + rest));
        lemma_read_character(cs[0], enc_characters(tail) + rest);
        lemma_read_characters(tail, rest);
        assert(seq![cs[0]] + tail =~= cs);
    }
}

proof fn lemma_read_block(b: BlockView, rest: Seq<u8>)
    requires
        fits_string(b.text),
    ensures
        read_block(enc_block(b) + rest) == Ok::<(BlockView, Seq<u8>), Seq<char>>((b, rest)),
{
    reveal(read_block);
    reveal(read_reference);
    reveal(read_byte);
    let t = enc_string(b.text);
    let r1 = enc_reference(b.character) + (t + rest);
    assert(enc_block(b) + rest =~= seq![kind_tag(b.kind)] + r1);
    assert((seq![kind_tag(b.kind)] + r1).skip(1) =~= r1);
    match b.character {
        None => {
            assert(r1 =~= seq![0u8] + (t + rest));
            assert((seq![0u8] + (t + rest)).skip(1) =~= t + rest);
        },
        Some(id) => {
            assert(r1 =~= seq![1u8] + (le64(id) + (t + rest)));
            assert((seq![1u8] + (le64(id) + (t + rest))).skip(1) =~= le64(id) + (t + rest));
            lemma_read_u64(id, t + rest);
        },
    }
    lemma_read_string(b.text, rest);
}

proof fn lemma_read_blocks(bs: Seq<BlockView>, rest: Seq<u8>)
    requires
        blocks_fit(bs),
    ensures
        read_blocks(enc_blocks(bs) + rest, bs.len()) == Ok::<(Seq<BlockView>, Seq<u8>), Seq<char>>(
            (bs, rest),
        ),
    decreases bs.len(),
{
    if bs.len() == 0 {
        assert(enc_blocks(bs) + rest =~= rest);
        assert(bs =~= Seq::<BlockView>::empty());
    } else {
        let tail = bs.drop_first();
        assert(blocks_fit(tail)) by {
            assert forall|k: int| 0 <= k < tail.len() implies fits_string((#[trigger] tail[k]).text) by {
                assert(tail[k] == bs[k + 1]);
            }
        }
        assert(bs[0] == bs[0]);
        assert(enc_blocks(bs) + rest =~= enc_block(bs[0]) + (enc_blocks(tail) + rest));
        lemma_read_block(bs[0], enc_blocks(tail) + rest);
        lemma_read_blocks(tail, rest);
        assert(seq![bs[0]] + tail =~= bs);
    }
}

/// Reading the file of a story, followed by any bytes, gives back the story and those bytes.
proof fn lemma_read_story(s: StoryView, rest: Seq<u8>)
    requires
        valid_story(s),
        fits(s),
    ensures
        read_story(story_bytes(s) + rest) == Ok::<(StoryView, Seq<u8>), Seq<char>>((s, rest)),
{
    let b = story_bytes(s) + rest;
    let e = enc_characters(s.characters) + (le32(s.blocks.len() as u32) + (enc_blocks(s.blocks) + rest));
    let f = enc_blocks(s.blocks) + rest;
    let r4 = le32(s.characters.len() as u32) + e;
    let r3 = enc_string(s.author) + r4;
    let r2 = enc_string(s.subtitle) + r3;
    let r1 = enc_string(s.title) + r2;
    assert(b =~= magic() + (le32(s.version) + r1));
    assert(b.take(8) =~= magic());
    assert(b.skip(8) =~= le32(s.version) + r1);
    lemma_read_u32(s.version, r1);
    lemma_read_string(s.title, r2);
    lemma_read_string(s.subtitle, r3);
    lemma_read_string(s.author, r4);
    lemma_read_u32(s.characters.len() as u32, e);
    lemma_read_characters(s.characters, le32(s.blocks.len() as u32) + f);
    lemma_read_u32(s.blocks.len() as u32, f);
    lemma_read_blocks(s.blocks, rest);
}

/// A file starting with the signature is not a legacy JSON manuscript.
proof fn lemma_signed_not_legacy(b: Seq<u8>)
    requires
        b.len() >= 1,
        b[0] == 0x50,
    ensures
        !legacy_json(b),
{
    if legacy_json(b) {
        let k = choose|k: int|
            0 <= k < b.len() && b[k] == 0x7b && forall|j: int| 0 <= j < k ==> ascii_ws(#[trigger] b[j]);
        if k > 0 {
            assert(ascii_ws(b[0]));
        }
    }
}

/// Each block record starts with its type's tag as FORMAT.md lists it: narration 0,
/// dialogue 1, action 2, thought 3, quotation 4, scene heading 5, scene break 6, note 7.
pub proof fn law_block_tags(b: BlockView)
    ensures
        b.kind == Kind::Narration ==> enc_block(b)[0] == 0,
        b.kind == Kind::Dialogue ==> enc_block(b)[0] == 1,
        b.kind == Kind::Action ==> enc_block(b)[0] == 2,
        b.kind == Kind::Thought ==> enc_block(b)[0] == 3,
        b.kind == Kind::Quote ==> enc_block(b)[0] == 4,
        b.kind == Kind::Scene ==> enc_block(b)[0] == 5,
        b.kind == Kind::Divider ==> enc_block(b)[0] == 6,
        b.kind == Kind::Note ==> enc_block(b)[0] == 7,
{
}

/// A block record read from bytes has the type that its first byte names in FORMAT.md:
/// 0 narration, 1 dialogue, 2 action, 3 thought, 4 quotation, 5 scene heading, 6 scene
/// break, 7 note; other first bytes are refused.
pub proof fn law_read_block_tags(b: Seq<u8>)
    ensures
        read_block(b) is Ok ==> b.len() > 0 && b[0] <= 7,
        read_block(b) is Ok && b[0] == 0 ==> read_block(b)->Ok_0.0.kind == Kind::Narration,
        read_block(b) is Ok && b[0] == 1 ==> read_block(b)->Ok_0.0.kind == Kind::Dialogue,
        read_block(b) is Ok && b[0] == 2 ==> read_block(b)->Ok_0.0.kind == Kind::Action,
        read_block(b) is Ok && b[0] == 3 ==> read_block(b)->Ok_0.0.kind == Kind::Thought,
        read_block(b) is Ok && b[0] == 4 ==> read_block(b)->Ok_0.0.kind == Kind::Quote,
        read_block(b) is Ok && b[0] == 5 ==> read_block(b)->Ok_0.0.kind == Kind::Scene,
        read_block(b) is Ok && b[0] == 6 ==> read_block(b)->Ok_0.0.kind == Kind::Divider,
        read_block(b) is Ok && b[0] == 7 ==> read_block(b)->Ok_0.0.kind == Kind::Note,
{
    reveal(read_block);
    reveal(read_byte);
}

proof fn lemma_blocks_suffix(bs: Seq<BlockView>, i: int)
    requires
        0 <= i <= bs.len(),
    ensures
        enc_blocks(bs.skip(i)).len() <= enc_blocks(bs).len(),
        enc_blocks(bs).subrange(enc_blocks(bs).len() - enc_blocks(bs.skip(i)).len(), enc_blocks(bs).len() as int)
            == enc_blocks(bs.skip(i)),
    decreases i,
{
    if i == 0 {
        assert(bs.skip(0) =~= bs);
        assert(enc_blocks(bs).subrange(0, enc_blocks(bs).len() as int) =~= enc_blocks(bs));
    } else {
        let t = bs.drop_first();
        lemma_blocks_suffix(t, i - 1);
        assert(t.skip(i - 1) =~= bs.skip(i));
        let whole = enc_blocks(bs);
        let head = enc_block(bs[0]);
        let mid = enc_blocks(t);
        let tail = enc_blocks(bs.skip(i));
        assert(whole == head + mid);
        assert(whole.subrange(whole.len() - tail.len(), whole.len() as int) =~= mid.subrange(
            mid.len() - tail.len(),
            mid.len() as int,
        ));
    }
}

/// In an encoded story, block `i`'s record, with its type tag first, is where the records
/// from block `i` on begin: the bytes end with the records of blocks `i..` in order.
pub proof fn law_encoded_block_position(s: StoryView, i: int)
    requires
        spec_encode(s) is Ok,
        0 <= i < s.blocks.len(),
    ensures
        ({
            let bytes = spec_encode(s)->Ok_0;
            let rest = enc_blocks(s.blocks.skip(i));
            &&& rest.len() <= bytes.len()
            &&& bytes.subrange(bytes.len() - rest.len(), bytes.len() as int) == enc_block(s.blocks[i])
                + enc_blocks(s.blocks.skip(i + 1))
            &&& bytes[bytes.len() - rest.len()] == enc_block(s.blocks[i])[0]
        }),
{
    let bytes = story_bytes(s);
    let bs = s.blocks;
    lemma_blocks_suffix(bs, i);
    let rest = enc_blocks(bs.skip(i));
    assert(bs.skip(i).drop_first() =~= bs.skip(i + 1));
    assert(bs.skip(i)[0] == bs[i]);
    assert(rest == enc_block(bs[i]) + enc_blocks(bs.skip(i + 1)));
    let e = enc_blocks(bs);
    let pre = magic() + (le32(s.version) + (enc_string(s.title) + (enc_string(s.subtitle) + (enc_string(
        s.author,
    ) + (le32(s.characters.len() as u32) + (enc_characters(s.characters) + le32(
        bs.len() as u32,
    )))))));
    assert(bytes =~= pre + e);
    assert(bytes.subrange(bytes.len() - rest.len(), bytes.len() as int) =~= e.subrange(
        e.len() - rest.len(),
        e.len() as int,
    ));
    assert(enc_block(bs[i]).len() > 0);
    assert(bytes[bytes.len() - rest.len()] == bytes.subrange(bytes.len() - rest.len(), bytes.len() as int)[0]);
}

/// Decoding the encoding of a story gives back the story, field for field.
pub proof fn law_decode_encode(s: StoryView)
    requires
        spec_encode(s) is Ok,
    ensures
        spec_decode(spec_encode(s)->Ok_0) == Ok::<StoryView, Seq<char>>(s),
{
    let b = story_bytes(s);
    lemma_read_story(s, Seq::empty());
    assert(b + Seq::<u8>::empty() =~= b);
    assert(b[0] == 0x50);
    lemma_signed_not_legacy(b);
}

/// Bytes after an encoded story are refused as trailing data.
pub proof fn law_trailing_data_refused(s: StoryView, extra: Seq<u8>)
    requires
        spec_encode(s) is Ok,
        extra.len() > 0,
    ensures
        spec_decode(spec_encode(s)->Ok_0 + extra) == Err::<StoryView, Seq<char>>(trailing_message()),
{
    let b = story_bytes(s);
    lemma_read_story(s, extra);
    assert((b + extra)[0] == 0x50);
    lemma_signed_not_legacy(b + extra);
}

/// A read that succeeds on some bytes reads the same from any extension of them.
proof fn lemma_extend_byte(x: Seq<u8>, y: Seq<u8>)
    ensures
        read_byte(x) matches Ok((v, r)) ==> read_byte(x + y) == Ok::<(u8, Seq<u8>), Seq<char>>((v, r + y)),
{
    reveal(read_byte);
    if x.len() >= 1 {
        assert((x + y).skip(1) =~= x.skip(1) + y);
    }
}

proof fn lemma_extend_u32(x: Seq<u8>, y: Seq<u8>)
    ensures
        read_u32(x) matches Ok((v, r)) ==> read_u32(x + y) == Ok::<(u32, Seq<u8>), Seq<char>>((v, r + y)),
{
    reveal(read_u32);
    if x.len() >= 4 {
        assert((x + y).take(4) =~= x.take(4));
        assert((x + y).skip(4) =~= x.skip(4) + y);
    }
}

proof fn lemma_extend_u64(x: Seq<u8>, y: Seq<u8>)
    ensures
        read_u64(x) matches Ok((v, r)) ==> read_u64(x + y) == Ok::<(u64, Seq<u8>), Seq<char>>((v, r + y)),
{
    reveal(read_u64);
    if x.len() >= 8 {
        assert((x + y).take(8) =~= x.take(8));
        assert((x + y).skip(8) =~= x.skip(8) + y);
    }
}

proof fn lemma_extend_string(x: Seq<u8>, y: Seq<u8>)
    ensures
        read_string(x) matches Ok((v, r)) ==> read_string(x + y) == Ok::<(Seq<char>, Seq<u8>), Seq<char>>(
            (v, r + y),
        ),
{
    reveal(read_string);
    lemma_extend_u32(x, y);
    if let Ok((n, r)) = read_u32(x) {
        if r.len() >= n {
            assert((r + y).take(n as int) =~= r.take(n as int));
            assert((r + y).skip(n as int) =~= r.skip(n as int) + y);
        }
    }
}

proof fn lemma_extend_character(x: Seq<u8>, y: Seq<u8>)
    ensures
        read_character(x) matches Ok((v, r)) ==> read_character(x + y) == Ok::<
            (CharacterView, Seq<u8>),
            Seq<char>,
        >((v, r + y)),
{
    reveal(read_character);
    lemma_extend_u64(x, y);
    if let Ok((id, r1)) = read_u64(x) {
        lemma_extend_string(r1, y);
        if let Ok((n, r2)) = read_string(r1) {
            lemma_extend_string(r2, y);
            if let Ok((d, r3)) = read_string(r2) {
                lemma_extend_string(r3, y);
            }
        }
    }
}

proof fn lemma_extend_characters(x: Seq<u8>, y: Seq<u8>, n: nat)
    ensures
        read_characters(x, n) matches Ok((v, r)) ==> read_characters(x + y, n) == Ok::<
            (Seq<CharacterView>, Seq<u8>),
            Seq<char>,
        >((v, r + y)),
    decreases n,
{
    if n > 0 {
        lemma_extend_character(x, y);
        if let Ok((c, r1)) = read_character(x) {
            lemma_extend_characters(r1, y, (n - 1) as nat);
        }
    }
}

proof fn lemma_extend_block(x: Seq<u8>, y: Seq<u8>)
    ensures
        read_block(x) matches Ok((v, r)) ==> read_block(x + y) == Ok::<(BlockView, Seq<u8>), Seq<char>>(
            (v, r + y),
        ),
{
    reveal(read_block);
    reveal(read_reference);
    lemma_extend_byte(x, y);
    if let Ok((t, r1)) = read_byte(x) {
        lemma_extend_byte(r1, y);
        if let Ok((rt, r2)) = read_byte(r1) {
            lemma_extend_u64(r2, y);
            if let Ok((c, r3)) = read_reference(r1) {
                lemma_extend_string(r3, y);
            }
        }
    }
}

proof fn lemma_extend_blocks(x: Seq<u8>, y: Seq<u8>, n: nat)
    ensures
        read_blocks(x, n) matches Ok((v, r)) ==> read_blocks(x + y, n) == Ok::<
            (Seq<BlockView>, Seq<u8>),
            Seq<char>,
        >((v, r + y)),
    decreases n,
{
    if n > 0 {
        lemma_extend_block(x, y);
        if let Ok((c, r1)) = read_block(x) {
            lemma_extend_blocks(r1, y, (n - 1) as nat);
        }
    }
}

proof fn lemma_extend_story(x: Seq<u8>, y: Seq<u8>)
    ensures
        read_story(x) matches Ok((v, r)) ==> read_story(x + y) == Ok::<(StoryView, Seq<u8>), Seq<char>>(
            (v, r + y),
        ),
{
    if let Ok((v, r)) = read_story(x) {
        assert((x + y).take(8) =~= x.take(8));
        assert((x + y).skip(8) =~= x.skip(8) + y);
        let x1 = x.skip(8);
        lemma_extend_u32(x1, y);
        let (version, r1) = read_u32(x1)->Ok_0;
        lemma_extend_string(r1, y);
        let (title, r2) = read_string(r1)->Ok_0;
        lemma_extend_string(r2, y);
        let (subtitle, r3) = read_string(r2)->Ok_0;
        lemma_extend_string(r3, y);
        let (author, r4) = read_string(r3)->Ok_0;
        lemma_extend_u32(r4, y);
        let (nc, r5) = read_u32(r4)->Ok_0;
        lemma_extend_characters(r5, y, nc as nat);
        let (cs, r6) = read_characters(r5, nc as nat)->Ok_0;
        lemma_extend_u32(r6, y);
        let (nb, r7) = read_u32(r6)->Ok_0;
        lemma_extend_blocks(r7, y, nb as nat);
    }
}

/// The format is self-delimiting: every proper prefix of an encoded story is refused.
pub proof fn law_truncation_refused(s: StoryView, k: int)
    requires
        spec_encode(s) is Ok,
        0 <= k < (spec_encode(s)->Ok_0).len(),
    ensures
        spec_decode((spec_encode(s)->Ok_0).take(k)) is Err,
{
    let b = story_bytes(s);
    let p = b.take(k);
    let y = b.skip(k);
    assert(p + y =~= b);
    if k >= 1 {
        assert(p[0] == 0x50);
        lemma_signed_not_legacy(p);
    } else {
        assert(!legacy_json(p));
    }
    lemma_read_story(s, Seq::empty());
    assert(b + Seq::<u8>::empty() =~= b);
    lemma_extend_story(p, y);
    if let Ok((t, r)) = read_story(p) {
        if r.len() == 0 {
            assert(r + y =~= y);
        }
    }
}

} // verus!
