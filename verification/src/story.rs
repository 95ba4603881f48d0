//! The manuscript model: story metadata, characters and ordered blocks.
use vstd::prelude::*;
use vstd::string::*;
use crate::text::{
    blank, chars_of, decimal, is_blank, is_hex, is_whitespace, is_ws, push_decimal, push_str,
    same_text,
};

verus! {

broadcast use vstd::seq_lib::group_seq_properties;

/// The suggested character colors, cycled by the character form.
pub open spec fn palette(i: int) -> Seq<char> {
    if i == 0 { "#9b513c"@ }
    else if i == 1 { "#386d73"@ }
    else if i == 2 { "#705589"@ }
    else if i == 3 { "#627440"@ }
    else if i == 4 { "#996622"@ }
    else if i == 5 { "#a34f70"@ }
    else if i == 6 { "#456da1"@ }
    else { "#716355"@ }
}

/// The number of suggested colors.
pub const PALETTE_LEN: usize = 8;

/// The `i`th suggested color.
pub fn palette_color(i: usize) -> (r: &'static str)
    requires
        i < PALETTE_LEN,
    ensures
        r@ == palette(i as int),
{
    if i == 0 { "#9b513c" }
    else if i == 1 { "#386d73" }
    else if i == 2 { "#705589" }
    else if i == 3 { "#627440" }
    else if i == 4 { "#996622" }
    else if i == 5 { "#a34f70" }
    else if i == 6 { "#456da1" }
    else { "#716355" }
}

/// The type of a story block.
#[derive(Clone, Copy, Debug, PartialEq, Eq, Structural)]
pub enum Kind {
    Narration,
    Dialogue,
    Action,
    Thought,
    Quote,
    Scene,
    Divider,
    Note,
}

/// The label shown for each block type.
pub open spec fn kind_label(k: Kind) -> Seq<char> {
    match k {
        Kind::Narration => "Narration"@,
        Kind::Dialogue => "Dialogue"@,
        Kind::Action => "Action"@,
        Kind::Thought => "Thought"@,
        Kind::Quote => "Quotation"@,
        Kind::Scene => "Scene"@,
        Kind::Divider => "Scene break"@,
        Kind::Note => "Private note"@,
    }
}

/// The outline marker of each block type.
pub open spec fn kind_marker(k: Kind) -> Seq<char> {
    match k {
        Kind::Narration => "¶"@,
        Kind::Dialogue => "“"@,
        Kind::Action => "↗"@,
        Kind::Thought => "~"@,
        Kind::Quote => "❝"@,
        Kind::Scene => "§"@,
        Kind::Divider => "⁂"@,
        Kind::Note => "·"@,
    }
}

/// The block types in menu order: 1 is narration, 8 a private note.
pub open spec fn kind_at(i: int) -> Kind {
    if i == 0 { Kind::Narration }
    else if i == 1 { Kind::Dialogue }
    else if i == 2 { Kind::Action }
    else if i == 3 { Kind::Thought }
    else if i == 4 { Kind::Quote }
    else if i == 5 { Kind::Scene }
    else if i == 6 { Kind::Divider }
    else { Kind::Note }
}

impl Kind {
    /// The block type at a position of the menu, counting from zero.
    pub fn from_index(i: usize) -> (r: Kind)
        requires
            i < 8,
        ensures
            r == kind_at(i as int),
    {
        if i == 0 { Kind::Narration }
        else if i == 1 { Kind::Dialogue }
        else if i == 2 { Kind::Action }
        else if i == 3 { Kind::Thought }
        else if i == 4 { Kind::Quote }
        else if i == 5 { Kind::Scene }
        else if i == 6 { Kind::Divider }
        else { Kind::Note }
    }

    /// The display label of this block type.
    pub fn label(self) -> (r: &'static str)
        ensures
            r@ == kind_label(self),
    {
        match self {
            Kind::Narration => "Narration",
            Kind::Dialogue => "Dialogue",
            Kind::Action => "Action",
            Kind::Thought => "Thought",
            Kind::Quote => "Quotation",
            Kind::Scene => "Scene",
            Kind::Divider => "Scene break",
            Kind::Note => "Private note",
        }
    }

    /// The outline marker of this block type.
    pub fn marker(self) -> (r: &'static str)
        ensures
            r@ == kind_marker(self),
    {
        match self {
            Kind::Narration => "¶",
            Kind::Dialogue => "“",
            Kind::Action => "↗",
            Kind::Thought => "~",
            Kind::Quote => "❝",
            Kind::Scene => "§",
            Kind::Divider => "⁂",
            Kind::Note => "·",
        }
    }
}

impl Default for Kind {
    fn default() -> (r: Kind)
        ensures
            r == Kind::Narration,
    {
        Kind::Narration
    }
}

/// A character of the story.
#[derive(Clone, Debug, PartialEq, Eq)]
pub struct Character {
    pub id: u64,
    pub name: String,
    pub description: String,
    pub color: String,
}

/// A character as plain values.
pub struct CharacterView {
    pub id: u64,
    pub name: Seq<char>,
    pub description: Seq<char>,
    pub color: Seq<char>,
}

impl View for Character {
    type V = CharacterView;

    open spec fn view(&self) -> CharacterView {
        CharacterView {
            id: self.id,
            name: self.name@,
            description: self.description@,
            color: self.color@,
        }
    }
}

impl Character {
    /// A copy of this character.
    pub fn duplicate(&self) -> (r: Character)
        ensures
            r@ == self@,
    {
        Character {
            id: self.id,
            name: self.name.clone(),
            description: self.description.clone(),
            color: self.color.clone(),
        }
    }
}

/// One block of the manuscript.
#[derive(Clone, Debug, PartialEq, Eq)]
pub struct StoryBlock {
    pub kind: Kind,
    pub character: Option<u64>,
    pub text: String,
}

/// A block as plain values.
pub struct BlockView {
    pub kind: Kind,
    pub character: Option<u64>,
    pub text: Seq<char>,
}

impl View for StoryBlock {
    type V = BlockView;

    open spec fn view(&self) -> BlockView {
        BlockView { kind: self.kind, character: self.character, text: self.text@ }
    }
}

impl StoryBlock {
    /// A copy of this block.
    pub fn duplicate(&self) -> (r: StoryBlock)
        ensures
            r@ == self@,
    {
        StoryBlock { kind: self.kind, character: self.character, text: self.text.clone() }
    }
}

impl Default for StoryBlock {
    fn default() -> (r: StoryBlock)
        ensures
            r@ == (BlockView { kind: Kind::Narration, character: None, text: Seq::empty() }),
    {
        StoryBlock { kind: Kind::Narration, character: None, text: String::new() }
    }
}

/// A story: metadata, characters in display order and blocks in manuscript order.
#[derive(Clone, Debug, PartialEq, Eq)]
pub struct Story {
    pub version: u32,
    pub title: String,
    pub subtitle: String,
    pub author: String,
    pub characters: Vec<Character>,
    pub blocks: Vec<StoryBlock>,
}

/// A story as plain values.
pub struct StoryView {
    pub version: u32,
    pub title: Seq<char>,
    pub subtitle: Seq<char>,
    pub author: Seq<char>,
    pub characters: Seq<CharacterView>,
    pub blocks: Seq<BlockView>,
}

impl View for Story {
    type V = StoryView;

    open spec fn view(&self) -> StoryView {
        StoryView {
            version: self.version,
            title: self.title@,
            subtitle: self.subtitle@,
            author: self.author@,
            characters: self.characters@.map_values(|c: Character| c@),
            blocks: self.blocks@.map_values(|b: StoryBlock| b@),
        }
    }
}

/// The empty story that a new manuscript starts from.
pub open spec fn default_story() -> StoryView {
    StoryView {
        version: 1,
        title: "Untitled story"@,
        subtitle: Seq::empty(),
        author: Seq::empty(),
        characters: Seq::empty(),
        blocks: seq![BlockView { kind: Kind::Narration, character: None, text: Seq::empty() }],
    }
}

impl Default for Story {
    fn default() -> (r: Story)
        ensures
            r@ == default_story(),
    {
        let mut blocks = Vec::new();
        blocks.push(StoryBlock::default());
        let r = Story {
            version: 1,
            title: String::from_str("Untitled story"),
            subtitle: String::new(),
            author: String::new(),
            characters: Vec::new(),
            blocks,
        };
        assert(r@.blocks =~= default_story().blocks);
        assert(r@.characters =~= default_story().characters);
        r
    }
}

/// The index of the first character with the given ID.
pub open spec fn find_character(cs: Seq<CharacterView>, id: u64) -> Option<int> {
    if exists|i: int| 0 <= i < cs.len() && cs[i].id == id {
        Some(choose|i: int|
            0 <= i < cs.len() && cs[i].id == id && forall|j: int|
                0 <= j < i ==> cs[j].id != id)
    } else {
        None
    }
}

/// Some character carries this ID.
pub open spec fn has_id(cs: Seq<CharacterView>, id: u64) -> bool {
    exists|i: int| 0 <= i < cs.len() && cs[i].id == id
}

/// The number of whitespace-separated words of a text (`split_whitespace().count()`).
pub open spec fn words(s: Seq<char>) -> nat
    decreases s.len(),
{
    if s.len() == 0 {
        0
    } else {
        words(s.drop_last()) + if !is_ws(s.last()) && (s.len() == 1 || is_ws(s[s.len() - 2])) {
            1nat
        } else {
            0nat
        }
    }
}

/// Whether the words of a block count towards the story's length.
pub open spec fn counts_words(k: Kind) -> bool {
    k != Kind::Note && k != Kind::Divider
}

/// The number of words in the blocks that readers see as prose.
pub open spec fn block_words(bs: Seq<BlockView>) -> nat
    decreases bs.len(),
{
    if bs.len() == 0 {
        0
    } else {
        block_words(bs.drop_last()) + if counts_words(bs.last().kind) {
            words(bs.last().text)
        } else {
            0nat
        }
    }
}

/// A `#RRGGBB` color.
pub open spec fn is_color(s: Seq<char>) -> bool {
    s.len() == 7 && s[0] == '#' && forall|i: int| 1 <= i < 7 ==> is_hex(#[trigger] s[i])
}

/// The first problem that makes a character list invalid, scanning from position `i`.
pub open spec fn character_error_from(cs: Seq<CharacterView>, i: int) -> Option<Seq<char>>
    decreases cs.len() - i,
{
    if i < 0 || i >= cs.len() {
        None
    } else if has_id(cs.take(i), cs[i].id) {
        Some("Duplicate character ID: "@ + decimal(cs[i].id as nat))
    } else if is_blank(cs[i].name) {
        Some("Character names cannot be empty"@)
    } else if !is_color(cs[i].color) {
        Some("Invalid character color: "@ + cs[i].color + " (expected #RRGGBB)"@)
    } else {
        character_error_from(cs, i + 1)
    }
}

/// Some block names a character that does not exist.
pub open spec fn dangling_reference(s: StoryView) -> bool {
    exists|i: int|
        0 <= i < s.blocks.len() && (#[trigger] s.blocks[i]).character is Some && !has_id(
            s.characters,
            s.blocks[i].character->0,
        )
}

/// Why a story is invalid, or `None` when it is valid.
pub open spec fn story_error(s: StoryView) -> Option<Seq<char>> {
    if s.version != 1 {
        Some("Unsupported story version: "@ + decimal(s.version as nat))
    } else if s.blocks.len() == 0 {
        Some("A story must contain at least one block"@)
    } else if character_error_from(s.characters, 0) is Some {
        character_error_from(s.characters, 0)
    } else if dangling_reference(s) {
        Some("A block references a missing character"@)
    } else {
        None
    }
}

/// A story that the format and the editor accept.
pub open spec fn valid_story(s: StoryView) -> bool {
    story_error(s) is None
}

/// Character `k` of a list has a fresh ID, a name and a valid color.
pub open spec fn character_ok(cs: Seq<CharacterView>, k: int) -> bool {
    !has_id(cs.take(k), cs[k].id) && !is_blank(cs[k].name) && is_color(cs[k].color)
}

/// The characters from `i` on have distinct IDs, names and valid colors.
pub proof fn lemma_character_error_none(cs: Seq<CharacterView>, i: int)
    requires
        0 <= i,
    ensures
        character_error_from(cs, i) is None <==> forall|k: int|
            i <= k < cs.len() ==> #[trigger] character_ok(cs, k),
    decreases cs.len() - i,
{
    if i < cs.len() {
        lemma_character_error_none(cs, i + 1);
        if character_error_from(cs, i) is None {
            assert(character_ok(cs, i));
            assert forall|k: int| i <= k < cs.len() implies #[trigger] character_ok(cs, k) by {
                if k > i {
                    assert(character_ok(cs, k));
                }
            }
        }
        if forall|k: int| i <= k < cs.len() ==> #[trigger] character_ok(cs, k) {
            assert(character_ok(cs, i));
            assert forall|k: int| i + 1 <= k < cs.len() implies #[trigger] character_ok(cs, k) by {
                assert(character_ok(cs, k));
            }
        }
    }
}

/// Whether a value is a `#RRGGBB` color; hex digits may be upper or lower case.
pub fn valid_color(value: &str) -> (r: bool)
    ensures
        r == is_color(value@),
{
    let cs = chars_of(value);
    if cs.len() != 7 || cs[0] != '#' {
        return false;
    }
    let mut i: usize = 1;
    while i < 7
        invariant
            1 <= i <= 7,
            cs@ == value@,
            cs@.len() == 7,
            forall|j: int| 1 <= j < i ==> is_hex(#[trigger] cs@[j]),
        decreases 7 - i,
    {
        let c = cs[i];
        if !(('0' <= c && c <= '9') || ('a' <= c && c <= 'f') || ('A' <= c && c <= 'F')) {
            return false;
        }
        i += 1;
    }
    true
}

/// The number of whitespace-separated words in a text.
pub fn count_words(s: &str) -> (r: usize)
    ensures
        r == words(s@),
{
    let cs = chars_of(s);
    let mut n: usize = 0;
    let mut i: usize = 0;
    while i < cs.len()
        invariant
            i <= cs@.len(),
            cs@ == s@,
            n == words(cs@.take(i as int)),
            n <= i,
        decreases cs@.len() - i,
    {
        let start = !is_whitespace(cs[i]) && (i == 0 || is_whitespace(cs[i - 1]));
        assert(cs@.take(i + 1).drop_last() =~= cs@.take(i as int));
        if start {
            n += 1;
        }
        i += 1;
    }
    assert(cs@.take(cs@.len() as int) =~= cs@);
    n
}

impl Story {
    /// The character with the given ID, if any.
    pub fn character(&self, id: Option<u64>) -> (r: Option<&Character>)
        ensures
            r is Some <==> (id is Some && has_id(self@.characters, id->0)),
            r matches Some(c) ==> c@ == self@.characters[find_character(self@.characters, id->0)->0],
    {
        match id {
            None => None,
            Some(wanted) => {
                let mut i: usize = 0;
                while i < self.characters.len()
                    invariant
                        i <= self.characters@.len(),
                        id == Some(wanted),
                        forall|j: int| 0 <= j < i ==> self@.characters[j].id != wanted,
                    decreases self.characters@.len() - i,
                {
                    assert(self@.characters[i as int] == self.characters@[i as int]@);
                    if self.characters[i].id == wanted {
                        proof {
                            let ghost cs = self@.characters;
                            assert(cs[i as int] == self.characters@[i as int]@);
                            assert(cs[i as int].id == wanted);
                            assert(0 <= i < cs.len() && cs[i as int].id == wanted && forall|j: int|
                                0 <= j < i ==> cs[j].id != wanted);
                            let k = find_character(cs, wanted)->0;
                            assert(0 <= k < cs.len() && cs[k].id == wanted);
                            assert(k == i) by {
                                if k < i {
                                    assert(cs[k].id != wanted);
                                } else if k > i {
                                    assert(cs[i as int].id != wanted);
                                }
                            }
                        }
                        return Some(&self.characters[i]);
                    }
                    i += 1;
                }
                assert(!has_id(self@.characters, wanted));
                None
            },
        }
    }

    /// A copy of this story.
    pub fn duplicate(&self) -> (r: Story)
        ensures
            r@ == self@,
    {
        let mut characters: Vec<Character> = Vec::new();
        let mut i: usize = 0;
        while i < self.characters.len()
            invariant
                i <= self.characters@.len(),
                characters@.len() == i,
                forall|k: int| 0 <= k < i ==> (#[trigger] characters@[k])@ == self@.characters[k],
            decreases self.characters@.len() - i,
        {
            assert(self@.characters[i as int] == self.characters@[i as int]@);
            characters.push(self.characters[i].duplicate());
            i += 1;
        }
        let mut blocks: Vec<StoryBlock> = Vec::new();
        let mut j: usize = 0;
        while j < self.blocks.len()
            invariant
                j <= self.blocks@.len(),
                blocks@.len() == j,
                forall|k: int| 0 <= k < j ==> (#[trigger] blocks@[k])@ == self@.blocks[k],
            decreases self.blocks@.len() - j,
        {
            assert(self@.blocks[j as int] == self.blocks@[j as int]@);
            blocks.push(self.blocks[j].duplicate());
            j += 1;
        }
        let r = Story {
            version: self.version,
            title: self.title.clone(),
            subtitle: self.subtitle.clone(),
            author: self.author.clone(),
            characters,
            blocks,
        };
        assert(r@.characters =~= self@.characters);
        assert(r@.blocks =~= self@.blocks);
        r
    }

    /// Whether two stories hold the same values.
    pub fn same(&self, other: &Story) -> (r: bool)
        ensures
            r == (self@ == other@),
    {
        if self.version != other.version || !same_text(&self.title, &other.title)
            || !same_text(&self.subtitle, &other.subtitle) || !same_text(&self.author, &other.author)
            || self.characters.len() != other.characters.len()
            || self.blocks.len() != other.blocks.len() {
            proof {
                if self@ == other@ {
                    assert(self@.characters.len() == other@.characters.len());
                    assert(self@.blocks.len() == other@.blocks.len());
                }
            }
            return false;
        }
        let mut i: usize = 0;
        while i < self.characters.len()
            invariant
                i <= self.characters@.len(),
                self.characters@.len() == other.characters@.len(),
                forall|k: int| 0 <= k < i ==> self@.characters[k] == other@.characters[k],
            decreases self.characters@.len() - i,
        {
            let a = &self.characters[i];
            let b = &other.characters[i];
            if a.id != b.id || !same_text(&a.name, &b.name) || !same_text(&a.description, &b.description)
                || !same_text(&a.color, &b.color) {
                assert(self@.characters[i as int] != other@.characters[i as int]);
                return false;
            }
            assert(self@.characters[i as int] == other@.characters[i as int]);
            i += 1;
        }
        let mut j: usize = 0;
        while j < self.blocks.len()
            invariant
                j <= self.blocks@.len(),
                self.blocks@.len() == other.blocks@.len(),
                forall|k: int| 0 <= k < j ==> self@.blocks[k] == other@.blocks[k],
            decreases self.blocks@.len() - j,
        {
            let a = &self.blocks[j];
            let b = &other.blocks[j];
            let same_reference = match (a.character, b.character) {
                (None, None) => true,
                (Some(x), Some(y)) => x == y,
                _ => false,
            };
            if a.kind != b.kind || !same_reference || !same_text(&a.text, &b.text) {
                assert(self@.blocks[j as int] != other@.blocks[j as int]);
                return false;
            }
            assert(self@.blocks[j as int] == other@.blocks[j as int]);
            j += 1;
        }
        assert(self@.characters =~= other@.characters);
        assert(self@.blocks =~= other@.blocks);
        true
    }

    /// Whether the word count fits in a `usize`.
    pub fn words_fit(&self) -> (r: bool)
        ensures
            r == (block_words(self@.blocks) <= usize::MAX),
    {
        let mut n: usize = 0;
        let mut i: usize = 0;
        while i < self.blocks.len()
            invariant
                i <= self.blocks@.len(),
                n == block_words(self@.blocks.take(i as int)),
            decreases self.blocks@.len() - i,
        {
            proof {
                assert(self@.blocks.take(i + 1).drop_last() =~= self@.blocks.take(i as int));
                lemma_block_words_prefix(self@.blocks, i + 1);
            }
            let b = &self.blocks[i];
            if b.kind != Kind::Note && b.kind != Kind::Divider {
                let w = count_words(b.text.as_str());
                if n > usize::MAX - w {
                    proof {
                        lemma_block_words_prefix(self@.blocks, self@.blocks.len() as int);
                        assert(self@.blocks.take(self@.blocks.len() as int) =~= self@.blocks);
                    }
                    return false;
                }
                n = n + w;
            }
            i += 1;
        }
        assert(self@.blocks.take(self@.blocks.len() as int) =~= self@.blocks);
        true
    }

    /// The number of words in prose blocks; private notes and scene breaks do not count.
    pub fn word_count(&self) -> (r: usize)
        requires
            block_words(self@.blocks) <= usize::MAX,
        ensures
            r == block_words(self@.blocks),
    {
        let mut n: usize = 0;
        let mut i: usize = 0;
        while i < self.blocks.len()
            invariant
                i <= self.blocks@.len(),
                n == block_words(self@.blocks.take(i as int)),
                block_words(self@.blocks) <= usize::MAX,
            decreases self.blocks@.len() - i,
        {
            proof {
                assert(self@.blocks.take(i + 1).drop_last() =~= self@.blocks.take(i as int));
                lemma_block_words_prefix(self@.blocks, i + 1);
            }
            let b = &self.blocks[i];
            if b.kind != Kind::Note && b.kind != Kind::Divider {
                let w = count_words(b.text.as_str());
                n = n + w;
            }
            i += 1;
        }
        assert(self@.blocks.take(self@.blocks.len() as int) =~= self@.blocks);
        n
    }

    /// `Ok` when the story is valid; otherwise the first problem found.
    #[verifier::rlimit(40)]
    #[verifier::spinoff_prover]
    pub fn validate(&self) -> (r: Result<(), String>)
        ensures
            r is Ok <==> valid_story(self@),
            r matches Err(e) ==> story_error(self@) == Some(e@),
    {
        if self.version != 1 {
            let mut e = String::from_str("Unsupported story version: ");
            push_decimal(&mut e, self.version as u64);
            return Err(e);
        }
        if self.blocks.len() == 0 {
            return Err(String::from_str("A story must contain at least one block"));
        }
        let ghost cs = self@.characters;
        let mut i: usize = 0;
        while i < self.characters.len()
            invariant
                i <= cs.len(),
                cs == self@.characters,
                self.version == 1,
                self@.blocks.len() > 0,
                character_error_from(cs, 0) == character_error_from(cs, i as int),
            decreases cs.len() - i,
        {
            let c = &self.characters[i];
            assert(cs[i as int] == c@);
            let mut j: usize = 0;
            let mut dup = false;
            while j < i
                invariant
                    j <= i < cs.len(),
                    cs == self@.characters,
                    cs[i as int] == c@,
                    dup <==> exists|k: int| 0 <= k < j && (#[trigger] cs[k]).id == c.id,
                decreases i - j,
            {
                assert(cs[j as int] == self.characters@[j as int]@);
                if self.characters[j].id == c.id {
                    dup = true;
                }
                j += 1;
            }
            proof {
                if dup {
                    let k = choose|k: int| 0 <= k < i && (#[trigger] cs[k]).id == c.id;
                    assert(cs.take(i as int)[k].id == cs[i as int].id);
                } else {
                    assert forall|k: int| 0 <= k < i implies (#[trigger] cs.take(i as int)[k]).id
                        != cs[i as int].id by {
                        assert(cs.take(i as int)[k] == cs[k]);
                    }
                }
            }
            if dup {
                let mut e = String::from_str("Duplicate character ID: ");
                push_decimal(&mut e, c.id);
                return Err(e);
            }
            if blank(c.name.as_str()) {
                return Err(String::from_str("Character names cannot be empty"));
            }
            if !valid_color(c.color.as_str()) {
                let mut e = String::from_str("Invalid character color: ");
                push_str(&mut e, c.color.as_str());
                push_str(&mut e, " (expected #RRGGBB)");
                return Err(e);
            }
            i += 1;
        }
        let mut b: usize = 0;
        while b < self.blocks.len()
            invariant
                b <= self@.blocks.len(),
                cs == self@.characters,
                self.version == 1,
                self@.blocks.len() > 0,
                character_error_from(cs, 0) is None,
                forall|k: int|
                    0 <= k < b && (#[trigger] self@.blocks[k]).character is Some ==> has_id(
                        cs,
                        self@.blocks[k].character->0,
                    ),
            decreases self@.blocks.len() - b,
        {
            assert(self@.blocks[b as int] == self.blocks@[b as int]@);
            if let Some(id) = self.blocks[b].character {
                if self.character(Some(id)).is_none() {
                    assert(self@.blocks[b as int] == self.blocks@[b as int]@);
                    assert(self@.blocks[b as int].character is Some);
                    assert(dangling_reference(self@));
                    return Err(String::from_str("A block references a missing character"));
                }
            }
            b += 1;
        }
        Ok(())
    }

    /// The sample story "The last light".
    pub fn demo() -> (r: Story)
        ensures
            r@ == demo_story(),
    {
        let mut characters = Vec::new();
        characters.push(Character {
            id: 1,
            name: String::from_str("Mara"),
            description: String::from_str("The lighthouse keeper. Collects things the sea returns."),
            color: String::from_str(palette_color(0)),
        });
        characters.push(Character {
            id: 2,
            name: String::from_str("Ellis"),
            description: String::from_str("A traveler with a letter he has never opened."),
            color: String::from_str(palette_color(1)),
        });
        let mut blocks = Vec::new();
        blocks.push(block(Kind::Scene, None, "I. The shore"));
        blocks.push(block(Kind::Narration, None, "By the time the stranger reached the lighthouse, the tide had erased his footprints. Above him, a single window held the last **amber light** of evening."));
        blocks.push(block(Kind::Action, Some(1), "Sets two cups on the windowsill, as though she had been expecting someone."));
        blocks.push(block(Kind::Dialogue, Some(1), "You took the long way."));
        blocks.push(block(Kind::Dialogue, Some(2), "I wasn't sure there was a short one."));
        blocks.push(block(Kind::Thought, Some(2), "Tell her about the letter. *Before you lose your nerve.*"));
        blocks.push(block(Kind::Quote, None, "Some lights are kept for ships. Others are kept for the people who never learned to leave."));
        blocks.push(block(Kind::Divider, None, ""));
        blocks.push(block(Kind::Scene, None, "II. What the sea returns"));
        blocks.push(block(Kind::Narration, None, "Mara turned the envelope over. The paper was soft at the edges, its creases worn nearly through. Outside, the lamp began its patient circle."));
        blocks.push(block(Kind::Dialogue, Some(1), "Well. You're here now."));
        blocks.push(block(Kind::Note, None, "What is inside the letter? Leave space for the reader. This private note will not appear in the HTML export."));
        let r = Story {
            version: 1,
            title: String::from_str("The last light"),
            subtitle: String::from_str("A small story about finding the way home"),
            author: String::from_str("Your name"),
            characters,
            blocks,
        };
        assert(r@.characters =~= demo_story().characters);
        assert(r@.blocks =~= demo_story().blocks);
        r
    }
}

fn block(kind: Kind, character: Option<u64>, text: &str) -> (r: StoryBlock)
    ensures
        r@ == (BlockView { kind, character, text: text@ }),
{
    StoryBlock { kind, character, text: String::from_str(text) }
}

/// A block as plain values, from a literal.
pub open spec fn bv(kind: Kind, character: Option<u64>, text: Seq<char>) -> BlockView {
    BlockView { kind, character, text }
}

/// The sample story "The last light".
pub open spec fn demo_story() -> StoryView {
    StoryView {
        version: 1,
        title: "The last light"@,
        subtitle: "A small story about finding the way home"@,
        author: "Your name"@,
        characters: seq![
            CharacterView {
                id: 1,
                name: "Mara"@,
                description: "The lighthouse keeper. Collects things the sea returns."@,
                color: palette(0),
            },
            CharacterView {
                id: 2,
                name: "Ellis"@,
                description: "A traveler with a letter he has never opened."@,
                color: palette(1),
            },
        ],
        blocks: seq![
            bv(Kind::Scene, None, "I. The shore"@),
            bv(Kind::Narration, None, "By the time the stranger reached the lighthouse, the tide had erased his footprints. Above him, a single window held the last **amber light** of evening."@),
            bv(Kind::Action, Some(1), "Sets two cups on the windowsill, as though she had been expecting someone."@),
            bv(Kind::Dialogue, Some(1), "You took the long way."@),
            bv(Kind::Dialogue, Some(2), "I wasn't sure there was a short one."@),
            bv(Kind::Thought, Some(2), "Tell her about the letter. *Before you lose your nerve.*"@),
            bv(Kind::Quote, None, "Some lights are kept for ships. Others are kept for the people who never learned to leave."@),
            bv(Kind::Divider, None, ""@),
            bv(Kind::Scene, None, "II. What the sea returns"@),
            bv(Kind::Narration, None, "Mara turned the envelope over. The paper was soft at the edges, its creases worn nearly through. Outside, the lamp began its patient circle."@),
            bv(Kind::Dialogue, Some(1), "Well. You're here now."@),
            bv(Kind::Note, None, "What is inside the letter? Leave space for the reader. This private note will not appear in the HTML export."@),
        ],
    }
}

/// Word counts of a prefix never exceed those of the whole sequence.
pub proof fn lemma_block_words_prefix(bs: Seq<BlockView>, k: int)
    requires
        0 <= k <= bs.len(),
    ensures
        block_words(bs.take(k)) <= block_words(bs),
    decreases bs.len() - k,
{
    if k < bs.len() {
        lemma_block_words_prefix(bs, k + 1);
        assert(bs.take(k + 1).drop_last() =~= bs.take(k));
    } else {
        assert(bs.take(k) =~= bs);
    }
}

} // verus!
