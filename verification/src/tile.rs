//! Tiles, their kinds, and the markdown rules that pick a kind.
use std::collections::HashMap;
use uuid::Uuid;
use vstd::prelude::*;
use crate::text::{words, string_of, count_words};

verus! {

/// Declares `uuid::Uuid` to Verus as an opaque type, so that tiles can carry one.
#[verifier::external_type_specification]
#[verifier::external_body]
pub struct ExUuid(uuid::Uuid);

/// Calls `uuid::Uuid::new_v4`, which draws a fresh random identifier from the
/// operating system's random source (and panics if that source fails).
/// Nothing is claimed of the result: it depends on the random source alone.
#[verifier::external_body]
fn new_tile_id() -> (id: Uuid) {
    Uuid::new_v4()
}

/// The kind of a tile.
#[derive(Debug, PartialEq)]
pub enum TextKind {
    Paragraph,
    Sentence,
    Line,
    Word,
    Token,
    Heading,
    ListItem,
    CodeBlock,
    Blockquote,
    Custom(String),
}

impl Clone for TextKind {
    fn clone(&self) -> (k: Self)
        ensures
            k == *self,
    {
        match self {
            TextKind::Paragraph => TextKind::Paragraph,
            TextKind::Sentence => TextKind::Sentence,
            TextKind::Line => TextKind::Line,
            TextKind::Word => TextKind::Word,
            TextKind::Token => TextKind::Token,
            TextKind::Heading => TextKind::Heading,
            TextKind::ListItem => TextKind::ListItem,
            TextKind::CodeBlock => TextKind::CodeBlock,
            TextKind::Blockquote => TextKind::Blockquote,
            TextKind::Custom(name) => TextKind::Custom(name.clone()),
        }
    }
}

/// One unit of decomposed text.
#[derive(Debug)]
pub struct TextTile {
    pub id: Uuid,
    pub kind: TextKind,
    pub content: String,
    pub index: u64,
    pub char_count: usize,
    pub word_count: usize,
    pub lang: Option<String>,
    pub meta: HashMap<String, String>,
}

impl Clone for TextTile {
    fn clone(&self) -> (t: Self)
        ensures
            t.id == self.id,
            t.kind == self.kind,
            t.content == self.content,
            t.index == self.index,
            t.char_count == self.char_count,
            t.word_count == self.word_count,
            t.lang == self.lang,
            t.meta@ == self.meta@,
    {
        TextTile {
            id: self.id,
            kind: self.kind.clone(),
            content: self.content.clone(),
            index: self.index,
            char_count: self.char_count,
            word_count: self.word_count,
            lang: match &self.lang {
                Some(l) => Some(l.clone()),
                None => None,
            },
            meta: self.meta.clone(),
        }
    }
}

/// What a tile says about its content: the content, its kind and its index.
pub open spec fn tile_view(t: TextTile) -> (Seq<char>, TextKind, int) {
    (t.content@, t.kind, t.index as int)
}

/// The views of a sequence of tiles.
pub open spec fn tiles_view(ts: Seq<TextTile>) -> Seq<(Seq<char>, TextKind, int)> {
    ts.map_values(|t: TextTile| tile_view(t))
}

/// The derived fields of a freshly made tile: its counts agree with its
/// content, it has no language and no metadata.
pub open spec fn fresh_tile(t: TextTile) -> bool {
    &&& t.char_count == t.content@.len()
    &&& t.word_count == words(t.content@).len()
    &&& t.lang is None
    &&& t.meta@ == Map::<String, String>::empty()
}

/// Every tile of `ts` is a freshly made one.
pub open spec fn all_fresh(ts: Seq<TextTile>) -> bool {
    forall|i: int| 0 <= i < ts.len() ==> #[trigger] fresh_tile(ts[i])
}

/// Blocks of text with their kinds, numbered from 0 in order.
pub open spec fn numbered(blocks: Seq<(Seq<char>, TextKind)>) -> Seq<(Seq<char>, TextKind, int)> {
    Seq::new(blocks.len(), |i: int| (blocks[i].0, blocks[i].1, i))
}

/// A tile holding `content`, of the given kind and index, with a fresh random id.
pub fn make_tile(content: &Vec<char>, kind: TextKind, index: u64) -> (t: TextTile)
    ensures
        tile_view(t) == (content@, kind, index as int),
        fresh_tile(t),
{
    let word_count = count_words(content);
    TextTile {
        id: new_tile_id(),
        kind,
        content: string_of(content),
        index,
        char_count: content.len(),
        word_count,
        lang: None,
        meta: HashMap::new(),
    }
}

// ---------------------------------------------------------------------------
// Markdown markers.

/// `s` starts with a code fence, three backticks.
pub open spec fn opens_fence(s: Seq<char>) -> bool {
    s.len() >= 3 && s[0] == '`' && s[1] == '`' && s[2] == '`'
}

/// `s` starts with a heading marker `#`.
pub open spec fn opens_heading(s: Seq<char>) -> bool {
    s.len() >= 1 && s[0] == '#'
}

/// `s` starts with a quote marker `>` (with or without a space after it).
pub open spec fn opens_quote(s: Seq<char>) -> bool {
    s.len() >= 1 && s[0] == '>'
}

/// `s` starts with a list marker: `-`, `*` or `+`, then a space.
pub open spec fn opens_list_item(s: Seq<char>) -> bool {
    s.len() >= 2 && (s[0] == '-' || s[0] == '*' || s[0] == '+') && s[1] == ' '
}

/// The kind of a block (a paragraph's content) by its first characters.
pub open spec fn block_kind(s: Seq<char>) -> TextKind {
    if opens_heading(s) {
        TextKind::Heading
    } else if opens_quote(s) {
        TextKind::Blockquote
    } else if opens_list_item(s) {
        TextKind::ListItem
    } else {
        TextKind::Paragraph
    }
}

/// The kind of a single (trimmed) line by its first characters.
pub open spec fn line_kind(s: Seq<char>) -> TextKind {
    if opens_fence(s) {
        TextKind::CodeBlock
    } else if opens_heading(s) {
        TextKind::Heading
    } else if opens_quote(s) {
        TextKind::Blockquote
    } else if opens_list_item(s) {
        TextKind::ListItem
    } else {
        TextKind::Line
    }
}

/// Whether `s` starts with a code fence.
pub fn starts_with_fence(s: &Vec<char>) -> (b: bool)
    ensures
        b == opens_fence(s@),
{
    s.len() >= 3 && s[0] == '`' && s[1] == '`' && s[2] == '`'
}

/// Executable form of [`block_kind`].
pub fn kind_of_block(s: &Vec<char>) -> (k: TextKind)
    ensures
        k == block_kind(s@),
{
    if s.len() >= 1 && s[0] == '#' {
        TextKind::Heading
    } else if s.len() >= 1 && s[0] == '>' {
        TextKind::Blockquote
    } else if s.len() >= 2 && (s[0] == '-' || s[0] == '*' || s[0] == '+') && s[1] == ' ' {
        TextKind::ListItem
    } else {
        TextKind::Paragraph
    }
}

/// Executable form of [`line_kind`].
pub fn kind_of_line(s: &Vec<char>) -> (k: TextKind)
    ensures
        k == line_kind(s@),
{
    if starts_with_fence(s) {
        TextKind::CodeBlock
    } else if s.len() >= 1 && s[0] == '#' {
        TextKind::Heading
    } else if s.len() >= 1 && s[0] == '>' {
        TextKind::Blockquote
    } else if s.len() >= 2 && (s[0] == '-' || s[0] == '*' || s[0] == '+') && s[1] == ' ' {
        TextKind::ListItem
    } else {
        TextKind::Line
    }
}

/// Totals over a set of tiles.
#[derive(Debug, Clone)]
pub struct TextStats {
    pub total_chars: usize,
    pub total_words: usize,
    pub tile_count: usize,
}

} // verus!
