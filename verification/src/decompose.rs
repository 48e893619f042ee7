//! The decomposer: paragraphs, lines and words.
use vstd::prelude::*;
use crate::text::{chars_of, views, trim, trimmed, trim_bounds, lines, words, split_lines, split_words, append_chars};
use crate::tile::{
    TextKind, TextTile, make_tile, tiles_view, all_fresh, fresh_tile, numbered, block_kind, line_kind,
    opens_fence, kind_of_block, kind_of_line,
};

verus! {

/// Splits text into tiles.
pub struct TextDecomposer;

impl Default for TextDecomposer {
    fn default() -> (d: Self)
        ensures
            d == TextDecomposer,
    {
        TextDecomposer::new()
    }
}

// ---------------------------------------------------------------------------
// Models.

/// The word tiles of `c`: each word, in order, numbered from 0.
pub open spec fn word_tiles(c: Seq<char>) -> Seq<(Seq<char>, TextKind, int)> {
    let ws = words(c);
    Seq::new(ws.len(), |i: int| (ws[i], TextKind::Word, i))
}

/// The tiles of the first `n` lines of `ls`: each line that is not blank,
/// trimmed, with its kind and the line's own position among all lines.
pub open spec fn line_entries(ls: Seq<Seq<char>>, n: int) -> Seq<(Seq<char>, TextKind, int)>
    decreases n,
{
    if n <= 0 {
        seq![]
    } else {
        let prev = line_entries(ls, n - 1);
        let t = trim(ls[n - 1]);
        if t.len() > 0 {
            prev.push((t, line_kind(t), n - 1))
        } else {
            prev
        }
    }
}

/// The line tiles of `c`.
pub open spec fn line_tiles(c: Seq<char>) -> Seq<(Seq<char>, TextKind, int)> {
    line_entries(lines(c), lines(c).len() as int)
}

/// Where the paragraph scan stands after some lines: the blocks found so far,
/// the text gathered for the next one, and whether a code fence is open.
pub struct ParagraphScan {
    pub blocks: Seq<(Seq<char>, TextKind)>,
    pub current: Seq<char>,
    pub in_code: bool,
}

/// The scan before any line.
pub open spec fn scan_start() -> ParagraphScan {
    ParagraphScan { blocks: seq![], current: seq![], in_code: false }
}

/// Ends the gathered text as a block, if it holds more than whitespace; the
/// block's kind follows its first characters.
pub open spec fn flush_block(st: ParagraphScan) -> ParagraphScan {
    let t = trim(st.current);
    if t.len() > 0 {
        ParagraphScan { blocks: st.blocks.push((t, block_kind(t))), current: seq![], in_code: st.in_code }
    } else {
        st
    }
}

/// One line of the paragraph scan.
/// - A line that starts (after trimming) with a fence closes an open code block,
///   which then holds everything since its opening fence, both fences included;
///   or it ends the gathered paragraph and opens a code block.
/// - Inside a code block every line is kept as it is, with its line feed.
/// - A blank line ends the gathered paragraph.
/// - Any other line is trimmed and joined to the gathered paragraph by a space.
pub open spec fn scan_line(st: ParagraphScan, line: Seq<char>) -> ParagraphScan {
    let t = trim(line);
    let raw = line.push('\n');
    if opens_fence(t) {
        if st.in_code {
            let body = trim(st.current + raw);
            ParagraphScan {
                blocks: if body.len() > 0 {
                    st.blocks.push((body, TextKind::CodeBlock))
                } else {
                    st.blocks
                },
                current: seq![],
                in_code: false,
            }
        } else {
            let f = flush_block(st);
            ParagraphScan { blocks: f.blocks, current: f.current + raw, in_code: true }
        }
    } else if st.in_code {
        ParagraphScan { blocks: st.blocks, current: st.current + raw, in_code: true }
    } else if t.len() == 0 {
        flush_block(st)
    } else {
        ParagraphScan {
            blocks: st.blocks,
            current: if st.current.len() > 0 {
                st.current.push(' ') + t
            } else {
                t
            },
            in_code: false,
        }
    }
}

/// The scan after the first `n` lines of `ls`.
pub open spec fn scan_lines(ls: Seq<Seq<char>>, n: int) -> ParagraphScan
    decreases n,
{
    if n <= 0 {
        scan_start()
    } else {
        scan_line(scan_lines(ls, n - 1), ls[n - 1])
    }
}

/// The blocks at the end of the scan: what is still gathered becomes a last
/// block, a code block if a fence is still open.
pub open spec fn finish_scan(st: ParagraphScan) -> Seq<(Seq<char>, TextKind)> {
    let t = trim(st.current);
    if t.len() > 0 {
        st.blocks.push((t, if st.in_code { TextKind::CodeBlock } else { block_kind(t) }))
    } else {
        st.blocks
    }
}

/// The paragraph blocks of `c`, with their kinds.
pub open spec fn paragraph_blocks(c: Seq<char>) -> Seq<(Seq<char>, TextKind)> {
    finish_scan(scan_lines(lines(c), lines(c).len() as int))
}

// ---------------------------------------------------------------------------
// Executable decomposition.

/// Appends a tile for a block to `tiles`, numbered after the tiles already there.
pub(crate) fn push_block(tiles: &mut Vec<TextTile>, content: &Vec<char>, kind: TextKind)
    ensures
        tiles_view(final(tiles)@) == tiles_view(old(tiles)@).push((content@, kind, old(tiles).len() as int)),
        all_fresh(old(tiles)@) ==> all_fresh(final(tiles)@),
{
    let t = make_tile(content, kind, tiles.len() as u64);
    let ghost prev = tiles@;
    tiles.push(t);
    assert(tiles_view(tiles@) =~= tiles_view(prev).push((content@, kind, prev.len() as int)));
    assert(all_fresh(prev) ==> all_fresh(tiles@)) by {
        if all_fresh(prev) {
            assert forall|i: int| 0 <= i < tiles@.len() implies #[trigger] fresh_tile(tiles@[i]) by {
                if i < prev.len() {
                    assert(tiles@[i] == prev[i]);
                }
            }
        }
    }
}

/// Ends the gathered text `current` as a block, if it holds more than whitespace.
fn flush_gathered(tiles: &mut Vec<TextTile>, current: &mut Vec<char>)
    ensures
        trim(old(current)@).len() > 0 ==> {
            &&& tiles_view(final(tiles)@) == tiles_view(old(tiles)@).push(
                (trim(old(current)@), block_kind(trim(old(current)@)), old(tiles).len() as int),
            )
            &&& final(current)@ == Seq::<char>::empty()
        },
        trim(old(current)@).len() == 0 ==> {
            &&& final(tiles)@ == old(tiles)@
            &&& final(current)@ == old(current)@
        },
        all_fresh(old(tiles)@) ==> all_fresh(final(tiles)@),
{
    let t = trimmed(current);
    if t.len() > 0 {
        let kind = kind_of_block(&t);
        push_block(tiles, &t, kind);
        *current = Vec::new();
    }
}

/// Numbering a longer list of blocks extends the numbering of the shorter one.
proof fn lemma_numbered_push(blocks: Seq<(Seq<char>, TextKind)>, b: (Seq<char>, TextKind))
    ensures
        numbered(blocks.push(b)) == numbered(blocks).push((b.0, b.1, blocks.len() as int)),
{
    assert(numbered(blocks.push(b)) =~= numbered(blocks).push((b.0, b.1, blocks.len() as int)));
}

impl TextDecomposer {
    /// A decomposer.
    pub fn new() -> (d: Self)
        ensures
            d == TextDecomposer,
    {
        TextDecomposer
    }

    /// The kind of a paragraph's content, by its first characters: a heading
    /// (`#`), a quote (`>`), a list item (`- `, `* `, `+ `) or a paragraph.
    pub fn detect_block_kind(&self, content: &str) -> (k: TextKind)
        ensures
            k == block_kind(content@),
    {
        let c = chars_of(content);
        kind_of_block(&c)
    }

    /// The kind of a line, by its first characters: a code fence, a heading,
    /// a quote, a list item or a plain line.
    pub fn detect_line_kind(&self, line: &str) -> (k: TextKind)
        ensures
            k == line_kind(line@),
    {
        let c = chars_of(line);
        kind_of_line(&c)
    }

    /// Decompose text into words: the runs of non-whitespace characters,
    /// numbered from 0.
    pub fn decompose_words(&self, text: &str) -> (tiles: Vec<TextTile>)
        ensures
            tiles_view(tiles@) == word_tiles(text@),
            all_fresh(tiles@),
    {
        let c = chars_of(text);
        let ws = split_words(&c);
        let ghost wv = views(ws@);
        let mut tiles: Vec<TextTile> = Vec::new();
        for i in 0..ws.len()
            invariant
                wv == views(ws@),
                wv == words(c@),
                c@ == text@,
                tiles.len() == i,
                tiles_view(tiles@) == word_tiles(text@).take(i as int),
                all_fresh(tiles@),
        {
            push_block(&mut tiles, &ws[i], TextKind::Word);
            assert(word_tiles(text@).take(i + 1) =~= word_tiles(text@).take(i as int).push(
                (ws@[i as int]@, TextKind::Word, i as int),
            ));
        }
        assert(word_tiles(text@).take(ws.len() as int) =~= word_tiles(text@));
        tiles
    }

    /// Decompose text into paragraphs, separated by blank lines, aware of
    /// markdown: fenced code blocks stay whole, and each block's kind follows
    /// its first characters. The blocks are numbered from 0.
    pub fn decompose_paragraphs(&self, text: &str) -> (tiles: Vec<TextTile>)
        ensures
            tiles_view(tiles@) == numbered(paragraph_blocks(text@)),
            all_fresh(tiles@),
    {
        let c = chars_of(text);
        let ls = split_lines(&c);
        let ghost lv = views(ls@);
        let mut tiles: Vec<TextTile> = Vec::new();
        let mut current: Vec<char> = Vec::new();
        let mut in_code = false;
        for i in 0..ls.len()
            invariant
                lv == views(ls@),
                lv == lines(c@),
                c@ == text@,
                current@ == scan_lines(lv, i as int).current,
                in_code == scan_lines(lv, i as int).in_code,
                tiles_view(tiles@) == numbered(scan_lines(lv, i as int).blocks),
                all_fresh(tiles@),
        {
            let ghost st = scan_lines(lv, i as int);
            let ghost blocks_len = st.blocks.len();
            assert(tiles@.len() == blocks_len) by {
                assert(tiles_view(tiles@).len() == tiles@.len());
            }
            let line = &ls[i];
            assert(line@ == lv[i as int]);
            let (ta, tb) = trim_bounds(line, 0, line.len());
            assert(line@.subrange(0, line.len() as int) =~= line@);
            let ghost t = trim(line@);
            let fence = tb - ta >= 3 && line[ta] == '`' && line[ta + 1] == '`' && line[ta + 2] == '`';
            assert(fence == opens_fence(t));
            if fence {
                if in_code {
                    append_chars(&mut current, line);
                    current.push('\n');
                    assert(current@ =~= st.current + line@.push('\n'));
                    let body = trimmed(&current);
                    if body.len() > 0 {
                        push_block(&mut tiles, &body, TextKind::CodeBlock);
                        proof {
                            lemma_numbered_push(st.blocks, (body@, TextKind::CodeBlock));
                        }
                    }
                    current = Vec::new();
                    in_code = false;
                } else {
                    flush_gathered(&mut tiles, &mut current);
                    proof {
                        if trim(st.current).len() > 0 {
                            lemma_numbered_push(st.blocks, (trim(st.current), block_kind(trim(st.current))));
                        }
                    }
                    in_code = true;
                    let ghost f = current@;
                    append_chars(&mut current, line);
                    current.push('\n');
                    assert(current@ =~= f + line@.push('\n'));
                }
            } else if in_code {
                append_chars(&mut current, line);
                current.push('\n');
                assert(current@ =~= st.current + line@.push('\n'));
            } else if ta == tb {
                flush_gathered(&mut tiles, &mut current);
                proof {
                    if trim(st.current).len() > 0 {
                        lemma_numbered_push(st.blocks, (trim(st.current), block_kind(trim(st.current))));
                    }
                }
            } else {
                if current.len() > 0 {
                    current.push(' ');
                }
                let ghost g = current@;
                let piece = crate::text::copy_range(line, ta, tb);
                append_chars(&mut current, &piece);
                assert(current@ =~= g + t);
            }
            assert(scan_lines(lv, i + 1) == scan_line(st, lv[i as int]));
        }
        let ghost st = scan_lines(lv, ls.len() as int);
        assert(tiles@.len() == st.blocks.len()) by {
            assert(tiles_view(tiles@).len() == tiles@.len());
        }
        let t = trimmed(&current);
        if t.len() > 0 {
            let kind = if in_code {
                TextKind::CodeBlock
            } else {
                kind_of_block(&t)
            };
            push_block(&mut tiles, &t, kind);
            proof {
                lemma_numbered_push(st.blocks, (t@, kind));
            }
        }
        tiles
    }

    /// Decompose text into lines: each line that is not blank, trimmed, with
    /// the kind its first characters give and its position among all lines.
    pub fn decompose_lines(&self, text: &str) -> (tiles: Vec<TextTile>)
        ensures
            tiles_view(tiles@) == line_tiles(text@),
            all_fresh(tiles@),
    {
        let c = chars_of(text);
        let ls = split_lines(&c);
        let ghost lv = views(ls@);
        let mut tiles: Vec<TextTile> = Vec::new();
        for i in 0..ls.len()
            invariant
                lv == views(ls@),
                lv == lines(c@),
                c@ == text@,
                tiles.len() <= i,
                tiles_view(tiles@) == line_entries(lv, i as int),
                all_fresh(tiles@),
        {
            let t = trimmed(&ls[i]);
            assert(t@ == trim(lv[i as int]));
            if t.len() > 0 {
                let kind = kind_of_line(&t);
                let t2 = make_tile(&t, kind, i as u64);
                let ghost prev = tiles@;
                tiles.push(t2);
                assert(tiles_view(tiles@) =~= tiles_view(prev).push((t@, kind, i as int)));
                assert forall|j: int| 0 <= j < tiles@.len() implies #[trigger] fresh_tile(tiles@[j]) by {
                    if j < prev.len() {
                        assert(tiles@[j] == prev[j]);
                    }
                }
            }
        }
        tiles
    }
}

} // verus!
