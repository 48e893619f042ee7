//! Properties of the library as a whole.
use vstd::prelude::*;
use crate::chars::is_ws;
use crate::text::{
    join, words, words_from, word_len, trim, trim_start, trim_end, lines, lines_from, line_len, strip_cr, contains,
    lemma_word_len_bound,
};
use crate::tile::{
    TextKind, TextTile, tiles_view, tile_view, numbered, fresh_tile, all_fresh, line_kind, block_kind, opens_fence,
};
use crate::decompose::{
    TextDecomposer, word_tiles, paragraph_blocks, line_tiles, line_entries, scan_lines, scan_line, scan_start, ParagraphScan,
};
use crate::sentences::{
    sentences_by, numbered_sentences, sentences_from, sentence_gap, ends_sentence, is_terminal, alnum_run_start,
    short_capital_word, lemma_sentence_gap_skip,
};
use crate::language::{language_of, max_count, marker_count, english_markers, spanish_markers, french_markers, german_markers};
use crate::assemble::{first_later, reading_order, reconstruction, separator, is_block_kind, total_words, total_chars};

verus! {

// ---------------------------------------------------------------------------
// Reading order.

/// `o` lists the positions of `ts` in an order sorted by tile index, where
/// tiles of equal index keep the order in which they came.
pub open spec fn is_stable_sort_of(ts: Seq<TextTile>, o: Seq<usize>) -> bool {
    &&& o.len() == ts.len()
    &&& forall|k: int| 0 <= k < o.len() ==> #[trigger] o[k] < ts.len()
    &&& forall|a: int, b: int| 0 <= a < b < o.len() ==> o[a] != o[b]
    &&& forall|a: int, b: int|
        0 <= a < b < o.len() ==> ts[o[a] as int].index <= ts[o[b] as int].index
    &&& forall|a: int, b: int|
        0 <= a < b < o.len() && ts[o[a] as int].index == ts[o[b] as int].index ==> o[a] < o[b]
}

proof fn lemma_first_later(ts: Seq<TextTile>, o: Seq<usize>, key: u64, j: int)
    requires
        0 <= j <= o.len(),
    ensures
        j <= first_later(ts, o, key, j) <= o.len(),
        forall|k: int| j <= k < first_later(ts, o, key, j) ==> ts[o[k] as int].index <= key,
        first_later(ts, o, key, j) < o.len() ==> ts[o[first_later(ts, o, key, j)] as int].index > key,
    decreases o.len() - j,
{
    if j < o.len() && ts[o[j] as int].index <= key {
        lemma_first_later(ts, o, key, j + 1);
    }
}

proof fn lemma_reading_order_prefix(ts: Seq<TextTile>, n: int)
    requires
        0 <= n <= ts.len() <= usize::MAX,
    ensures
        is_stable_sort_of(ts.take(n), reading_order(ts, n)),
    decreases n,
{
    if n > 0 {
        lemma_reading_order_prefix(ts, n - 1);
        let o = reading_order(ts, n - 1);
        let key = ts[n - 1].index;
        let j = first_later(ts, o, key, 0);
        lemma_first_later(ts, o, key, 0);
        let o2 = reading_order(ts, n);
        assert(o2 == o.insert(j, (n - 1) as usize));
        o.insert_ensures(j, (n - 1) as usize);
        let p = ts.take(n - 1);
        let q = ts.take(n);
        assert forall|k: int| 0 <= k < o.len() implies #[trigger] ts[o[k] as int] == p[o[k] as int] && ts[o[k] as int] == q[o[k] as int] by {
            assert(o[k] < n - 1);
        }
        // everything placed after position j has an index above the key
        assert forall|k: int| j <= k < o.len() implies ts[o[k] as int].index > key by {
            if k > j {
                assert(p[o[j] as int].index <= p[o[k] as int].index);
            }
        }
        assert forall|k: int| 0 <= k < o2.len() implies #[trigger] o2[k] < q.len() && (o2[k] == n - 1 || o2[k] < n - 1) by {
            if k < j {
                assert(o2[k] == o[k]);
            } else if k > j {
                assert(o2[k] == o[k - 1]);
            }
        }
        assert forall|a: int, b: int| 0 <= a < b < o2.len() implies o2[a] != o2[b] && q[o2[a] as int].index <= q[o2[b] as int].index
            && (q[o2[a] as int].index == q[o2[b] as int].index ==> o2[a] < o2[b]) by {
            assert(q[n - 1] == ts[n - 1]);
            if b < j {
                assert(o2[a] == o[a] && o2[b] == o[b]);
                assert(q[o[a] as int] == p[o[a] as int] && q[o[b] as int] == p[o[b] as int]);
            } else if b == j {
                assert(o2[a] == o[a] && o2[b] == n - 1);
                assert(q[o[a] as int] == ts[o[a] as int]);
            } else if a < j {
                assert(o2[a] == o[a] && o2[b] == o[b - 1]);
                assert(q[o[a] as int] == ts[o[a] as int] && q[o[b - 1] as int] == ts[o[b - 1] as int]);
                assert(ts[o[b - 1] as int].index > key);
            } else if a == j {
                assert(o2[a] == n - 1 && o2[b] == o[b - 1]);
                assert(q[o[b - 1] as int] == ts[o[b - 1] as int]);
                assert(ts[o[b - 1] as int].index > key);
            } else {
                assert(o2[a] == o[a - 1] && o2[b] == o[b - 1]);
                assert(q[o[a - 1] as int] == p[o[a - 1] as int] && q[o[b - 1] as int] == p[o[b - 1] as int]);
            }
        }
    }
}

/// Reconstruction reads tiles in a stable sort by index: every position
/// appears once, indices never decrease along the order, and tiles of equal
/// index keep the order in which they were given.
pub proof fn law_reading_order_is_stable_sort(ts: Seq<TextTile>)
    requires
        ts.len() <= usize::MAX,
    ensures
        is_stable_sort_of(ts, reading_order(ts, ts.len() as int)),
{
    lemma_reading_order_prefix(ts, ts.len() as int);
    assert(ts.take(ts.len() as int) =~= ts);
}

/// Tiles already in order of their indices are read as they stand.
pub proof fn law_reading_order_of_ordered_tiles(ts: Seq<TextTile>)
    requires
        ts.len() <= usize::MAX,
        forall|a: int, b: int| 0 <= a < b < ts.len() ==> ts[a].index <= ts[b].index,
    ensures
        reading_order(ts, ts.len() as int) == Seq::new(ts.len(), |p: int| p as usize),
{
    lemma_ordered_prefix(ts, ts.len() as int);
}

proof fn lemma_ordered_prefix(ts: Seq<TextTile>, n: int)
    requires
        0 <= n <= ts.len() <= usize::MAX,
        forall|a: int, b: int| 0 <= a < b < ts.len() ==> ts[a].index <= ts[b].index,
    ensures
        reading_order(ts, n) == Seq::new(n as nat, |p: int| p as usize),
    decreases n,
{
    if n > 0 {
        lemma_ordered_prefix(ts, n - 1);
        let o = reading_order(ts, n - 1);
        let key = ts[n - 1].index;
        lemma_first_later(ts, o, key, 0);
        let j = first_later(ts, o, key, 0);
        if j < o.len() {
            assert(o[j] == j as usize);
            assert(ts[j].index <= key);
            assert(false);
        }
        o.insert_ensures(j, (n - 1) as usize);
        assert(reading_order(ts, n) =~= Seq::new(n as nat, |p: int| p as usize));
    }
}

/// Reconstructing tiles that are in order of their indices joins their
/// contents as they stand.
pub proof fn law_reconstruct_ordered_tiles(ts: Seq<TextTile>)
    requires
        ts.len() <= usize::MAX,
        forall|a: int, b: int| 0 <= a < b < ts.len() ==> ts[a].index <= ts[b].index,
    ensures
        reconstruction(ts) == join(ts.map_values(|t: TextTile| t.content@), separator(ts)),
{
    law_reading_order_of_ordered_tiles(ts);
    let o = reading_order(ts, ts.len() as int);
    assert forall|i: int| 0 <= i < o.len() implies o[i] as int == i by {}
    assert(o.map_values(|p: usize| ts[p as int].content@) =~= ts.map_values(|t: TextTile| t.content@));
}

/// The separator that reconstruction picks for tiles of the given kinds.
pub open spec fn separator_for_kinds(kinds: Seq<TextKind>) -> Seq<char> {
    if exists|i: int| 0 <= i < kinds.len() && is_block_kind(#[trigger] kinds[i]) {
        "\n\n"@
    } else {
        " "@
    }
}

proof fn lemma_reconstruct_numbered(ts: Seq<TextTile>, contents: Seq<Seq<char>>, kinds: Seq<TextKind>)
    requires
        ts.len() <= usize::MAX,
        ts.len() == contents.len(),
        ts.len() == kinds.len(),
        forall|i: int| 0 <= i < ts.len() ==> #[trigger] tile_view(ts[i]) == (contents[i], kinds[i], i),
    ensures
        reconstruction(ts) == join(contents, separator_for_kinds(kinds)),
{
    assert forall|a: int, b: int| 0 <= a < b < ts.len() implies ts[a].index <= ts[b].index by {
        assert(tile_view(ts[a]).2 == a && tile_view(ts[b]).2 == b);
    }
    law_reconstruct_ordered_tiles(ts);
    assert forall|i: int| 0 <= i < ts.len() implies ts[i].content@ == contents[i] && ts[i].kind == kinds[i] by {
        assert(tile_view(ts[i]) == (contents[i], kinds[i], i));
    }
    assert(ts.map_values(|t: TextTile| t.content@) =~= contents);
    if exists|i: int| 0 <= i < ts.len() && is_block_kind(#[trigger] ts[i].kind) {
        let i = choose|i: int| 0 <= i < ts.len() && is_block_kind(#[trigger] ts[i].kind);
        assert(is_block_kind(kinds[i]));
    } else {
        assert forall|i: int| 0 <= i < kinds.len() implies !is_block_kind(#[trigger] kinds[i]) by {
            assert(kinds[i] == ts[i].kind);
        }
    }
}

/// Reconstructing the word tiles of a text joins its words with single spaces.
pub proof fn law_reconstruct_words(text: Seq<char>, ts: Seq<TextTile>)
    requires
        ts.len() <= usize::MAX,
        tiles_view(ts) == word_tiles(text),
    ensures
        reconstruction(ts) == join(words(text), " "@),
{
    let ws = words(text);
    let kinds = Seq::new(ws.len(), |i: int| TextKind::Word);
    assert(tiles_view(ts).len() == ts.len());
    assert forall|i: int| 0 <= i < ts.len() implies #[trigger] tile_view(ts[i]) == (ws[i], kinds[i], i) by {
        assert(tiles_view(ts)[i] == word_tiles(text)[i]);
        assert(tiles_view(ts)[i] == tile_view(ts[i]));
    }
    lemma_reconstruct_numbered(ts, ws, kinds);
    assert(!exists|i: int| 0 <= i < kinds.len() && is_block_kind(#[trigger] kinds[i]));
}

/// Reconstructing the sentence tiles of a text joins its sentences with
/// single spaces (whatever the character classes).
pub proof fn law_reconstruct_sentences(text: Seq<char>, a: Seq<bool>, u: Seq<bool>, ts: Seq<TextTile>)
    requires
        ts.len() <= usize::MAX,
        tiles_view(ts) == numbered_sentences(sentences_by(text, a, u)),
    ensures
        reconstruction(ts) == join(sentences_by(text, a, u), " "@),
{
    let ss = sentences_by(text, a, u);
    let kinds = Seq::new(ss.len(), |i: int| TextKind::Sentence);
    assert(tiles_view(ts).len() == ts.len());
    assert forall|i: int| 0 <= i < ts.len() implies #[trigger] tile_view(ts[i]) == (ss[i], kinds[i], i) by {
        assert(tiles_view(ts)[i] == numbered_sentences(ss)[i]);
        assert(tiles_view(ts)[i] == tile_view(ts[i]));
    }
    lemma_reconstruct_numbered(ts, ss, kinds);
    assert(!exists|i: int| 0 <= i < kinds.len() && is_block_kind(#[trigger] kinds[i]));
}

/// Reconstructing the paragraph tiles of a text joins the blocks in order:
/// with a blank line between them when one of them is a paragraph, code
/// block or heading, else with a space.
pub proof fn law_reconstruct_paragraphs(text: Seq<char>, ts: Seq<TextTile>)
    requires
        ts.len() <= usize::MAX,
        tiles_view(ts) == numbered(paragraph_blocks(text)),
    ensures
        reconstruction(ts) == join(
            paragraph_blocks(text).map_values(|b: (Seq<char>, TextKind)| b.0),
            separator_for_kinds(paragraph_blocks(text).map_values(|b: (Seq<char>, TextKind)| b.1)),
        ),
{
    let bs = paragraph_blocks(text);
    let contents = bs.map_values(|b: (Seq<char>, TextKind)| b.0);
    let kinds = bs.map_values(|b: (Seq<char>, TextKind)| b.1);
    assert(tiles_view(ts).len() == ts.len());
    assert forall|i: int| 0 <= i < ts.len() implies #[trigger] tile_view(ts[i]) == (contents[i], kinds[i], i) by {
        assert(tiles_view(ts)[i] == numbered(bs)[i]);
        assert(tiles_view(ts)[i] == tile_view(ts[i]));
    }
    lemma_reconstruct_numbered(ts, contents, kinds);
}

// ---------------------------------------------------------------------------
// Trimming and words.

/// The content is not empty and has no whitespace at either end.
pub open spec fn is_trimmed_text(s: Seq<char>) -> bool {
    s.len() > 0 && !is_ws(s[0]) && !is_ws(s.last())
}

/// Every character of `s` is whitespace.
pub open spec fn is_blank(s: Seq<char>) -> bool {
    forall|k: int| 0 <= k < s.len() ==> #[trigger] is_ws(s[k])
}

proof fn lemma_trim_start_front(s: Seq<char>)
    ensures
        trim_start(s).len() > 0 ==> !is_ws(trim_start(s)[0]),
        is_blank(s) ==> trim_start(s).len() == 0,
    decreases s.len(),
{
    if s.len() > 0 && is_ws(s[0]) {
        lemma_trim_start_front(s.drop_first());
        if is_blank(s) {
            assert forall|k: int| 0 <= k < s.drop_first().len() implies #[trigger] is_ws(s.drop_first()[k]) by {
                assert(s.drop_first()[k] == s[k + 1]);
            }
        }
    } else if s.len() > 0 {
        assert(!is_blank(s) || !is_ws(s[0]));
    }
}

proof fn lemma_trim_end_prefix(s: Seq<char>)
    ensures
        trim_end(s).len() <= s.len(),
        trim_end(s) == s.take(trim_end(s).len() as int),
        trim_end(s).len() > 0 ==> !is_ws(trim_end(s).last()),
    decreases s.len(),
{
    if s.len() > 0 && is_ws(s.last()) {
        lemma_trim_end_prefix(s.drop_last());
        let t = trim_end(s.drop_last());
        assert(s.drop_last().take(t.len() as int) =~= s.take(t.len() as int));
    } else {
        assert(s.take(s.len() as int) =~= s);
    }
}

/// A trimmed text that is not empty starts and ends with a character that is
/// not whitespace; a blank text trims to nothing.
pub proof fn law_trim_ends(s: Seq<char>)
    ensures
        trim(s).len() > 0 ==> is_trimmed_text(trim(s)),
        is_blank(s) ==> trim(s).len() == 0,
{
    lemma_trim_start_front(s);
    lemma_trim_end_prefix(trim_start(s));
    let t = trim_start(s);
    if trim(s).len() > 0 {
        assert(trim(s)[0] == t[0]);
    }
}

proof fn lemma_word_len_chars(c: Seq<char>, i: int)
    requires
        0 <= i <= c.len(),
    ensures
        i + word_len(c, i) <= c.len(),
        forall|k: int| i <= k < i + word_len(c, i) ==> !is_ws(#[trigger] c[k]),
    decreases c.len() - i,
{
    if i < c.len() && !is_ws(c[i]) {
        lemma_word_len_chars(c, i + 1);
    }
}

proof fn lemma_words_from_shape(c: Seq<char>, i: int)
    requires
        0 <= i <= c.len(),
    ensures
        forall|j: int| 0 <= j < words_from(c, i).len() ==> {
            &&& (#[trigger] words_from(c, i)[j]).len() > 0
            &&& forall|k: int| 0 <= k < words_from(c, i)[j].len() ==> !is_ws(#[trigger] words_from(c, i)[j][k])
        },
        is_blank(c.subrange(i, c.len() as int)) ==> words_from(c, i).len() == 0,
    decreases c.len() - i,
{
    if i < c.len() {
        if is_ws(c[i]) {
            lemma_words_from_shape(c, i + 1);
            assert(words_from(c, i) == words_from(c, i + 1));
            if is_blank(c.subrange(i, c.len() as int)) {
                assert forall|k: int| 0 <= k < c.subrange(i + 1, c.len() as int).len() implies #[trigger] is_ws(c.subrange(i + 1, c.len() as int)[k]) by {
                    assert(c.subrange(i + 1, c.len() as int)[k] == c.subrange(i, c.len() as int)[k + 1]);
                }
            }
        } else {
            lemma_word_len_bound(c, i);
            lemma_word_len_chars(c, i);
            let b = i + word_len(c, i);
            lemma_words_from_shape(c, b);
            let w = c.subrange(i, b);
            assert forall|j: int| 0 <= j < words_from(c, i).len() implies {
                &&& (#[trigger] words_from(c, i)[j]).len() > 0
                &&& forall|k: int| 0 <= k < words_from(c, i)[j].len() ==> !is_ws(#[trigger] words_from(c, i)[j][k])
            } by {
                if j == 0 {
                    assert(words_from(c, i)[0] == w);
                    assert forall|k: int| 0 <= k < w.len() implies !is_ws(#[trigger] w[k]) by {
                        assert(w[k] == c[i + k]);
                    }
                } else {
                    assert(words_from(c, i)[j] == words_from(c, b)[j - 1]);
                }
            }
            assert(!is_blank(c.subrange(i, c.len() as int))) by {
                assert(c.subrange(i, c.len() as int)[0] == c[i]);
            }
        }
    }
}

/// The words of a text are not empty and hold no whitespace; a blank text has none.
pub proof fn law_words_are_runs(c: Seq<char>)
    ensures
        forall|j: int| 0 <= j < words(c).len() ==> {
            &&& (#[trigger] words(c)[j]).len() > 0
            &&& forall|k: int| 0 <= k < words(c)[j].len() ==> !is_ws(#[trigger] words(c)[j][k])
        },
        is_blank(c) ==> words(c).len() == 0,
{
    lemma_words_from_shape(c, 0);
    assert(c.subrange(0, c.len() as int) =~= c);
}

/// A word, split into words, is itself alone.
pub proof fn law_word_is_one_word(w: Seq<char>)
    requires
        w.len() > 0,
        forall|k: int| 0 <= k < w.len() ==> !is_ws(#[trigger] w[k]),
    ensures
        words(w) == seq![w],
{
    lemma_word_len_skip_all(w, 0);
    assert(word_len(w, w.len() as int) == 0);
    assert(w.subrange(0, w.len() as int) =~= w);
    assert(words_from(w, w.len() as int) == Seq::<Seq<char>>::empty());
    assert(words(w) =~= seq![w]);
}

proof fn lemma_word_len_skip_all(w: Seq<char>, a: int)
    requires
        0 <= a <= w.len(),
        forall|k: int| 0 <= k < w.len() ==> !is_ws(#[trigger] w[k]),
    ensures
        word_len(w, a) == w.len() - a,
    decreases w.len() - a,
{
    if a < w.len() {
        lemma_word_len_skip_all(w, a + 1);
    }
}

proof fn lemma_total_words_all_one(ts: Seq<TextTile>)
    requires
        forall|i: int| 0 <= i < ts.len() ==> #[trigger] ts[i].word_count == 1,
    ensures
        total_words(ts) == ts.len(),
    decreases ts.len(),
{
    if ts.len() > 0 {
        lemma_total_words_all_one(ts.drop_last());
    }
}

/// Each word tile holds one word, of at least one character; so the word
/// total of the word tiles of a text is their number.
pub proof fn law_word_tiles_hold_one_word(text: Seq<char>, ts: Seq<TextTile>)
    requires
        tiles_view(ts) == word_tiles(text),
        all_fresh(ts),
    ensures
        forall|i: int| 0 <= i < ts.len() ==> #[trigger] ts[i].word_count == 1 && ts[i].char_count >= 1,
        total_words(ts) == ts.len(),
{
    assert(tiles_view(ts).len() == ts.len());
    law_words_are_runs(text);
    assert forall|i: int| 0 <= i < ts.len() implies #[trigger] ts[i].word_count == 1 && ts[i].char_count >= 1 by {
        assert(tiles_view(ts)[i] == tile_view(ts[i]));
        assert(tiles_view(ts)[i] == word_tiles(text)[i]);
        let w = words(text)[i];
        assert(ts[i].content@ == w);
        assert(fresh_tile(ts[i]));
        law_word_is_one_word(w);
    }
    lemma_total_words_all_one(ts);
}

// ---------------------------------------------------------------------------
// Sentences.

proof fn lemma_sentences_from_shape(c: Seq<char>, a: Seq<bool>, u: Seq<bool>, i: int)
    requires
        0 <= i <= c.len(),
    ensures
        forall|j: int| 0 <= j < sentences_from(c, a, u, i).len() ==> is_trimmed_text(#[trigger] sentences_from(c, a, u, i)[j]),
        is_blank(c.subrange(i, c.len() as int)) ==> sentences_from(c, a, u, i).len() == 0,
    decreases c.len() - i,
{
    if i < c.len() {
        let k = i + sentence_gap(c, a, u, i);
        lemma_sentence_gap_bound(c, a, u, i);
        if k < c.len() {
            lemma_sentences_from_shape(c, a, u, k + 1);
            let piece = c.subrange(i, k + 1);
            law_trim_ends(piece);
            let rest = sentences_from(c, a, u, k + 1);
            assert forall|j: int| 0 <= j < sentences_from(c, a, u, i).len() implies is_trimmed_text(#[trigger] sentences_from(c, a, u, i)[j]) by {
                if trim(piece).len() > 0 {
                    if j > 0 {
                        assert(sentences_from(c, a, u, i)[j] == rest[j - 1]);
                    }
                } else {
                    assert(sentences_from(c, a, u, i)[j] == rest[j]);
                }
            }
            if is_blank(c.subrange(i, c.len() as int)) {
                assert forall|m: int| 0 <= m < piece.len() implies #[trigger] is_ws(piece[m]) by {
                    assert(piece[m] == c.subrange(i, c.len() as int)[m]);
                }
                assert forall|m: int| 0 <= m < c.subrange(k + 1, c.len() as int).len() implies #[trigger] is_ws(c.subrange(k + 1, c.len() as int)[m]) by {
                    assert(c.subrange(k + 1, c.len() as int)[m] == c.subrange(i, c.len() as int)[m + k + 1 - i]);
                }
            }
        } else {
            let piece = c.subrange(i, c.len() as int);
            law_trim_ends(piece);
        }
    }
}

proof fn lemma_sentence_gap_bound(c: Seq<char>, a: Seq<bool>, u: Seq<bool>, i: int)
    requires
        0 <= i <= c.len(),
    ensures
        i + sentence_gap(c, a, u, i) <= c.len(),
    decreases c.len() - i,
{
    if i < c.len() {
        lemma_sentence_gap_bound(c, a, u, i + 1);
    }
}

/// Every sentence is trimmed and not empty; a blank text has no sentences
/// (whatever the character classes).
pub proof fn law_sentences_are_trimmed(c: Seq<char>, a: Seq<bool>, u: Seq<bool>)
    ensures
        forall|j: int| 0 <= j < sentences_by(c, a, u).len() ==> is_trimmed_text(#[trigger] sentences_by(c, a, u)[j]),
        is_blank(c) ==> sentences_by(c, a, u).len() == 0,
{
    lemma_sentences_from_shape(c, a, u, 0);
    assert(c.subrange(0, c.len() as int) =~= c);
}

// ---------------------------------------------------------------------------
// Lines.

/// Each line tile is a trimmed line that is not blank, with the kind its first
/// characters give and the position of its line; the positions increase.
pub open spec fn lines_entries_ok(ls: Seq<Seq<char>>, es: Seq<(Seq<char>, TextKind, int)>, n: int) -> bool {
    &&& forall|j: int| 0 <= j < es.len() ==> 0 <= (#[trigger] es[j]).2 < n
    &&& forall|j: int| 0 <= j < es.len() ==> (#[trigger] es[j]).0 == trim(ls[es[j].2])
    &&& forall|j: int| 0 <= j < es.len() ==> is_trimmed_text((#[trigger] es[j]).0)
    &&& forall|j: int| 0 <= j < es.len() ==> (#[trigger] es[j]).1 == line_kind(es[j].0)
    &&& forall|a: int, b: int| 0 <= a < b < es.len() ==> es[a].2 < es[b].2
}

proof fn lemma_line_entries(ls: Seq<Seq<char>>, n: int)
    requires
        0 <= n <= ls.len(),
    ensures
        lines_entries_ok(ls, line_entries(ls, n), n),
        (forall|j: int| 0 <= j < ls.len() ==> is_blank(#[trigger] ls[j])) ==> line_entries(ls, n).len() == 0,
    decreases n,
{
    if n > 0 {
        lemma_line_entries(ls, n - 1);
        law_trim_ends(ls[n - 1]);
        let prev = line_entries(ls, n - 1);
        let t = trim(ls[n - 1]);
        if t.len() > 0 {
            let es = line_entries(ls, n);
            assert(es == prev.push((t, line_kind(t), n - 1)));
            assert forall|a: int, b: int| 0 <= a < b < es.len() implies es[a].2 < es[b].2 by {
                assert(es[a] == prev[a]);
                if b < prev.len() {
                    assert(es[b] == prev[b]);
                }
            }
            assert forall|j: int| 0 <= j < es.len() implies 0 <= (#[trigger] es[j]).2 < n && es[j].0 == trim(ls[es[j].2])
                && is_trimmed_text(es[j].0) && es[j].1 == line_kind(es[j].0) by {
                if j < prev.len() {
                    assert(es[j] == prev[j]);
                }
            }
        }
    }
}

proof fn lemma_lines_from_blank(c: Seq<char>, i: int)
    requires
        0 <= i <= c.len(),
        is_blank(c),
    ensures
        forall|j: int| 0 <= j < lines_from(c, i).len() ==> is_blank(#[trigger] lines_from(c, i)[j]),
    decreases c.len() - i,
{
    if i < c.len() {
        let k = i + line_len(c, i);
        lemma_line_len_bound(c, i);
        let piece = c.subrange(i, k);
        assert(is_blank(piece)) by {
            assert forall|m: int| 0 <= m < piece.len() implies #[trigger] is_ws(piece[m]) by {
                assert(piece[m] == c[i + m]);
            }
        }
        if k < c.len() {
            lemma_lines_from_blank(c, k + 1);
            assert(is_blank(strip_cr(piece))) by {
                assert forall|m: int| 0 <= m < strip_cr(piece).len() implies #[trigger] is_ws(strip_cr(piece)[m]) by {
                    assert(strip_cr(piece)[m] == piece[m]);
                }
            }
            assert forall|j: int| 0 <= j < lines_from(c, i).len() implies is_blank(#[trigger] lines_from(c, i)[j]) by {
                if j > 0 {
                    assert(lines_from(c, i)[j] == lines_from(c, k + 1)[j - 1]);
                }
            }
        } else {
            assert(c.subrange(i, c.len() as int) == piece);
        }
    }
}

proof fn lemma_line_len_bound(c: Seq<char>, i: int)
    requires
        0 <= i <= c.len(),
    ensures
        i + line_len(c, i) <= c.len(),
    decreases c.len() - i,
{
    if i < c.len() {
        lemma_line_len_bound(c, i + 1);
    }
}

/// The line tiles of a text are its lines that are not blank, trimmed, in
/// order of their positions among all lines, each with the kind its first
/// characters give; a blank text has none.
pub proof fn law_line_tiles_follow_lines(c: Seq<char>)
    ensures
        lines_entries_ok(lines(c), line_tiles(c), lines(c).len() as int),
        is_blank(c) ==> line_tiles(c).len() == 0,
{
    lemma_line_entries(lines(c), lines(c).len() as int);
    if is_blank(c) {
        lemma_lines_from_blank(c, 0);
    }
}

/// Reconstructing the line tiles of a text joins their contents in order.
pub proof fn law_reconstruct_lines(text: Seq<char>, ts: Seq<TextTile>)
    requires
        ts.len() <= usize::MAX,
        tiles_view(ts) == line_tiles(text),
    ensures
        reconstruction(ts) == join(
            line_tiles(text).map_values(|e: (Seq<char>, TextKind, int)| e.0),
            separator_for_kinds(line_tiles(text).map_values(|e: (Seq<char>, TextKind, int)| e.1)),
        ),
{
    let es = line_tiles(text);
    law_line_tiles_follow_lines(text);
    assert(tiles_view(ts).len() == ts.len());
    assert forall|i: int| 0 <= i < ts.len() implies #[trigger] tile_view(ts[i]) == es[i] by {
        assert(tiles_view(ts)[i] == tile_view(ts[i]));
    }
    assert forall|a: int, b: int| 0 <= a < b < ts.len() implies ts[a].index <= ts[b].index by {
        assert(tile_view(ts[a]) == es[a] && tile_view(ts[b]) == es[b]);
    }
    law_reconstruct_ordered_tiles(ts);
    let contents = es.map_values(|e: (Seq<char>, TextKind, int)| e.0);
    let kinds = es.map_values(|e: (Seq<char>, TextKind, int)| e.1);
    assert forall|i: int| 0 <= i < ts.len() implies ts[i].content@ == contents[i] && ts[i].kind == kinds[i] by {
        assert(tile_view(ts[i]) == es[i]);
    }
    assert(ts.map_values(|t: TextTile| t.content@) =~= contents);
    if exists|i: int| 0 <= i < ts.len() && is_block_kind(#[trigger] ts[i].kind) {
        let i = choose|i: int| 0 <= i < ts.len() && is_block_kind(#[trigger] ts[i].kind);
        assert(is_block_kind(kinds[i]));
    } else {
        assert forall|i: int| 0 <= i < kinds.len() implies !is_block_kind(#[trigger] kinds[i]) by {
            assert(kinds[i] == ts[i].kind);
        }
    }
}

// ---------------------------------------------------------------------------
// Paragraphs.

/// Every block is trimmed and not empty, and is a code block or has the kind
/// its first characters give.
pub open spec fn blocks_ok(bs: Seq<(Seq<char>, TextKind)>) -> bool {
    forall|j: int| 0 <= j < bs.len() ==> {
        &&& is_trimmed_text((#[trigger] bs[j]).0)
        &&& (bs[j].1 == TextKind::CodeBlock || bs[j].1 == block_kind(bs[j].0))
    }
}

proof fn lemma_blocks_push(bs: Seq<(Seq<char>, TextKind)>, b: (Seq<char>, TextKind))
    requires
        blocks_ok(bs),
        is_trimmed_text(b.0),
        b.1 == TextKind::CodeBlock || b.1 == block_kind(b.0),
    ensures
        blocks_ok(bs.push(b)),
{
    assert forall|j: int| 0 <= j < bs.push(b).len() implies {
        &&& is_trimmed_text((#[trigger] bs.push(b)[j]).0)
        &&& (bs.push(b)[j].1 == TextKind::CodeBlock || bs.push(b)[j].1 == block_kind(bs.push(b)[j].0))
    } by {
        if j < bs.len() {
            assert(bs.push(b)[j] == bs[j]);
        }
    }
}

proof fn lemma_scan_lines_ok(ls: Seq<Seq<char>>, n: int)
    requires
        0 <= n <= ls.len(),
    ensures
        blocks_ok(scan_lines(ls, n).blocks),
        (forall|j: int| 0 <= j < ls.len() ==> is_blank(#[trigger] ls[j])) ==> scan_lines(ls, n) == scan_start(),
    decreases n,
{
    if n > 0 {
        lemma_scan_lines_ok(ls, n - 1);
        let st = scan_lines(ls, n - 1);
        let line = ls[n - 1];
        let t = trim(line);
        law_trim_ends(line);
        law_trim_ends(st.current);
        law_trim_ends(st.current + line.push('\n'));
        if trim(st.current).len() > 0 {
            lemma_blocks_push(st.blocks, (trim(st.current), block_kind(trim(st.current))));
        }
        if trim(st.current + line.push('\n')).len() > 0 {
            lemma_blocks_push(st.blocks, (trim(st.current + line.push('\n')), TextKind::CodeBlock));
        }
        assert(scan_lines(ls, n) == scan_line(st, line));
        if forall|j: int| 0 <= j < ls.len() ==> is_blank(#[trigger] ls[j]) {
            assert(is_blank(ls[n - 1]));
            assert(st.current.len() == 0);
            assert(trim(st.current) == st.current);
            assert(scan_line(st, line) == st);
        }
    }
}

/// Every paragraph block is trimmed and not empty, and is a code block or has
/// the kind its first characters give; a blank text has no blocks.
pub proof fn law_paragraph_blocks_are_trimmed(c: Seq<char>)
    ensures
        blocks_ok(paragraph_blocks(c)),
        is_blank(c) ==> paragraph_blocks(c).len() == 0,
{
    let ls = lines(c);
    lemma_scan_lines_ok(ls, ls.len() as int);
    let st = scan_lines(ls, ls.len() as int);
    law_trim_ends(st.current);
    if trim(st.current).len() > 0 {
        let t = trim(st.current);
        lemma_blocks_push(st.blocks, (t, if st.in_code { TextKind::CodeBlock } else { block_kind(t) }));
    }
    if is_blank(c) {
        lemma_lines_from_blank(c, 0);
        assert(st == scan_start());
        assert(trim(st.current) == st.current);
    }
}

// ---------------------------------------------------------------------------
// Language.

proof fn lemma_marker_count_zero(s: Seq<char>, ms: Seq<Seq<char>>)
    ensures
        marker_count(s, ms) == 0 <==> forall|k: int| 0 <= k < ms.len() ==> !contains(s, #[trigger] ms[k]),
    decreases ms.len(),
{
    if ms.len() > 0 {
        lemma_marker_count_zero(s, ms.drop_last());
        if marker_count(s, ms) == 0 {
            assert forall|k: int| 0 <= k < ms.len() implies !contains(s, #[trigger] ms[k]) by {
                if k < ms.len() - 1 {
                    assert(ms[k] == ms.drop_last()[k]);
                }
            }
        } else if forall|k: int| 0 <= k < ms.len() ==> !contains(s, #[trigger] ms[k]) {
            assert forall|k: int| 0 <= k < ms.drop_last().len() implies !contains(s, #[trigger] ms.drop_last()[k]) by {
                assert(ms.drop_last()[k] == ms[k]);
            }
            assert(!contains(s, ms[ms.len() - 1]));
        }
    }
}

/// All markers of the four languages.
pub open spec fn all_markers() -> Seq<Seq<char>> {
    english_markers() + spanish_markers() + french_markers() + german_markers()
}

/// Language detection answers nothing exactly when no marker of any language
/// occurs in the lower-cased text, and otherwise one of "en", "es", "fr", "de".
pub proof fn law_language_absent_iff_no_marker(lower: Seq<char>)
    ensures
        language_of(lower) is None <==> forall|k: int| 0 <= k < all_markers().len() ==> !contains(lower, #[trigger] all_markers()[k]),
        language_of(lower) is Some ==> {
            ||| language_of(lower) == Some("en"@)
            ||| language_of(lower) == Some("es"@)
            ||| language_of(lower) == Some("fr"@)
            ||| language_of(lower) == Some("de"@)
        },
{
    let en = english_markers();
    let es = spanish_markers();
    let fr = french_markers();
    let de = german_markers();
    lemma_marker_count_zero(lower, en);
    lemma_marker_count_zero(lower, es);
    lemma_marker_count_zero(lower, fr);
    lemma_marker_count_zero(lower, de);
    let all = all_markers();
    assert(all.len() == 40);
    assert forall|k: int| 0 <= k < 10 implies all[k] == en[k] && all[k + 10] == es[k] && all[k + 20] == fr[k] && all[k + 30] == de[k] by {}
    if forall|k: int| 0 <= k < all.len() ==> !contains(lower, #[trigger] all[k]) {
        assert forall|k: int| 0 <= k < 10 implies !contains(lower, #[trigger] en[k]) by { assert(all[k] == en[k]); }
        assert forall|k: int| 0 <= k < 10 implies !contains(lower, #[trigger] es[k]) by { assert(all[k + 10] == es[k]); }
        assert forall|k: int| 0 <= k < 10 implies !contains(lower, #[trigger] fr[k]) by { assert(all[k + 20] == fr[k]); }
        assert forall|k: int| 0 <= k < 10 implies !contains(lower, #[trigger] de[k]) by { assert(all[k + 30] == de[k]); }
    }
    if language_of(lower) is None {
        assert forall|k: int| 0 <= k < all.len() implies !contains(lower, #[trigger] all[k]) by {
            if k < 10 {
                assert(all[k] == en[k]);
            } else if k < 20 {
                assert(all[k] == es[k - 10]);
            } else if k < 30 {
                assert(all[k] == fr[k - 20]);
            } else {
                assert(all[k] == de[k - 30]);
            }
        }
    }
}

// ---------------------------------------------------------------------------
// Words of joined text.

proof fn lemma_word_len_shift(x: Seq<char>, y: Seq<char>, j: int)
    requires
        0 <= j <= y.len(),
    ensures
        word_len(x + y, x.len() + j) == word_len(y, j),
    decreases y.len() - j,
{
    if j < y.len() {
        assert((x + y)[x.len() + j] == y[j]);
        lemma_word_len_shift(x, y, j + 1);
    }
}

proof fn lemma_words_from_shift(x: Seq<char>, y: Seq<char>, j: int)
    requires
        0 <= j <= y.len(),
    ensures
        words_from(x + y, x.len() + j) == words_from(y, j),
    decreases y.len() - j,
{
    if j < y.len() {
        assert((x + y)[x.len() + j] == y[j]);
        if is_ws(y[j]) {
            lemma_words_from_shift(x, y, j + 1);
        } else {
            lemma_word_len_shift(x, y, j);
            lemma_word_len_bound(y, j);
            let b = j + word_len(y, j);
            lemma_words_from_shift(x, y, b);
            assert((x + y).subrange(x.len() + j, x.len() + b) =~= y.subrange(j, b));
        }
    }
}

/// Text may be cut into two where one side of the cut is whitespace.
pub open spec fn cut_at_blank(x: Seq<char>, y: Seq<char>) -> bool {
    x.len() == 0 || y.len() == 0 || is_ws(x.last()) || is_ws(y[0])
}

proof fn lemma_word_len_concat(x: Seq<char>, y: Seq<char>, i: int)
    requires
        0 <= i < x.len(),
        !is_ws(x[i]),
        cut_at_blank(x, y),
    ensures
        word_len(x + y, i) == word_len(x, i),
        i + word_len(x, i) <= x.len(),
    decreases x.len() - i,
{
    assert((x + y)[i] == x[i]);
    if i + 1 < x.len() {
        if !is_ws(x[i + 1]) {
            lemma_word_len_concat(x, y, i + 1);
        } else {
            assert((x + y)[i + 1] == x[i + 1]);
            assert(word_len(x, i + 1) == 0);
            assert(word_len(x + y, i + 1) == 0);
        }
    } else {
        // i is the last position of x, which is then not whitespace
        assert(x.last() == x[i]);
        assert(word_len(x, i + 1) == 0);
        if y.len() > 0 {
            assert((x + y)[i + 1] == y[0]);
        }
        assert(word_len(x + y, i + 1) == 0);
    }
}

proof fn lemma_words_from_concat(x: Seq<char>, y: Seq<char>, i: int)
    requires
        0 <= i <= x.len(),
        cut_at_blank(x, y),
    ensures
        words_from(x + y, i) == words_from(x, i) + words(y),
    decreases x.len() - i,
{
    if i == x.len() {
        lemma_words_from_shift(x, y, 0);
        assert(words_from(x, i) =~= Seq::<Seq<char>>::empty());
        assert(words_from(x, i) + words(y) =~= words(y));
    } else {
        assert((x + y)[i] == x[i]);
        if is_ws(x[i]) {
            lemma_words_from_concat(x, y, i + 1);
        } else {
            lemma_word_len_concat(x, y, i);
            lemma_word_len_bound(x, i);
            let b = i + word_len(x, i);
            lemma_words_from_concat(x, y, b);
            assert((x + y).subrange(i, b) =~= x.subrange(i, b));
            assert(words_from(x + y, i) =~= words_from(x, i) + words(y));
        }
    }
}

/// Splitting text into words where it is cut at whitespace gives the words of
/// each side, in order.
pub proof fn law_words_of_concat(x: Seq<char>, y: Seq<char>)
    requires
        cut_at_blank(x, y),
    ensures
        words(x + y) == words(x) + words(y),
{
    lemma_words_from_concat(x, y, 0);
}

/// Joining words with single spaces and splitting the result into words gives
/// the same words back.
pub proof fn law_words_of_joined_words(ws: Seq<Seq<char>>)
    requires
        forall|j: int| 0 <= j < ws.len() ==> {
            &&& (#[trigger] ws[j]).len() > 0
            &&& forall|k: int| 0 <= k < ws[j].len() ==> !is_ws(#[trigger] ws[j][k])
        },
    ensures
        words(join(ws, " "@)) == ws,
    decreases ws.len(),
{
    reveal_strlit(" ");
    if ws.len() == 0 {
        assert(words(join(ws, " "@)) =~= ws);
    } else if ws.len() == 1 {
        law_word_is_one_word(ws[0]);
    } else {
        let front = ws.drop_last();
        let w = ws.last();
        law_words_of_joined_words(front);
        let jf = join(front, " "@);
        law_word_is_one_word(w);
        law_words_of_concat(jf, " "@);
        assert(words(" "@) =~= Seq::<Seq<char>>::empty()) by {
            assert(words_from(" "@, 1) =~= Seq::<Seq<char>>::empty());
        }
        law_words_of_concat(jf + " "@, w);
        assert(join(ws, " "@) == jf + " "@ + w);
        assert(words(join(ws, " "@)) =~= ws);
    }
}

/// Reconstructing the word tiles of a text and splitting the result into
/// words again gives the words of the text: reconstruction only normalises
/// the whitespace between words.
pub proof fn law_word_reconstruction_keeps_words(text: Seq<char>, ts: Seq<TextTile>)
    requires
        ts.len() <= usize::MAX,
        tiles_view(ts) == word_tiles(text),
    ensures
        words(reconstruction(ts)) == words(text),
{
    law_reconstruct_words(text, ts);
    law_words_are_runs(text);
    law_words_of_joined_words(words(text));
}

// ---------------------------------------------------------------------------
// Sentence marks.

proof fn lemma_trim_start_suffix(s: Seq<char>)
    ensures
        trim_start(s).len() <= s.len(),
        trim_start(s) == s.skip(s.len() - trim_start(s).len()),
    decreases s.len(),
{
    if s.len() > 0 && is_ws(s[0]) {
        lemma_trim_start_suffix(s.drop_first());
        let t = trim_start(s.drop_first());
        assert(s.drop_first().skip(s.drop_first().len() - t.len()) =~= s.skip(s.len() - t.len()));
    } else {
        assert(s.skip(0) =~= s);
    }
}

/// Trimming keeps a last character that is not whitespace.
proof fn lemma_trim_keeps_last(s: Seq<char>)
    requires
        s.len() > 0,
        !is_ws(s.last()),
    ensures
        trim(s).len() > 0,
        trim(s).last() == s.last(),
{
    lemma_trim_start_suffix(s);
    let t = trim_start(s);
    if t.len() == 0 {
        // trim_start only drops whitespace, so it cannot drop the last character
        lemma_trim_start_nonblank(s);
    }
    assert(t.last() == s.last());
    assert(trim_end(t) == t);
}

proof fn lemma_trim_start_nonblank(s: Seq<char>)
    requires
        s.len() > 0,
        !is_ws(s.last()),
    ensures
        trim_start(s).len() > 0,
    decreases s.len(),
{
    if is_ws(s[0]) {
        assert(s.drop_first().last() == s.last());
        lemma_trim_start_nonblank(s.drop_first());
    }
}

proof fn lemma_sentence_gap_stops(c: Seq<char>, a: Seq<bool>, u: Seq<bool>, i: int)
    requires
        0 <= i <= c.len(),
        i + sentence_gap(c, a, u, i) < c.len(),
    ensures
        ends_sentence(c, a, u, i + sentence_gap(c, a, u, i)),
    decreases c.len() - i,
{
    if i < c.len() && !ends_sentence(c, a, u, i) {
        lemma_sentence_gap_stops(c, a, u, i + 1);
    }
}

proof fn lemma_sentences_end_with_mark(c: Seq<char>, a: Seq<bool>, u: Seq<bool>, i: int)
    requires
        0 <= i <= c.len(),
    ensures
        forall|j: int| 0 <= j < sentences_from(c, a, u, i).len() - 1 ==> is_terminal(#[trigger] sentences_from(c, a, u, i)[j].last()),
    decreases c.len() - i,
{
    if i < c.len() {
        let k = i + sentence_gap(c, a, u, i);
        lemma_sentence_gap_bound(c, a, u, i);
        if k < c.len() {
            lemma_sentence_gap_stops(c, a, u, i);
            lemma_sentences_end_with_mark(c, a, u, k + 1);
            let piece = c.subrange(i, k + 1);
            assert(piece.last() == c[k]);
            lemma_trim_keeps_last(piece);
            let rest = sentences_from(c, a, u, k + 1);
            assert forall|j: int| 0 <= j < sentences_from(c, a, u, i).len() - 1 implies is_terminal(#[trigger] sentences_from(c, a, u, i)[j].last()) by {
                if j == 0 {
                    assert(sentences_from(c, a, u, i)[0] == trim(piece));
                } else {
                    assert(sentences_from(c, a, u, i)[j] == rest[j - 1]);
                }
            }
        }
    }
}

/// Every sentence but the last ends with a sentence mark (whatever the
/// character classes).
pub proof fn law_sentences_end_with_mark(c: Seq<char>, a: Seq<bool>, u: Seq<bool>)
    ensures
        forall|j: int| 0 <= j < sentences_by(c, a, u).len() - 1 ==> is_terminal(#[trigger] sentences_by(c, a, u)[j].last()),
{
    lemma_sentences_end_with_mark(c, a, u, 0);
}

// ---------------------------------------------------------------------------
// Character totals of words.

/// Number of characters of `c` from position `i` on that are not whitespace.
pub open spec fn non_blank_from(c: Seq<char>, i: int) -> int
    decreases c.len() - i,
{
    if 0 <= i < c.len() {
        (if is_ws(c[i]) {
            0int
        } else {
            1int
        }) + non_blank_from(c, i + 1)
    } else {
        0
    }
}

/// Total length of a sequence of texts.
pub open spec fn total_len(ws: Seq<Seq<char>>) -> int
    decreases ws.len(),
{
    if ws.len() == 0 {
        0
    } else {
        total_len(ws.drop_last()) + ws.last().len()
    }
}

proof fn lemma_total_len_cons(w: Seq<char>, rest: Seq<Seq<char>>)
    ensures
        total_len(seq![w] + rest) == w.len() + total_len(rest),
    decreases rest.len(),
{
    if rest.len() == 0 {
        assert(seq![w] + rest =~= seq![w]);
        assert(seq![w].drop_last() =~= Seq::<Seq<char>>::empty());
        assert(seq![w].last() == w);
        assert(total_len(seq![w].drop_last()) == 0);
    } else {
        lemma_total_len_cons(w, rest.drop_last());
        assert((seq![w] + rest).drop_last() =~= seq![w] + rest.drop_last());
        assert((seq![w] + rest).last() == rest.last());
    }
}

proof fn lemma_non_blank_run(c: Seq<char>, a: int, b: int)
    requires
        0 <= a <= b <= c.len(),
        forall|k: int| a <= k < b ==> !is_ws(#[trigger] c[k]),
    ensures
        non_blank_from(c, a) == (b - a) + non_blank_from(c, b),
    decreases b - a,
{
    if a < b {
        lemma_non_blank_run(c, a + 1, b);
    }
}

proof fn lemma_words_total_len(c: Seq<char>, i: int)
    requires
        0 <= i <= c.len(),
    ensures
        total_len(words_from(c, i)) == non_blank_from(c, i),
    decreases c.len() - i,
{
    if i < c.len() {
        if is_ws(c[i]) {
            lemma_words_total_len(c, i + 1);
        } else {
            lemma_word_len_bound(c, i);
            lemma_word_len_chars(c, i);
            let b = i + word_len(c, i);
            lemma_words_total_len(c, b);
            lemma_non_blank_run(c, i, b);
            lemma_total_len_cons(c.subrange(i, b), words_from(c, b));
        }
    } else {
        assert(words_from(c, i).len() == 0);
    }
}

proof fn lemma_total_chars_contents(ts: Seq<TextTile>)
    requires
        forall|i: int| 0 <= i < ts.len() ==> #[trigger] ts[i].char_count == ts[i].content@.len(),
    ensures
        total_chars(ts) == total_len(ts.map_values(|t: TextTile| t.content@)),
    decreases ts.len(),
{
    if ts.len() > 0 {
        lemma_total_chars_contents(ts.drop_last());
        assert(ts.map_values(|t: TextTile| t.content@).drop_last() =~= ts.drop_last().map_values(
            |t: TextTile| t.content@,
        ));
    }
}

/// The character total of the word tiles of a text is the number of its
/// characters that are not whitespace.
pub proof fn law_word_tiles_count_non_blank_chars(text: Seq<char>, ts: Seq<TextTile>)
    requires
        tiles_view(ts) == word_tiles(text),
        all_fresh(ts),
    ensures
        total_chars(ts) == non_blank_from(text, 0),
{
    assert(tiles_view(ts).len() == ts.len());
    assert forall|i: int| 0 <= i < ts.len() implies #[trigger] ts[i].char_count == ts[i].content@.len() by {
        assert(fresh_tile(ts[i]));
    }
    lemma_total_chars_contents(ts);
    assert forall|i: int| 0 <= i < ts.len() implies ts[i].content@ == words(text)[i] by {
        assert(tiles_view(ts)[i] == tile_view(ts[i]));
        assert(tiles_view(ts)[i] == word_tiles(text)[i]);
    }
    assert(ts.map_values(|t: TextTile| t.content@) =~= words(text));
    lemma_words_total_len(text, 0);
}

// ---------------------------------------------------------------------------
// Plain paragraphs round trip.

/// A plain paragraph: not empty, trimmed, on one line, not opening a code
/// fence, and of the plain paragraph kind.
pub open spec fn plain_paragraph(p: Seq<char>) -> bool {
    &&& p.len() > 0
    &&& trim(p) == p
    &&& forall|k: int| 0 <= k < p.len() ==> #[trigger] p[k] != '\n'
    &&& !opens_fence(p)
    &&& block_kind(p) == TextKind::Paragraph
}

/// The lines of paragraphs joined by blank lines: each paragraph, with an
/// empty line between each two.
pub open spec fn paragraph_lines(ps: Seq<Seq<char>>) -> Seq<Seq<char>>
    decreases ps.len(),
{
    if ps.len() <= 1 {
        ps
    } else {
        paragraph_lines(ps.drop_last()).push(Seq::<char>::empty()).push(ps.last())
    }
}

proof fn lemma_paragraph_lines_index(ps: Seq<Seq<char>>)
    requires
        ps.len() > 0,
    ensures
        paragraph_lines(ps).len() == 2 * ps.len() - 1,
        forall|k: int| 0 <= k < ps.len() ==> #[trigger] paragraph_lines(ps)[2 * k] == ps[k],
        forall|k: int| 0 <= k < ps.len() - 1 ==> #[trigger] paragraph_lines(ps)[2 * k + 1] == Seq::<char>::empty(),
    decreases ps.len(),
{
    if ps.len() > 1 {
        let front = ps.drop_last();
        lemma_paragraph_lines_index(front);
        let l = paragraph_lines(ps);
        assert forall|k: int| 0 <= k < ps.len() implies #[trigger] l[2 * k] == ps[k] by {
            if k < ps.len() - 1 {
                assert(l[2 * k] == paragraph_lines(front)[2 * k]);
            }
        }
        assert forall|k: int| 0 <= k < ps.len() - 1 implies #[trigger] l[2 * k + 1] == Seq::<char>::empty() by {
            if k < ps.len() - 2 {
                assert(l[2 * k + 1] == paragraph_lines(front)[2 * k + 1]);
            }
        }
    }
}

proof fn lemma_line_len_before_feed(x: Seq<char>, y: Seq<char>, i: int)
    requires
        0 <= i <= x.len(),
    ensures
        line_len(x + seq!['\n'] + y, i) == line_len(x, i),
        i + line_len(x, i) <= x.len(),
    decreases x.len() - i,
{
    let c = x + seq!['\n'] + y;
    if i < x.len() {
        assert(c[i] == x[i]);
        lemma_line_len_before_feed(x, y, i + 1);
    } else {
        assert(c[i] == '\n');
    }
}

proof fn lemma_line_len_shift(pre: Seq<char>, y: Seq<char>, j: int)
    requires
        0 <= j <= y.len(),
    ensures
        line_len(pre + y, pre.len() + j) == line_len(y, j),
    decreases y.len() - j,
{
    if j < y.len() {
        assert((pre + y)[pre.len() + j] == y[j]);
        lemma_line_len_shift(pre, y, j + 1);
    }
}

proof fn lemma_lines_from_shift(pre: Seq<char>, y: Seq<char>, j: int)
    requires
        0 <= j <= y.len(),
    ensures
        lines_from(pre + y, pre.len() + j) == lines_from(y, j),
    decreases y.len() - j,
{
    if j < y.len() {
        lemma_line_len_shift(pre, y, j);
        lemma_line_len_bound(y, j);
        let k = j + line_len(y, j);
        assert((pre + y).subrange(pre.len() + j, pre.len() + k) =~= y.subrange(j, k));
        if k < y.len() {
            assert((pre + y)[pre.len() + k] == y[k]);
            lemma_lines_from_shift(pre, y, k + 1);
        } else {
            assert((pre + y).subrange(pre.len() + j, (pre + y).len() as int) =~= y.subrange(j, y.len() as int));
        }
    }
}

proof fn lemma_lines_from_split(x: Seq<char>, y: Seq<char>, i: int)
    requires
        0 <= i < x.len(),
        x.last() != '\n',
        x.last() != '\r',
    ensures
        lines_from(x + seq!['\n'] + y, i) == lines_from(x, i) + lines(y),
    decreases x.len() - i,
{
    let c = x + seq!['\n'] + y;
    lemma_line_len_before_feed(x, y, i);
    let k = i + line_len(x, i);
    assert(c.subrange(i, k) =~= x.subrange(i, k));
    if k < x.len() {
        // the line ends at a line feed inside x, which is not x's last character
        assert(x[k] == '\n') by {
            if x[k] != '\n' {
                assert(line_len(x, k) > 0);
            }
            lemma_line_len_stop(x, i);
        }
        assert(c[k] == x[k]);
        assert(k + 1 < x.len());
        lemma_lines_from_split(x, y, k + 1);
        assert(lines_from(c, i) =~= lines_from(x, i) + lines(y));
    } else {
        assert(c[k] == '\n');
        let piece = x.subrange(i, k);
        assert(piece.last() == x.last());
        assert(strip_cr(piece) == piece);
        lemma_lines_from_shift(x + seq!['\n'], y, 0);
        assert(x + seq!['\n'] + y =~= (x + seq!['\n']) + y);
        assert(x.subrange(i, x.len() as int) =~= piece);
        assert(lines_from(c, i) =~= lines_from(x, i) + lines(y));
    }
}

proof fn lemma_line_len_stop(x: Seq<char>, i: int)
    requires
        0 <= i <= x.len(),
    ensures
        i + line_len(x, i) < x.len() ==> x[i + line_len(x, i)] == '\n',
    decreases x.len() - i,
{
    if i < x.len() && x[i] != '\n' {
        lemma_line_len_stop(x, i + 1);
    }
}

proof fn lemma_lines_of_one_line(p: Seq<char>)
    requires
        p.len() > 0,
        forall|k: int| 0 <= k < p.len() ==> #[trigger] p[k] != '\n',
    ensures
        lines(p) == seq![p],
{
    lemma_line_len_all(p, 0);
    assert(p.subrange(0, p.len() as int) =~= p);
}

proof fn lemma_line_len_all(p: Seq<char>, i: int)
    requires
        0 <= i <= p.len(),
        forall|k: int| 0 <= k < p.len() ==> #[trigger] p[k] != '\n',
    ensures
        line_len(p, i) == p.len() - i,
    decreases p.len() - i,
{
    if i < p.len() {
        lemma_line_len_all(p, i + 1);
    }
}

proof fn lemma_join_last(ps: Seq<Seq<char>>, sep: Seq<char>)
    requires
        ps.len() > 0,
        ps.last().len() > 0,
    ensures
        join(ps, sep).len() > 0,
        join(ps, sep).last() == ps.last().last(),
{
}

/// The lines of plain paragraphs joined by blank lines.
proof fn lemma_lines_of_joined_paragraphs(ps: Seq<Seq<char>>)
    requires
        ps.len() > 0,
        forall|j: int| 0 <= j < ps.len() ==> plain_paragraph(#[trigger] ps[j]),
    ensures
        lines(join(ps, "\n\n"@)) == paragraph_lines(ps),
    decreases ps.len(),
{
    reveal_strlit("\n\n");
    if ps.len() == 1 {
        assert(plain_paragraph(ps[0]));
        lemma_lines_of_one_line(ps[0]);
        assert(paragraph_lines(ps) =~= seq![ps[0]]);
    } else {
        let front = ps.drop_last();
        let p = ps.last();
        assert forall|j: int| 0 <= j < front.len() implies plain_paragraph(#[trigger] front[j]) by {
            assert(front[j] == ps[j]);
        }
        lemma_lines_of_joined_paragraphs(front);
        let jf = join(front, "\n\n"@);
        assert(plain_paragraph(front.last()));
        assert(plain_paragraph(p));
        lemma_join_last(front, "\n\n"@);
        law_trim_ends(front.last());
        assert(!is_ws(jf.last()));
        let rest = seq!['\n'] + p;
        assert(join(ps, "\n\n"@) =~= jf + seq!['\n'] + rest);
        lemma_lines_from_split(jf, rest, 0);
        // the rest: an empty line, then the paragraph
        lemma_lines_of_one_line(p);
        lemma_lines_from_shift(seq!['\n'], p, 0);
        assert(line_len(rest, 0) == 0);
        assert(rest.subrange(0, 0) =~= Seq::<char>::empty());
        assert(lines(rest) =~= seq![Seq::<char>::empty()] + lines(p));
        assert(lines(join(ps, "\n\n"@)) =~= paragraph_lines(ps));
    }
}

/// Plain paragraphs, each a paragraph block.
pub open spec fn plain_blocks(ps: Seq<Seq<char>>) -> Seq<(Seq<char>, TextKind)> {
    ps.map_values(|p: Seq<char>| (p, TextKind::Paragraph))
}

proof fn lemma_scan_paragraph_lines(ps: Seq<Seq<char>>, k: int)
    requires
        0 <= k < ps.len(),
        forall|j: int| 0 <= j < ps.len() ==> plain_paragraph(#[trigger] ps[j]),
    ensures
        scan_lines(paragraph_lines(ps), 2 * k + 1) == (ParagraphScan {
            blocks: plain_blocks(ps.take(k)),
            current: ps[k],
            in_code: false,
        }),
    decreases k,
{
    let l = paragraph_lines(ps);
    lemma_paragraph_lines_index(ps);
    assert(plain_paragraph(ps[k]));
    assert(l[2 * k] == ps[k]);
    if k == 0 {
        assert(scan_lines(l, 0) == scan_start());
        assert(plain_blocks(ps.take(0)) =~= Seq::<(Seq<char>, TextKind)>::empty());
    } else {
        lemma_scan_paragraph_lines(ps, k - 1);
        let st = scan_lines(l, 2 * (k - 1) + 1);
        assert(plain_paragraph(ps[k - 1]));
        assert(l[2 * (k - 1) + 1] == Seq::<char>::empty());
        let empty = Seq::<char>::empty();
        assert(trim_start(empty) == empty);
        assert(trim_end(empty) == empty);
        let st2 = scan_line(st, empty);
        assert(scan_lines(l, 2 * k) == st2);
        assert(st2.blocks =~= plain_blocks(ps.take(k)));
        assert(st2.current == empty);
        assert(scan_lines(l, 2 * k + 1) == scan_line(st2, ps[k]));
    }
}

proof fn lemma_plain_paragraph_blocks(ps: Seq<Seq<char>>)
    requires
        ps.len() > 0,
        forall|j: int| 0 <= j < ps.len() ==> plain_paragraph(#[trigger] ps[j]),
    ensures
        paragraph_blocks(join(ps, "\n\n"@)) == plain_blocks(ps),
{
    lemma_lines_of_joined_paragraphs(ps);
    lemma_paragraph_lines_index(ps);
    let m = ps.len() as int;
    lemma_scan_paragraph_lines(ps, m - 1);
    assert(plain_paragraph(ps[m - 1]));
    assert(plain_blocks(ps.take(m - 1)).push((ps[m - 1], TextKind::Paragraph)) =~= plain_blocks(ps));
}

/// Plain paragraphs joined by blank lines come back as they were: the
/// paragraph tiles of the text reconstruct to the text.
pub proof fn law_plain_paragraphs_round_trip(ps: Seq<Seq<char>>, ts: Seq<TextTile>)
    requires
        ps.len() > 0,
        forall|j: int| 0 <= j < ps.len() ==> plain_paragraph(#[trigger] ps[j]),
        ts.len() <= usize::MAX,
        tiles_view(ts) == numbered(paragraph_blocks(join(ps, "\n\n"@))),
    ensures
        reconstruction(ts) == join(ps, "\n\n"@),
{
    let text = join(ps, "\n\n"@);
    lemma_plain_paragraph_blocks(ps);
    law_reconstruct_paragraphs(text, ts);
    let bs = plain_blocks(ps);
    assert(bs.map_values(|b: (Seq<char>, TextKind)| b.0) =~= ps);
    let kinds = bs.map_values(|b: (Seq<char>, TextKind)| b.1);
    assert(is_block_kind(kinds[0]));
}

// ---------------------------------------------------------------------------
// The decomposer holds no state.

/// All decomposers are the same value, so every method gives the same result
/// whichever decomposer it is called on (the random tile ids aside).
pub proof fn law_decomposers_are_alike(d1: TextDecomposer, d2: TextDecomposer)
    ensures
        d1 == d2,
{
}

// ---------------------------------------------------------------------------
// A line of whitespace separates paragraphs.

proof fn lemma_lines_first_line(x: Seq<char>, y: Seq<char>)
    requires
        forall|k: int| 0 <= k < x.len() ==> #[trigger] x[k] != '\n',
    ensures
        lines(x + seq!['\n'] + y) == seq![strip_cr(x)] + lines(y),
{
    let c = x + seq!['\n'] + y;
    lemma_line_len_before_feed(x, y, 0);
    lemma_line_len_all(x, 0);
    assert(c.subrange(0, x.len() as int) =~= x);
    lemma_lines_from_shift(x + seq!['\n'], y, 0);
    assert(c =~= (x + seq!['\n']) + y);
}

proof fn lemma_trimmed_is_fixed(s: Seq<char>)
    requires
        s.len() > 0,
        !is_ws(s[0]),
        !is_ws(s.last()),
    ensures
        trim(s) == s,
{
}

/// Outside a code block a line of nothing but whitespace ends a paragraph:
/// two one-line paragraphs with such a line between them are two blocks.
pub proof fn law_blank_line_separates_paragraphs(p: Seq<char>, w: Seq<char>, q: Seq<char>)
    requires
        plain_paragraph(p),
        plain_paragraph(q),
        forall|k: int| 0 <= k < w.len() ==> is_ws(#[trigger] w[k]) && w[k] != '\n',
    ensures
        paragraph_blocks(p + seq!['\n'] + w + seq!['\n'] + q) == seq![
            (p, TextKind::Paragraph),
            (q, TextKind::Paragraph),
        ],
{
    let text = p + seq!['\n'] + w + seq!['\n'] + q;
    let rest = w + seq!['\n'] + q;
    assert(text =~= p + seq!['\n'] + rest);
    lemma_lines_first_line(p, rest);
    lemma_lines_first_line(w, q);
    lemma_lines_of_one_line(q);
    law_trim_ends(p);
    assert(strip_cr(p) == p);
    let w2 = strip_cr(w);
    assert(is_blank(w2)) by {
        assert forall|k: int| 0 <= k < w2.len() implies #[trigger] is_ws(w2[k]) by {
            assert(w2[k] == w[k]);
        }
    }
    law_trim_ends(w2);
    let ls = seq![p, w2, q];
    assert(lines(text) =~= ls);
    let st1 = scan_lines(ls, 1);
    assert(scan_lines(ls, 0) == scan_start());
    assert(st1 == scan_line(scan_start(), p));
    assert(st1.current == p && !st1.in_code && st1.blocks.len() == 0);
    let st2 = scan_lines(ls, 2);
    assert(st2 == scan_line(st1, w2));
    assert(st2.blocks =~= seq![(p, TextKind::Paragraph)]);
    assert(st2.current.len() == 0 && !st2.in_code);
    let st3 = scan_lines(ls, 3);
    assert(st3 == scan_line(st2, q));
    assert(st3.current == q);
    assert(paragraph_blocks(text) =~= seq![(p, TextKind::Paragraph), (q, TextKind::Paragraph)]);
}

// ---------------------------------------------------------------------------
// A sentence mark before any whitespace ends a sentence.

proof fn lemma_run_start_before(a: Seq<bool>, i: int)
    requires
        0 < i <= a.len(),
        a[i - 1],
    ensures
        alnum_run_start(a, i) <= i - 1,
    decreases i,
{
    assert(alnum_run_start(a, i) == alnum_run_start(a, i - 1));
    if i - 1 > 0 && a[i - 2] {
        lemma_run_start_before(a, i - 1);
    } else {
        assert(alnum_run_start(a, i - 1) == i - 1);
    }
}

proof fn lemma_trim_drops_front(w: char, t: Seq<char>)
    requires
        is_ws(w),
    ensures
        trim(seq![w] + t) == trim(t),
{
    assert((seq![w] + t).drop_first() =~= t);
}

/// A sentence mark right after a word whose last character is alphanumeric
/// and not upper case, and right before any whitespace character (a space, a
/// tab, a line feed, ...), ends a sentence: two such sentences are split
/// there, each trimmed.
pub proof fn law_mark_before_whitespace_ends_sentence(
    x: Seq<char>,
    ws: char,
    y: Seq<char>,
    a: Seq<bool>,
    u: Seq<bool>,
)
    requires
        x.len() > 0,
        y.len() > 0,
        !is_ws(x[0]),
        !is_ws(y[0]),
        is_ws(ws),
        forall|k: int| 0 <= k < x.len() ==> !is_terminal(#[trigger] x[k]),
        forall|k: int| 0 <= k < y.len() ==> !is_terminal(#[trigger] y[k]),
        a.len() == x.len() + y.len() + 3,
        u.len() == x.len() + y.len() + 3,
        a[x.len() - 1],
        !u[x.len() - 1],
        a[(x.len() + y.len() + 1) as int],
        !u[(x.len() + y.len() + 1) as int],
    ensures
        sentences_by(x + seq!['.', ws] + y + seq!['.'], a, u) == seq![x.push('.'), y.push('.')],
{
    let c = x + seq!['.', ws] + y + seq!['.'];
    let n = c.len() as int;
    let m1 = x.len() as int;
    let m2 = n - 1;
    assert(c[m1] == '.' && c[m1 + 1] == ws && c[m2] == '.');
    assert(c[m2 - 1] == y.last());
    assert forall|k: int| 0 <= k < n && k != m1 && k != m2 implies !is_terminal(#[trigger] c[k]) by {
        if k < m1 {
            assert(c[k] == x[k]);
        } else if k == m1 + 1 {
        } else {
            assert(c[k] == y[k - m1 - 2]);
        }
    }
    // both marks end a sentence
    lemma_run_start_before(a, m1);
    assert(!short_capital_word(c, u, alnum_run_start(a, m1), m1));
    assert(ends_sentence(c, a, u, m1));
    lemma_run_start_before(a, m2);
    assert(!short_capital_word(c, u, alnum_run_start(a, m2), m2));
    assert(ends_sentence(c, a, u, m2));
    // no other position does
    lemma_sentence_gap_skip(c, a, u, 0, m1);
    lemma_sentence_gap_skip(c, a, u, m1 + 1, m2);
    assert(sentence_gap(c, a, u, m1) == 0);
    assert(sentence_gap(c, a, u, m2) == 0);
    // the two pieces, trimmed
    let p1 = c.subrange(0, m1 + 1);
    assert(p1 =~= x.push('.'));
    lemma_trimmed_is_fixed(x.push('.'));
    let p2 = c.subrange(m1 + 1, m2 + 1);
    assert(p2 =~= seq![ws] + y.push('.'));
    lemma_trim_drops_front(ws, y.push('.'));
    lemma_trimmed_is_fixed(y.push('.'));
    assert(sentences_from(c, a, u, n) =~= Seq::<Seq<char>>::empty());
    assert(sentences_from(c, a, u, m1 + 1) =~= seq![y.push('.')]);
    assert(sentences_by(c, a, u) =~= seq![x.push('.'), y.push('.')]);
}

// ---------------------------------------------------------------------------
// The separator of a reconstruction.

/// The contents of the tiles in reading order.
pub open spec fn contents_in_reading_order(ts: Seq<TextTile>) -> Seq<Seq<char>> {
    reading_order(ts, ts.len() as int).map_values(|p: usize| ts[p as int].content@)
}

/// Reconstruction puts a blank line between the contents when some tile is a
/// paragraph, a code block or a heading, and a single space otherwise.
pub proof fn law_reconstruct_separator(ts: Seq<TextTile>)
    ensures
        (exists|i: int|
            0 <= i < ts.len() && (#[trigger] ts[i].kind == TextKind::Paragraph || ts[i].kind == TextKind::CodeBlock
                || ts[i].kind == TextKind::Heading)) ==> reconstruction(ts) == join(
            contents_in_reading_order(ts),
            "\n\n"@,
        ),
        (forall|i: int|
            0 <= i < ts.len() ==> #[trigger] ts[i].kind != TextKind::Paragraph && ts[i].kind != TextKind::CodeBlock
                && ts[i].kind != TextKind::Heading) ==> reconstruction(ts) == join(contents_in_reading_order(ts), " "@),
{
    if exists|i: int|
        0 <= i < ts.len() && (#[trigger] ts[i].kind == TextKind::Paragraph || ts[i].kind == TextKind::CodeBlock
            || ts[i].kind == TextKind::Heading) {
        let i = choose|i: int|
            0 <= i < ts.len() && (#[trigger] ts[i].kind == TextKind::Paragraph || ts[i].kind == TextKind::CodeBlock
                || ts[i].kind == TextKind::Heading);
        assert(is_block_kind(ts[i].kind));
    }
    if forall|i: int|
        0 <= i < ts.len() ==> #[trigger] ts[i].kind != TextKind::Paragraph && ts[i].kind != TextKind::CodeBlock
            && ts[i].kind != TextKind::Heading {
        assert forall|i: int| 0 <= i < ts.len() implies !is_block_kind(#[trigger] ts[i].kind) by {
            assert(ts[i].kind != TextKind::Paragraph && ts[i].kind != TextKind::CodeBlock && ts[i].kind != TextKind::Heading);
        }
    }
}

// ---------------------------------------------------------------------------
// The detected language has the most markers.

/// The detected language is one whose markers occur most often, ties going to
/// the earlier of English, Spanish, French and German; and at least one of
/// its markers occurs.
pub proof fn law_language_has_most_markers(lower: Seq<char>)
    ensures
        ({
            let en = marker_count(lower, english_markers());
            let es = marker_count(lower, spanish_markers());
            let fr = marker_count(lower, french_markers());
            let de = marker_count(lower, german_markers());
            &&& language_of(lower) == Some("en"@) ==> en > 0 && en >= es && en >= fr && en >= de
            &&& language_of(lower) == Some("es"@) ==> es > 0 && es > en && es >= fr && es >= de
            &&& language_of(lower) == Some("fr"@) ==> fr > 0 && fr > en && fr > es && fr >= de
            &&& language_of(lower) == Some("de"@) ==> de > 0 && de > en && de > es && de > fr
            &&& language_of(lower) is None ==> en == 0 && es == 0 && fr == 0 && de == 0
        }),
{
    reveal_strlit("en");
    reveal_strlit("es");
    reveal_strlit("fr");
    reveal_strlit("de");
    assert("en"@[0] == 'e' && "en"@[1] == 'n' && "es"@[0] == 'e' && "es"@[1] == 's');
    assert("fr"@[0] == 'f' && "de"@[0] == 'd');
    assert("en"@ != "es"@ && "en"@ != "fr"@ && "en"@ != "de"@);
    assert("es"@ != "fr"@ && "es"@ != "de"@ && "fr"@ != "de"@);
}

// ---------------------------------------------------------------------------
// Line kinds by their markers.

/// Each line tile's kind follows its first characters: three backticks make
/// a code block; else `#` a heading; else `>` a quote; else `-`, `*` or `+`
/// and a space a list item; anything else a plain line.
pub proof fn law_line_kinds_by_markers(c: Seq<char>)
    ensures
        forall|j: int| 0 <= j < line_tiles(c).len() ==> {
            let s = (#[trigger] line_tiles(c)[j]).0;
            let k = line_tiles(c)[j].1;
            let fence = s.len() >= 3 && s[0] == '`' && s[1] == '`' && s[2] == '`';
            let list = s.len() >= 2 && (s[0] == '-' || s[0] == '*' || s[0] == '+') && s[1] == ' ';
            &&& s.len() > 0
            &&& fence ==> k == TextKind::CodeBlock
            &&& !fence && s[0] == '#' ==> k == TextKind::Heading
            &&& !fence && s[0] == '>' ==> k == TextKind::Blockquote
            &&& !fence && s[0] != '#' && s[0] != '>' && list ==> k == TextKind::ListItem
            &&& !fence && s[0] != '#' && s[0] != '>' && !list ==> k == TextKind::Line
        },
{
    law_line_tiles_follow_lines(c);
}

/// Each paragraph block that is not a code block has the kind its first
/// characters give: `#` a heading; else `>` a quote; else `-`, `*` or `+` and
/// a space a list item; anything else a plain paragraph.
pub proof fn law_block_kinds_by_markers(c: Seq<char>)
    ensures
        forall|j: int| 0 <= j < paragraph_blocks(c).len() ==> {
            let s = (#[trigger] paragraph_blocks(c)[j]).0;
            let k = paragraph_blocks(c)[j].1;
            let list = s.len() >= 2 && (s[0] == '-' || s[0] == '*' || s[0] == '+') && s[1] == ' ';
            &&& s.len() > 0
            &&& k != TextKind::CodeBlock ==> {
                &&& s[0] == '#' ==> k == TextKind::Heading
                &&& s[0] == '>' ==> k == TextKind::Blockquote
                &&& s[0] != '#' && s[0] != '>' && list ==> k == TextKind::ListItem
                &&& s[0] != '#' && s[0] != '>' && !list ==> k == TextKind::Paragraph
            }
        },
{
    law_paragraph_blocks_are_trimmed(c);
}

} // verus!
