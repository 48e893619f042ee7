//! Putting tiles back together: reading order, reconstruction and totals.
use vstd::prelude::*;
use crate::text::{chars_of, join, string_of};
use crate::tile::{TextKind, TextTile, TextStats};
use crate::decompose::TextDecomposer;

verus! {

/// The first position from `j` on in `ord` whose tile has an index above `key`
/// (or the end of `ord`).
pub open spec fn first_later(ts: Seq<TextTile>, ord: Seq<usize>, key: u64, j: int) -> int
    decreases ord.len() - j,
{
    if 0 <= j < ord.len() {
        if ts[ord[j] as int].index > key {
            j
        } else {
            first_later(ts, ord, key, j + 1)
        }
    } else {
        ord.len() as int
    }
}

/// The reading order of the first `n` tiles: their positions, sorted by tile
/// index, where tiles of equal index keep the order they came in. Each tile
/// goes after every earlier tile whose index is not above its own.
pub open spec fn reading_order(ts: Seq<TextTile>, n: int) -> Seq<usize>
    decreases n,
{
    if n <= 0 {
        seq![]
    } else {
        let o = reading_order(ts, n - 1);
        o.insert(first_later(ts, o, ts[n - 1].index, 0), (n - 1) as usize)
    }
}

/// Kinds that stand as blocks of their own: paragraphs, code blocks and headings.
pub open spec fn is_block_kind(k: TextKind) -> bool {
    k is Paragraph || k is CodeBlock || k is Heading
}

/// The separator for a reconstruction: a blank line when some tile is a
/// block, else a space.
pub open spec fn separator(ts: Seq<TextTile>) -> Seq<char> {
    if exists|i: int| 0 <= i < ts.len() && is_block_kind(#[trigger] ts[i].kind) {
        "\n\n"@
    } else {
        " "@
    }
}

/// The contents of the tiles in reading order, joined by the separator.
pub open spec fn reconstruction(ts: Seq<TextTile>) -> Seq<char> {
    join(
        reading_order(ts, ts.len() as int).map_values(|p: usize| ts[p as int].content@),
        separator(ts),
    )
}

/// Sum of the character counts of the tiles.
pub open spec fn total_chars(ts: Seq<TextTile>) -> int
    decreases ts.len(),
{
    if ts.len() == 0 {
        0
    } else {
        total_chars(ts.drop_last()) + ts.last().char_count
    }
}

/// Sum of the word counts of the tiles.
pub open spec fn total_words(ts: Seq<TextTile>) -> int
    decreases ts.len(),
{
    if ts.len() == 0 {
        0
    } else {
        total_words(ts.drop_last()) + ts.last().word_count
    }
}

proof fn lemma_first_later_from(ts: Seq<TextTile>, ord: Seq<usize>, key: u64, j: int)
    requires
        0 <= j <= ord.len(),
        forall|k: int| 0 <= k < j ==> ts[ord[k] as int].index <= key,
    ensures
        first_later(ts, ord, key, 0) == first_later(ts, ord, key, j),
    decreases j,
{
    if j > 0 {
        lemma_first_later_from(ts, ord, key, j - 1);
    }
}

proof fn lemma_totals_prefix(ts: Seq<TextTile>, i: int)
    requires
        0 <= i <= ts.len(),
    ensures
        0 <= total_chars(ts.take(i)) <= total_chars(ts),
        0 <= total_words(ts.take(i)) <= total_words(ts),
    decreases ts.len() - i,
{
    if i < ts.len() {
        lemma_totals_prefix(ts, i + 1);
        lemma_totals_nonneg(ts.take(i));
        assert(ts.take(i + 1).drop_last() =~= ts.take(i));
        assert(total_chars(ts.take(i + 1)) == total_chars(ts.take(i)) + ts[i].char_count);
        assert(total_words(ts.take(i + 1)) == total_words(ts.take(i)) + ts[i].word_count);
    } else {
        assert(ts.take(i) =~= ts);
        lemma_totals_nonneg(ts);
    }
}

proof fn lemma_totals_nonneg(ts: Seq<TextTile>)
    ensures
        total_chars(ts) >= 0,
        total_words(ts) >= 0,
    decreases ts.len(),
{
    if ts.len() > 0 {
        lemma_totals_nonneg(ts.drop_last());
    }
}

/// The reading order of `tiles`.
fn reading_order_of(tiles: &[TextTile]) -> (ord: Vec<usize>)
    ensures
        ord@ == reading_order(tiles@, tiles@.len() as int),
        ord@.len() == tiles@.len(),
        forall|k: int| 0 <= k < ord@.len() ==> ord@[k] < tiles@.len(),
{
    let n = tiles.len();
    let mut ord: Vec<usize> = Vec::new();
    for p in 0..n
        invariant
            n == tiles@.len(),
            ord@ == reading_order(tiles@, p as int),
            ord@.len() == p,
            forall|k: int| 0 <= k < ord@.len() ==> ord@[k] < p,
    {
        let key = tiles[p].index;
        let mut j: usize = 0;
        while j < ord.len() && tiles[ord[j]].index <= key
            invariant
                n == tiles@.len(),
                ord@.len() == p,
                p < n,
                forall|k: int| 0 <= k < ord@.len() ==> ord@[k] < p,
                j <= ord@.len(),
                forall|k: int| 0 <= k < j ==> tiles@[ord@[k] as int].index <= key,
            decreases ord@.len() - j,
        {
            j += 1;
        }
        proof {
            lemma_first_later_from(tiles@, ord@, key, j as int);
        }
        let ghost prev = ord@;
        ord.insert(j, p);
        assert forall|k: int| 0 <= k < ord@.len() implies ord@[k] < p + 1 by {
            if k < j {
                assert(ord@[k] == prev[k]);
            } else if k > j {
                assert(ord@[k] == prev[k - 1]);
            }
        }
    }
    ord
}

impl TextDecomposer {
    /// Reconstruct text from tiles: their contents in the order of their
    /// indices, separated by a blank line when some tile is a paragraph, code
    /// block or heading, else by a space.
    pub fn reconstruct(&self, tiles: &[TextTile]) -> (s: String)
        ensures
            s@ == reconstruction(tiles@),
    {
        let n = tiles.len();
        let ord = reading_order_of(tiles);
        let mut blocks = false;
        for i in 0..n
            invariant
                n == tiles@.len(),
                blocks == exists|k: int| 0 <= k < i && is_block_kind(#[trigger] tiles@[k].kind),
        {
            if matches!(tiles[i].kind, TextKind::Paragraph | TextKind::CodeBlock | TextKind::Heading) {
                blocks = true;
            }
        }
        let sep_str = if blocks {
            "\n\n"
        } else {
            " "
        };
        let sep = chars_of(sep_str);
        assert(sep@ == separator(tiles@));
        let ghost list = ord@.map_values(|p: usize| tiles@[p as int].content@);
        let mut out: Vec<char> = Vec::new();
        for k in 0..n
            invariant
                n == tiles@.len(),
                ord@.len() == n,
                forall|q: int| 0 <= q < ord@.len() ==> ord@[q] < n,
                list == ord@.map_values(|p: usize| tiles@[p as int].content@),
                sep@ == separator(tiles@),
                out@ == join(list.take(k as int), sep@),
        {
            let piece = chars_of(tiles[ord[k]].content.as_str());
            assert(list.take(k + 1).drop_last() =~= list.take(k as int));
            if k > 0 {
                crate::text::append_chars(&mut out, &sep);
            } else {
                assert(list.take(1) =~= seq![list[0]]);
            }
            crate::text::append_chars(&mut out, &piece);
        }
        assert(list.take(n as int) =~= list);
        string_of(&out)
    }

    /// Totals over tiles: their number, and the sums of their character and
    /// word counts.
    pub fn stats(&self, tiles: &[TextTile]) -> (s: TextStats)
        requires
            total_chars(tiles@) <= usize::MAX,
            total_words(tiles@) <= usize::MAX,
        ensures
            s.tile_count == tiles@.len(),
            s.total_chars == total_chars(tiles@),
            s.total_words == total_words(tiles@),
    {
        let n = tiles.len();
        let mut chars: usize = 0;
        let mut words: usize = 0;
        for i in 0..n
            invariant
                n == tiles@.len(),
                total_chars(tiles@) <= usize::MAX,
                total_words(tiles@) <= usize::MAX,
                chars == total_chars(tiles@.take(i as int)),
                words == total_words(tiles@.take(i as int)),
        {
            proof {
                lemma_totals_prefix(tiles@, i + 1);
                assert(tiles@.take(i + 1).drop_last() =~= tiles@.take(i as int));
            }
            chars = chars + tiles[i].char_count;
            words = words + tiles[i].word_count;
        }
        assert(tiles@.take(n as int) =~= tiles@);
        TextStats { total_chars: chars, total_words: words, tile_count: n }
    }
}

} // verus!
