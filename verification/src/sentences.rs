//! Sentence splitting.
use vstd::prelude::*;
use crate::chars::{
    is_ws, is_whitespace_char, alphanumeric, uppercase, char_is_alphanumeric, char_is_uppercase, utf8_width,
    char_utf8_width,
};
use crate::text::{chars_of, trim, trim_bounds, copy_range};
use crate::tile::{TextKind, TextTile, tiles_view, all_fresh};
use crate::decompose::{TextDecomposer, push_block};

verus! {

// The sentence rules read two Unicode properties of each character: whether it
// is alphanumeric and whether it is upper case. They are given as two
// sequences of flags beside the characters (`alnum[i]`, `upper[i]` for `c[i]`).

/// A sentence mark: `.`, `!` or `?`.
pub open spec fn is_terminal(c: char) -> bool {
    c == '.' || c == '!' || c == '?'
}

/// Where the run of alphanumeric characters that ends just before position `i` starts.
pub open spec fn alnum_run_start(alnum: Seq<bool>, i: int) -> int
    decreases i,
{
    if 0 < i <= alnum.len() && alnum[i - 1] {
        alnum_run_start(alnum, i - 1)
    } else {
        i
    }
}

/// Number of bytes of the UTF-8 encoding of `s`.
pub open spec fn utf8_len(s: Seq<char>) -> int
    decreases s.len(),
{
    if s.len() == 0 {
        0
    } else {
        utf8_len(s.drop_last()) + utf8_width(s.last())
    }
}

/// The word `c[j..i]` looks like an abbreviation or an initial: at most two
/// bytes long, every character upper case (the empty word counts too).
pub open spec fn short_capital_word(c: Seq<char>, upper: Seq<bool>, j: int, i: int) -> bool {
    utf8_len(c.subrange(j, i)) <= 2 && forall|k: int| j <= k < i ==> #[trigger] upper[k]
}

/// A sentence ends at position `i`: a sentence mark followed by whitespace or
/// the end of the text, unless the alphanumeric word right before the mark is
/// a short capital word.
pub open spec fn ends_sentence(c: Seq<char>, alnum: Seq<bool>, upper: Seq<bool>, i: int) -> bool {
    &&& 0 <= i < c.len()
    &&& is_terminal(c[i])
    &&& (i + 1 >= c.len() || is_ws(c[i + 1]))
    &&& !short_capital_word(c, upper, alnum_run_start(alnum, i), i)
}

/// Number of positions from `i` before the next sentence end (or the end of the text).
pub open spec fn sentence_gap(c: Seq<char>, alnum: Seq<bool>, upper: Seq<bool>, i: int) -> nat
    decreases c.len() - i,
{
    if 0 <= i < c.len() && !ends_sentence(c, alnum, upper, i) {
        1 + sentence_gap(c, alnum, upper, i + 1)
    } else {
        0
    }
}

/// The sentences of `c` from position `i` on: the text up to and including
/// each sentence end, and what follows the last one, each trimmed; blank
/// pieces are dropped.
pub open spec fn sentences_from(c: Seq<char>, alnum: Seq<bool>, upper: Seq<bool>, i: int) -> Seq<Seq<char>>
    decreases c.len() - i,
{
    if i < 0 || i >= c.len() {
        seq![]
    } else {
        let k = i + sentence_gap(c, alnum, upper, i);
        if k < c.len() {
            let s = trim(c.subrange(i, k + 1));
            let rest = sentences_from(c, alnum, upper, k + 1);
            if s.len() > 0 {
                seq![s] + rest
            } else {
                rest
            }
        } else {
            let s = trim(c.subrange(i, c.len() as int));
            if s.len() > 0 {
                seq![s]
            } else {
                seq![]
            }
        }
    }
}

/// The sentences of `c`, given which of its characters are alphanumeric and
/// which upper case.
pub open spec fn sentences_by(c: Seq<char>, alnum: Seq<bool>, upper: Seq<bool>) -> Seq<Seq<char>> {
    sentences_from(c, alnum, upper, 0)
}

/// Which characters of `c` are alphanumeric, by `char::is_alphanumeric`.
pub open spec fn alnum_flags(c: Seq<char>) -> Seq<bool> {
    Seq::new(c.len(), |i: int| alphanumeric(c[i]))
}

/// Which characters of `c` are upper case, by `char::is_uppercase`.
pub open spec fn upper_flags(c: Seq<char>) -> Seq<bool> {
    Seq::new(c.len(), |i: int| uppercase(c[i]))
}

/// The sentences of `c`.
pub open spec fn sentences(c: Seq<char>) -> Seq<Seq<char>> {
    sentences_by(c, alnum_flags(c), upper_flags(c))
}

/// Sentences, numbered from 0.
pub open spec fn numbered_sentences(ss: Seq<Seq<char>>) -> Seq<(Seq<char>, TextKind, int)> {
    Seq::new(ss.len(), |i: int| (ss[i], TextKind::Sentence, i))
}

/// The sentence tiles of `c`.
pub open spec fn sentence_tiles(c: Seq<char>) -> Seq<(Seq<char>, TextKind, int)> {
    numbered_sentences(sentences(c))
}

proof fn lemma_utf8_len_at_least_len(s: Seq<char>)
    ensures
        utf8_len(s) >= s.len(),
    decreases s.len(),
{
    if s.len() > 0 {
        lemma_utf8_len_at_least_len(s.drop_last());
    }
}

pub proof fn lemma_sentence_gap_skip(c: Seq<char>, alnum: Seq<bool>, upper: Seq<bool>, a: int, b: int)
    requires
        0 <= a <= b <= c.len(),
        forall|j: int| a <= j < b ==> !ends_sentence(c, alnum, upper, j),
    ensures
        sentence_gap(c, alnum, upper, a) == (b - a) + sentence_gap(c, alnum, upper, b),
    decreases b - a,
{
    if a < b {
        lemma_sentence_gap_skip(c, alnum, upper, a + 1, b);
    }
}

/// Whether `c[j..i]` is a short capital word.
fn is_short_capital_word(c: &Vec<char>, upper: &Vec<bool>, j: usize, i: usize) -> (b: bool)
    requires
        j <= i <= c.len(),
        upper.len() == c.len(),
    ensures
        b == short_capital_word(c@, upper@, j as int, i as int),
{
    if i - j > 2 {
        proof {
            lemma_utf8_len_at_least_len(c@.subrange(j as int, i as int));
        }
        return false;
    }
    let mut total: usize = 0;
    let mut all_upper = true;
    let mut k = j;
    while k < i
        invariant
            j <= k <= i <= c.len(),
            upper.len() == c.len(),
            i - j <= 2,
            total == utf8_len(c@.subrange(j as int, k as int)),
            total <= 4 * (k - j),
            all_upper == forall|m: int| j <= m < k ==> #[trigger] upper@[m],
        decreases i - k,
    {
        assert(c@.subrange(j as int, k + 1).drop_last() =~= c@.subrange(j as int, k as int));
        total = total + char_utf8_width(c[k]);
        if !upper[k] {
            all_upper = false;
        }
        k += 1;
    }
    total <= 2 && all_upper
}

/// Whether a sentence ends at position `i` of `c`.
fn sentence_ends_at(c: &Vec<char>, alnum: &Vec<bool>, upper: &Vec<bool>, i: usize) -> (b: bool)
    requires
        i < c.len(),
        alnum.len() == c.len(),
        upper.len() == c.len(),
    ensures
        b == ends_sentence(c@, alnum@, upper@, i as int),
{
    let ch = c[i];
    if !(ch == '.' || ch == '!' || ch == '?') {
        return false;
    }
    if !(i + 1 >= c.len() || is_whitespace_char(c[i + 1])) {
        return false;
    }
    let mut j = i;
    while j > 0 && alnum[j - 1]
        invariant
            j <= i < c.len(),
            alnum.len() == c.len(),
            alnum_run_start(alnum@, i as int) == alnum_run_start(alnum@, j as int),
        decreases j,
    {
        j -= 1;
    }
    assert(alnum_run_start(alnum@, j as int) == j);
    !is_short_capital_word(c, upper, j, i)
}

impl TextDecomposer {
    /// Decompose text into sentences, given for each of its characters
    /// whether it is alphanumeric (`alnum`) and whether it is upper case
    /// (`upper`). A sentence ends at `.`, `!` or `?` followed by whitespace or
    /// the end of the text, unless the alphanumeric word right before the
    /// mark is at most two bytes long and all upper case (as in "U.S. " or
    /// "A. "). The sentences are trimmed, blank ones dropped, and numbered
    /// from 0.
    pub fn decompose_sentences_classified(&self, text: &str, alnum: &Vec<bool>, upper: &Vec<bool>) -> (tiles:
        Vec<TextTile>)
        requires
            alnum@.len() == text@.len(),
            upper@.len() == text@.len(),
        ensures
            tiles_view(tiles@) == numbered_sentences(sentences_by(text@, alnum@, upper@)),
            all_fresh(tiles@),
    {
        let c = chars_of(text);
        let n = c.len();
        let ghost ss = sentences_by(c@, alnum@, upper@);
        let mut tiles: Vec<TextTile> = Vec::new();
        let mut start: usize = 0;
        let mut i: usize = 0;
        let ghost mut done: Seq<Seq<char>> = seq![];
        while i < n
            invariant
                n == c.len(),
                c@ == text@,
                alnum.len() == n,
                upper.len() == n,
                ss == sentences_by(c@, alnum@, upper@),
                start <= i <= n,
                forall|j: int| start <= j < i ==> !ends_sentence(c@, alnum@, upper@, j),
                ss == done + sentences_from(c@, alnum@, upper@, start as int),
                tiles_view(tiles@) == numbered_sentences(done),
                all_fresh(tiles@),
            decreases n - i,
        {
            if sentence_ends_at(&c, alnum, upper, i) {
                proof {
                    lemma_sentence_gap_skip(c@, alnum@, upper@, start as int, i as int);
                }
                let (a, b) = trim_bounds(&c, start, i + 1);
                if a < b {
                    let piece = copy_range(&c, a, b);
                    let ghost prev = tiles@;
                    push_block(&mut tiles, &piece, TextKind::Sentence);
                    proof {
                        assert(tiles_view(prev).len() == prev.len());
                        assert(tiles_view(tiles@) =~= numbered_sentences(done.push(piece@)));
                        assert(done + sentences_from(c@, alnum@, upper@, start as int) =~= done.push(piece@)
                            + sentences_from(c@, alnum@, upper@, i + 1));
                        done = done.push(piece@);
                    }
                }
                start = i + 1;
            }
            i += 1;
        }
        proof {
            lemma_sentence_gap_skip(c@, alnum@, upper@, start as int, n as int);
        }
        let (a, b) = trim_bounds(&c, start, n);
        if a < b {
            let piece = copy_range(&c, a, b);
            let ghost prev = tiles@;
            push_block(&mut tiles, &piece, TextKind::Sentence);
            proof {
                assert(tiles_view(prev).len() == prev.len());
                assert(tiles_view(tiles@) =~= numbered_sentences(done.push(piece@)));
                assert(ss =~= done.push(piece@));
            }
        } else {
            assert(ss =~= done);
        }
        tiles
    }

    /// Decompose text into sentences (see [`TextDecomposer::decompose_sentences_classified`]),
    /// reading each character's classes with `char::is_alphanumeric` and
    /// `char::is_uppercase`.
    pub fn decompose_sentences(&self, text: &str) -> (tiles: Vec<TextTile>)
        ensures
            tiles_view(tiles@) == sentence_tiles(text@),
            all_fresh(tiles@),
    {
        let c = chars_of(text);
        let mut alnum: Vec<bool> = Vec::new();
        let mut upper: Vec<bool> = Vec::new();
        for i in 0..c.len()
            invariant
                alnum@ == alnum_flags(c@).take(i as int),
                upper@ == upper_flags(c@).take(i as int),
        {
            alnum.push(char_is_alphanumeric(c[i]));
            upper.push(char_is_uppercase(c[i]));
            assert(alnum@ =~= alnum_flags(c@).take(i + 1));
            assert(upper@ =~= upper_flags(c@).take(i + 1));
        }
        assert(alnum@ =~= alnum_flags(c@));
        assert(upper@ =~= upper_flags(c@));
        self.decompose_sentences_classified(text, &alnum, &upper)
    }
}

} // verus!
