//! Character sequences: trimming, line and word splitting, search and joining.
use vstd::prelude::*;
use crate::chars::{is_ws, is_whitespace_char};

verus! {

// ---------------------------------------------------------------------------
// Conversions between `str`/`String` and vectors of characters.

/// The characters of `s`, in order.
pub fn chars_of(s: &str) -> (v: Vec<char>)
    ensures
        v@ == s@,
{
    let mut v: Vec<char> = Vec::new();
    for c in it: s.chars()
        invariant
            v@ == it.seq().take(it.index()),
            it.seq() == s@,
    {
        v.push(c);
    }
    v
}

/// Calls `String::push`, which appends one character.
#[verifier::external_body]
fn push_char(s: &mut String, c: char)
    ensures
        final(s)@ == old(s)@.push(c),
{
    s.push(c);
}

/// A `String` holding the characters of `v`.
pub fn string_of(v: &Vec<char>) -> (s: String)
    ensures
        s@ == v@,
{
    let mut s = String::new();
    for i in 0..v.len()
        invariant
            s@ == v@.take(i as int),
    {
        push_char(&mut s, v[i]);
        assert(v@.take(i + 1) =~= v@.take(i as int).push(v@[i as int]));
    }
    assert(v@.take(v.len() as int) =~= v@);
    s
}

/// A copy of `v[a..b]`.
pub fn copy_range(v: &Vec<char>, a: usize, b: usize) -> (r: Vec<char>)
    requires
        a <= b <= v.len(),
    ensures
        r@ == v@.subrange(a as int, b as int),
{
    let mut r: Vec<char> = Vec::new();
    let mut i = a;
    while i < b
        invariant
            a <= i <= b <= v.len(),
            r@ == v@.subrange(a as int, i as int),
        decreases b - i,
    {
        r.push(v[i]);
        assert(v@.subrange(a as int, i + 1) =~= v@.subrange(a as int, i as int).push(v@[i as int]));
        i += 1;
    }
    r
}

/// Appends the characters of `src` to `dst`.
pub fn append_chars(dst: &mut Vec<char>, src: &Vec<char>)
    ensures
        final(dst)@ == old(dst)@ + src@,
{
    for i in 0..src.len()
        invariant
            dst@ == old(dst)@ + src@.take(i as int),
    {
        dst.push(src[i]);
        assert(src@.take(i + 1) =~= src@.take(i as int).push(src@[i as int]));
    }
    assert(src@.take(src.len() as int) =~= src@);
}

/// The views of a sequence of character vectors.
pub open spec fn views(v: Seq<Vec<char>>) -> Seq<Seq<char>> {
    v.map_values(|x: Vec<char>| x@)
}

// ---------------------------------------------------------------------------
// Trimming.

/// `s` without its leading whitespace.
pub open spec fn trim_start(s: Seq<char>) -> Seq<char>
    decreases s.len(),
{
    if s.len() > 0 && is_ws(s[0]) {
        trim_start(s.drop_first())
    } else {
        s
    }
}

/// `s` without its trailing whitespace.
pub open spec fn trim_end(s: Seq<char>) -> Seq<char>
    decreases s.len(),
{
    if s.len() > 0 && is_ws(s.last()) {
        trim_end(s.drop_last())
    } else {
        s
    }
}

/// `s` without leading and trailing whitespace, as `str::trim` gives it.
pub open spec fn trim(s: Seq<char>) -> Seq<char> {
    trim_end(trim_start(s))
}

/// The bounds of `trim(v[a..b])` inside `v`.
pub fn trim_bounds(v: &Vec<char>, a: usize, b: usize) -> (r: (usize, usize))
    requires
        a <= b <= v.len(),
    ensures
        a <= r.0 <= r.1 <= b,
        v@.subrange(r.0 as int, r.1 as int) == trim(v@.subrange(a as int, b as int)),
{
    let mut s = a;
    while s < b && is_whitespace_char(v[s])
        invariant
            a <= s <= b <= v.len(),
            trim_start(v@.subrange(a as int, b as int)) == trim_start(v@.subrange(s as int, b as int)),
        decreases b - s,
    {
        assert(v@.subrange(s as int, b as int).drop_first() =~= v@.subrange(s + 1, b as int));
        s += 1;
    }
    let mut e = b;
    while e > s && is_whitespace_char(v[e - 1])
        invariant
            a <= s <= e <= b <= v.len(),
            trim(v@.subrange(a as int, b as int)) == trim_end(v@.subrange(s as int, e as int)),
        decreases e - s,
    {
        assert(v@.subrange(s as int, e as int).drop_last() =~= v@.subrange(s as int, e - 1));
        e -= 1;
    }
    (s, e)
}

/// A copy of `trim(v)`.
pub fn trimmed(v: &Vec<char>) -> (r: Vec<char>)
    ensures
        r@ == trim(v@),
{
    let (a, b) = trim_bounds(v, 0, v.len());
    assert(v@.subrange(0, v.len() as int) =~= v@);
    copy_range(v, a, b)
}

// ---------------------------------------------------------------------------
// Lines, as `str::lines` splits them.

/// Number of characters from position `i` before the next line feed (or the end).
pub open spec fn line_len(c: Seq<char>, i: int) -> nat
    decreases c.len() - i,
{
    if 0 <= i < c.len() && c[i] != '\n' {
        1 + line_len(c, i + 1)
    } else {
        0
    }
}

/// `line` without one trailing carriage return.
pub open spec fn strip_cr(line: Seq<char>) -> Seq<char> {
    if line.len() > 0 && line.last() == '\r' {
        line.drop_last()
    } else {
        line
    }
}

/// The lines of `c` that start at or after position `i` (a line start).
/// A line ends at a line feed, which it does not hold, nor a carriage return
/// just before it; the last line needs no line feed, and none follows a final one.
pub open spec fn lines_from(c: Seq<char>, i: int) -> Seq<Seq<char>>
    decreases c.len() - i,
{
    if i < 0 || i >= c.len() {
        seq![]
    } else {
        let k = i + line_len(c, i);
        if k < c.len() {
            seq![strip_cr(c.subrange(i, k))] + lines_from(c, k + 1)
        } else {
            seq![c.subrange(i, c.len() as int)]
        }
    }
}

/// The lines of `c`, as `str::lines` yields them.
pub open spec fn lines(c: Seq<char>) -> Seq<Seq<char>> {
    lines_from(c, 0)
}

proof fn lemma_line_len_skip(c: Seq<char>, a: int, b: int)
    requires
        0 <= a <= b <= c.len(),
        forall|j: int| a <= j < b ==> c[j] != '\n',
    ensures
        line_len(c, a) == (b - a) + line_len(c, b),
    decreases b - a,
{
    if a < b {
        lemma_line_len_skip(c, a + 1, b);
    }
}

/// The lines of `c`.
pub fn split_lines(c: &Vec<char>) -> (out: Vec<Vec<char>>)
    ensures
        views(out@) == lines(c@),
{
    let n = c.len();
    let mut out: Vec<Vec<char>> = Vec::new();
    let mut start: usize = 0;
    let mut i: usize = 0;
    while i < n
        invariant
            n == c.len(),
            0 <= start <= i <= n,
            views(out@) + lines_from(c@, start as int) == lines(c@),
            forall|j: int| start <= j < i ==> c@[j] != '\n',
        decreases n - i,
    {
        if c[i] == '\n' {
            proof {
                lemma_line_len_skip(c@, start as int, i as int);
            }
            let mut e = i;
            if e > start && c[e - 1] == '\r' {
                e = e - 1;
            }
            let line = copy_range(c, start, e);
            assert(line@ == strip_cr(c@.subrange(start as int, i as int))) by {
                if i > start && c@[i - 1] == '\r' {
                    assert(c@.subrange(start as int, i as int).drop_last() =~= c@.subrange(
                        start as int,
                        i - 1,
                    ));
                }
            }
            let ghost prev = out@;
            out.push(line);
            assert(views(out@) =~= views(prev).push(line@));
            assert(views(out@) + lines_from(c@, i + 1) =~= views(prev) + lines_from(c@, start as int));
            start = i + 1;
        }
        i += 1;
    }
    if start < n {
        proof {
            lemma_line_len_skip(c@, start as int, n as int);
        }
        let line = copy_range(c, start, n);
        let ghost prev = out@;
        out.push(line);
        assert(views(out@) =~= views(prev).push(line@));
        assert(views(out@) =~= views(prev) + lines_from(c@, start as int));
    } else {
        assert(views(out@) =~= views(out@) + lines_from(c@, start as int));
    }
    out
}


// ---------------------------------------------------------------------------
// Words, as `str::split_whitespace` yields them.

/// Number of non-whitespace characters from position `i` up to the next whitespace (or the end).
pub open spec fn word_len(c: Seq<char>, i: int) -> nat
    decreases c.len() - i,
{
    if 0 <= i < c.len() && !is_ws(c[i]) {
        1 + word_len(c, i + 1)
    } else {
        0
    }
}

/// The words of `c` at or after position `i`: the maximal runs of
/// non-whitespace characters, in order.
pub open spec fn words_from(c: Seq<char>, i: int) -> Seq<Seq<char>>
    decreases c.len() - i,
{
    if i < 0 || i >= c.len() {
        seq![]
    } else if is_ws(c[i]) {
        words_from(c, i + 1)
    } else {
        let b = i + word_len(c, i);
        proof {
            lemma_word_len_bound(c, i);
        }
        seq![c.subrange(i, b)] + words_from(c, b)
    }
}

/// The words of `c`, as `str::split_whitespace` yields them.
pub open spec fn words(c: Seq<char>) -> Seq<Seq<char>> {
    words_from(c, 0)
}

pub proof fn lemma_word_len_bound(c: Seq<char>, i: int)
    requires
        0 <= i < c.len(),
        !is_ws(c[i]),
    ensures
        1 <= word_len(c, i) <= c.len() - i,
    decreases c.len() - i,
{
    if i + 1 < c.len() && !is_ws(c[i + 1]) {
        lemma_word_len_bound(c, i + 1);
    } else {
        assert(word_len(c, i + 1) == 0);
    }
}

proof fn lemma_word_len_skip(c: Seq<char>, a: int, b: int)
    requires
        0 <= a <= b <= c.len(),
        forall|j: int| a <= j < b ==> !is_ws(c[j]),
    ensures
        word_len(c, a) == (b - a) + word_len(c, b),
    decreases b - a,
{
    if a < b {
        lemma_word_len_skip(c, a + 1, b);
    }
}

/// The words of `c`.
pub fn split_words(c: &Vec<char>) -> (out: Vec<Vec<char>>)
    ensures
        views(out@) == words(c@),
{
    let n = c.len();
    let mut out: Vec<Vec<char>> = Vec::new();
    let mut i: usize = 0;
    assert(views(out@) + words_from(c@, 0) =~= words(c@));
    while i < n
        invariant
            n == c.len(),
            i <= n,
            views(out@) + words_from(c@, i as int) == words(c@),
        decreases n - i,
    {
        if is_whitespace_char(c[i]) {
            i += 1;
        } else {
            let mut j = i;
            while j < n && !is_whitespace_char(c[j])
                invariant
                    n == c.len(),
                    i <= j <= n,
                    forall|k: int| i <= k < j ==> !is_ws(c@[k]),
                decreases n - j,
            {
                j += 1;
            }
            proof {
                lemma_word_len_skip(c@, i as int, j as int);
            }
            let w = copy_range(c, i, j);
            let ghost prev = out@;
            out.push(w);
            assert(views(out@) =~= views(prev).push(w@));
            assert(views(out@) + words_from(c@, j as int) =~= views(prev) + words_from(c@, i as int));
            i = j;
        }
    }
    assert(views(out@) =~= views(out@) + words_from(c@, i as int));
    out
}

/// The number of words of `c`.
pub fn count_words(c: &Vec<char>) -> (n: usize)
    ensures
        n == words(c@).len(),
{
    let ws = split_words(c);
    ws.len()
}

// ---------------------------------------------------------------------------
// Search and joining.

/// `p` occurs in `s` starting at position `i`.
pub open spec fn occurs_at(s: Seq<char>, p: Seq<char>, i: int) -> bool {
    0 <= i && i + p.len() <= s.len() && s.subrange(i, i + p.len()) == p
}

/// `p` occurs somewhere in `s`, as `str::contains` asks.
pub open spec fn contains(s: Seq<char>, p: Seq<char>) -> bool {
    exists|i: int| occurs_at(s, p, i)
}

/// Whether `p` occurs in `s`.
pub fn contains_chars(s: &Vec<char>, p: &Vec<char>) -> (b: bool)
    ensures
        b == contains(s@, p@),
{
    let n = s.len();
    let m = p.len();
    if m > n {
        assert forall|i: int| !occurs_at(s@, p@, i) by {}
        return false;
    }
    let mut i: usize = 0;
    while i <= n - m
        invariant
            n == s.len(),
            m == p.len(),
            m <= n,
            i <= n - m + 1,
            forall|k: int| 0 <= k < i ==> !occurs_at(s@, p@, k),
        decreases n - m + 1 - i,
    {
        let mut j: usize = 0;
        while j < m && s[i + j] == p[j]
            invariant
                n == s.len(),
                m == p.len(),
                i + m <= n,
                j <= m,
                forall|k: int| 0 <= k < j ==> s@[i + k] == p@[k],
            decreases m - j,
        {
            j += 1;
        }
        if j == m {
            assert(s@.subrange(i as int, i + m) =~= p@);
            assert(occurs_at(s@, p@, i as int));
            return true;
        }
        assert(!occurs_at(s@, p@, i as int)) by {
            if occurs_at(s@, p@, i as int) {
                assert(s@.subrange(i as int, i + m)[j as int] == p@[j as int]);
            }
        }
        i += 1;
    }
    assert forall|k: int| !occurs_at(s@, p@, k) by {
        if occurs_at(s@, p@, k) {
            assert(k < i);
        }
    }
    false
}

/// The pieces of `list` with `sep` between each two neighbours.
pub open spec fn join(list: Seq<Seq<char>>, sep: Seq<char>) -> Seq<char>
    decreases list.len(),
{
    if list.len() == 0 {
        seq![]
    } else if list.len() == 1 {
        list[0]
    } else {
        join(list.drop_last(), sep) + sep + list.last()
    }
}

} // verus!
