//! Language detection by common function words.
use vstd::prelude::*;
use crate::text::{chars_of, contains, contains_chars};
use crate::decompose::TextDecomposer;

verus! {

/// What `str::to_lowercase` gives for a string with the characters `s`.
pub uninterp spec fn lowercase(s: Seq<char>) -> Seq<char>;

/// Calls `str::to_lowercase`. The contract claims only that the result is a
/// function of the characters of `s`, named [`lowercase`]; the Unicode case
/// mapping behind it is not restated here.
#[verifier::external_body]
fn to_lowercase(s: &str) -> (r: String)
    ensures
        r@ == lowercase(s@),
{
    s.to_lowercase()
}

/// English markers.
pub open spec fn english_markers() -> Seq<Seq<char>> {
    seq!["the "@, "is "@, "are "@, "and "@, "of "@, "in "@, "to "@, "it "@, "that "@, "this "@]
}

/// Spanish markers.
pub open spec fn spanish_markers() -> Seq<Seq<char>> {
    seq![" el "@, " la "@, " los "@, " las "@, " de "@, " en "@, " es "@, " que "@, " por "@, " con "@]
}

/// French markers.
pub open spec fn french_markers() -> Seq<Seq<char>> {
    seq![" le "@, " la "@, " les "@, " de "@, " des "@, " en "@, " est "@, " que "@, " un "@, " une "@]
}

/// German markers.
pub open spec fn german_markers() -> Seq<Seq<char>> {
    seq![" der "@, " die "@, " das "@, " und "@, " ist "@, " ein "@, " eine "@, " auf "@, " mit "@, " nicht "@]
}

/// How many of `markers` occur in `s`.
pub open spec fn marker_count(s: Seq<char>, markers: Seq<Seq<char>>) -> nat
    decreases markers.len(),
{
    if markers.len() == 0 {
        0
    } else {
        marker_count(s, markers.drop_last()) + if contains(s, markers.last()) {
            1nat
        } else {
            0nat
        }
    }
}

/// The larger of two counts.
pub open spec fn max_count(a: nat, b: nat) -> nat {
    if a >= b {
        a
    } else {
        b
    }
}

/// The language of lower-cased text: the one of English, Spanish, French and
/// German (in this order of preference) whose markers occur most often, or
/// none when no marker occurs.
pub open spec fn language_of(lower: Seq<char>) -> Option<Seq<char>> {
    let en = marker_count(lower, english_markers());
    let es = marker_count(lower, spanish_markers());
    let fr = marker_count(lower, french_markers());
    let de = marker_count(lower, german_markers());
    let top = max_count(max_count(max_count(en, es), fr), de);
    if top == 0 {
        None
    } else if en == top {
        Some("en"@)
    } else if es == top {
        Some("es"@)
    } else if fr == top {
        Some("fr"@)
    } else {
        Some("de"@)
    }
}

/// The characters of an optional string.
pub open spec fn option_chars(o: Option<String>) -> Option<Seq<char>> {
    match o {
        Some(s) => Some(s@),
        None => None,
    }
}

/// How many of `markers` occur in `hay`.
fn count_markers(hay: &Vec<char>, markers: &[&str]) -> (n: usize)
    ensures
        n == marker_count(hay@, markers@.map_values(|m: &str| m@)),
{
    let ghost mv = markers@.map_values(|m: &str| m@);
    let mut n: usize = 0;
    for k in 0..markers.len()
        invariant
            mv == markers@.map_values(|m: &str| m@),
            n <= k,
            n == marker_count(hay@, mv.take(k as int)),
    {
        let m = chars_of(markers[k]);
        assert(mv.take(k + 1).drop_last() =~= mv.take(k as int));
        if contains_chars(hay, &m) {
            n += 1;
        }
    }
    assert(mv.take(markers.len() as int) =~= mv);
    n
}

impl TextDecomposer {
    /// The language of text that is already lower case (see [`language_of`]).
    pub fn language_of_lowercase(&self, lower: &str) -> (r: Option<String>)
        ensures
            option_chars(r) == language_of(lower@),
    {
        let hay = chars_of(lower);
        let en_words: [&str; 10] = ["the ", "is ", "are ", "and ", "of ", "in ", "to ", "it ", "that ", "this "];
        let es_words: [&str; 10] = [" el ", " la ", " los ", " las ", " de ", " en ", " es ", " que ", " por ", " con "];
        let fr_words: [&str; 10] = [" le ", " la ", " les ", " de ", " des ", " en ", " est ", " que ", " un ", " une "];
        let de_words: [&str; 10] = [" der ", " die ", " das ", " und ", " ist ", " ein ", " eine ", " auf ", " mit ", " nicht "];
        assert(en_words@.map_values(|m: &str| m@) =~= english_markers());
        assert(es_words@.map_values(|m: &str| m@) =~= spanish_markers());
        assert(fr_words@.map_values(|m: &str| m@) =~= french_markers());
        assert(de_words@.map_values(|m: &str| m@) =~= german_markers());
        let en = count_markers(&hay, &en_words);
        let es = count_markers(&hay, &es_words);
        let fr = count_markers(&hay, &fr_words);
        let de = count_markers(&hay, &de_words);
        let mut top = en;
        if es > top {
            top = es;
        }
        if fr > top {
            top = fr;
        }
        if de > top {
            top = de;
        }
        if top == 0 {
            return None;
        }
        if en == top {
            return Some("en".to_string());
        }
        if es == top {
            return Some("es".to_string());
        }
        if fr == top {
            return Some("fr".to_string());
        }
        Some("de".to_string())
    }

    /// Simple language detection: lower-case the text, then count the common
    /// function words of English, Spanish, French and German that occur in it.
    pub fn detect_language(&self, text: &str) -> (r: Option<String>)
        ensures
            option_chars(r) == language_of(lowercase(text@)),
    {
        let lower = to_lowercase(text);
        self.language_of_lowercase(lower.as_str())
    }
}

} // verus!
