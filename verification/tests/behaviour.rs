use forge_text::chars::{char_utf8_width, is_whitespace_char};
use forge_text::{TextDecomposer, TextKind, TextTile};

fn contents(tiles: &[TextTile]) -> Vec<String> {
    tiles.iter().map(|t| t.content.clone()).collect()
}

#[test]
fn whitespace_table_agrees_with_std() {
    for u in 0u32..=0x10FFFF {
        if let Some(c) = char::from_u32(u) {
            assert_eq!(is_whitespace_char(c), c.is_whitespace(), "U+{:04X}", u);
        }
    }
}

#[test]
fn utf8_width_agrees_with_std() {
    for u in 0u32..=0x10FFFF {
        if let Some(c) = char::from_u32(u) {
            assert_eq!(char_utf8_width(c), c.len_utf8());
        }
    }
}

#[test]
fn default_is_new() {
    let d = TextDecomposer::default();
    assert_eq!(contents(&d.decompose_words("x y")), vec!["x", "y"]);
}

#[test]
fn words_split_on_unicode_whitespace_only() {
    let d = TextDecomposer::new();
    assert_eq!(contents(&d.decompose_words(" a\u{a0}b\tc\u{3000}d ")), vec!["a", "b", "c", "d"]);
    // a zero-width space is not whitespace
    assert_eq!(contents(&d.decompose_words("a\u{200b}b")), vec!["a\u{200b}b"]);
}

#[test]
fn word_tiles_are_numbered_and_counted() {
    let d = TextDecomposer::new();
    let tiles = d.decompose_words("  one two\n\nthree ");
    let idx: Vec<u64> = tiles.iter().map(|t| t.index).collect();
    assert_eq!(idx, vec![0, 1, 2]);
    assert!(tiles.iter().all(|t| t.word_count == 1 && t.lang.is_none() && t.meta.is_empty()));
    assert_eq!(tiles[2].char_count, 5);
}

#[test]
fn lines_keep_their_positions() {
    let d = TextDecomposer::new();
    let tiles = d.decompose_lines("first\r\n\n   \n  # title  \n+ item\n*not a list");
    assert_eq!(contents(&tiles), vec!["first", "# title", "+ item", "*not a list"]);
    let idx: Vec<u64> = tiles.iter().map(|t| t.index).collect();
    assert_eq!(idx, vec![0, 3, 4, 5]);
    assert_eq!(tiles[1].kind, TextKind::Heading);
    assert_eq!(tiles[2].kind, TextKind::ListItem);
    assert_eq!(tiles[3].kind, TextKind::Line);
}

#[test]
fn paragraphs_join_lines_and_keep_code_whole() {
    let d = TextDecomposer::new();
    let text = "- a\n  - b\n\n```rust\nlet x = 1;\n\n  indented\n```\ntail line\nmore\n\n> q";
    let tiles = d.decompose_paragraphs(text);
    assert_eq!(
        contents(&tiles),
        vec!["- a - b", "```rust\nlet x = 1;\n\n  indented\n```", "tail line more", "> q"]
    );
    assert_eq!(tiles[0].kind, TextKind::ListItem);
    assert_eq!(tiles[1].kind, TextKind::CodeBlock);
    assert_eq!(tiles[2].kind, TextKind::Paragraph);
    assert_eq!(tiles[3].kind, TextKind::Blockquote);
    let idx: Vec<u64> = tiles.iter().map(|t| t.index).collect();
    assert_eq!(idx, vec![0, 1, 2, 3]);
}

#[test]
fn unclosed_code_block_is_still_code() {
    let d = TextDecomposer::new();
    let tiles = d.decompose_paragraphs("intro\n```\ncode here");
    assert_eq!(contents(&tiles), vec!["intro", "```\ncode here"]);
    assert_eq!(tiles[1].kind, TextKind::CodeBlock);
}

#[test]
fn sentences_skip_short_capital_words() {
    let d = TextDecomposer::new();
    let tiles = d.decompose_sentences("The U.S. economy grew. Then it fell!  Why?no  end");
    assert_eq!(contents(&tiles), vec!["The U.S. economy grew.", "Then it fell!", "Why?no  end"]);
    assert!(tiles.iter().all(|t| t.kind == TextKind::Sentence));
}

#[test]
fn sentences_count_bytes_of_the_short_word() {
    let d = TextDecomposer::new();
    // "É" is one character of two bytes: still short; "ÉÉ" is four bytes: not short.
    assert_eq!(contents(&d.decompose_sentences("Go É. Now ÉÉ. End")), vec!["Go É. Now ÉÉ.", "End"]);
    // a mark right after a non-alphanumeric character is never after a word
    assert_eq!(contents(&d.decompose_sentences("Wait... ok")), vec!["Wait... ok"]);
    assert_eq!(contents(&d.decompose_sentences("Hi there.")), vec!["Hi there."]);
}

#[test]
fn blank_text_gives_no_tiles() {
    let d = TextDecomposer::new();
    let blank = " \n\t\r\n \u{a0}\n";
    assert!(d.decompose_words(blank).is_empty());
    assert!(d.decompose_sentences(blank).is_empty());
    assert!(d.decompose_lines(blank).is_empty());
    assert!(d.decompose_paragraphs(blank).is_empty());
}

#[test]
fn contents_are_trimmed() {
    let d = TextDecomposer::new();
    let text = "  Alpha beta.   Gamma!  \n\n  Delta  \n";
    for t in d.decompose_sentences(text).iter().chain(d.decompose_lines(text).iter()).chain(d.decompose_paragraphs(text).iter()) {
        assert!(!t.content.is_empty());
        assert_eq!(t.content.trim(), t.content);
        assert_eq!(t.char_count, t.content.chars().count());
        assert_eq!(t.word_count, t.content.split_whitespace().count());
    }
}

#[test]
fn reconstruct_sorts_by_index_stably() {
    let d = TextDecomposer::new();
    let mut tiles = d.decompose_words("a b c d");
    tiles[0].index = 5;
    tiles[1].index = 1;
    tiles[2].index = 1;
    tiles[3].index = 0;
    assert_eq!(d.reconstruct(&tiles), "d b c a");
    tiles[3].kind = TextKind::Heading;
    assert_eq!(d.reconstruct(&tiles), "d\n\nb\n\nc\n\na");
    assert_eq!(d.reconstruct(&[]), "");
}

#[test]
fn reconstruct_of_words_normalises_whitespace() {
    let d = TextDecomposer::new();
    let text = "  one\t two \n\n three  ";
    let once = d.reconstruct(&d.decompose_words(text));
    assert_eq!(once, "one two three");
    let twice = d.reconstruct(&d.decompose_words(&once));
    assert_eq!(twice, once);
}

#[test]
fn reconstruct_of_sentences_and_lines() {
    let d = TextDecomposer::new();
    assert_eq!(d.reconstruct(&d.decompose_sentences("A cat sat.  The end.")), "A cat sat. The end.");
    assert_eq!(d.reconstruct(&d.decompose_lines("x\n# y\nz")), "x\n\n# y\n\nz");
    assert_eq!(d.reconstruct(&d.decompose_lines("x\n- y")), "x - y");
}

#[test]
fn stats_sum_the_counts() {
    let d = TextDecomposer::new();
    let tiles = d.decompose_paragraphs("one two three\n\nfour");
    let s = d.stats(&tiles);
    assert_eq!(s.tile_count, 2);
    assert_eq!(s.total_words, 4);
    assert_eq!(s.total_chars, 13 + 4);
    let w = d.stats(&d.decompose_words("héllo  wörld"));
    assert_eq!((w.tile_count, w.total_words, w.total_chars), (2, 2, 10));
}

#[test]
fn detect_language_lowercases_first() {
    let d = TextDecomposer::new();
    assert_eq!(d.detect_language("THE CAT IS ON THE MAT"), Some("en".to_string()));
    assert_eq!(d.language_of_lowercase("THE CAT IS ON THE MAT"), None);
    assert_eq!(d.language_of_lowercase("the cat is on the mat"), Some("en".to_string()));
}

#[test]
fn detect_language_picks_the_most_markers_in_order() {
    let d = TextDecomposer::new();
    assert_eq!(d.detect_language("Der Hund und die Katze ist nicht hier"), Some("de".to_string()));
    assert_eq!(d.detect_language("C'est le chat et les chiens des voisins"), Some("fr".to_string()));
    // one English and one Spanish marker: English comes first
    assert_eq!(d.detect_language("the gato con"), Some("en".to_string()));
    // " la " and " de " count for Spanish and French alike: Spanish comes first
    assert_eq!(d.detect_language("x la y de z"), Some("es".to_string()));
    assert_eq!(d.detect_language(""), None);
}

#[test]
fn block_and_line_kinds() {
    let d = TextDecomposer::new();
    assert_eq!(d.detect_block_kind("# h"), TextKind::Heading);
    assert_eq!(d.detect_block_kind(">q"), TextKind::Blockquote);
    assert_eq!(d.detect_block_kind("* i"), TextKind::ListItem);
    assert_eq!(d.detect_block_kind("-x"), TextKind::Paragraph);
    assert_eq!(d.detect_block_kind("```"), TextKind::Paragraph);
    assert_eq!(d.detect_line_kind("```rust"), TextKind::CodeBlock);
    assert_eq!(d.detect_line_kind("``"), TextKind::Line);
    assert_eq!(d.detect_line_kind(""), TextKind::Line);
}

#[test]
fn tile_ids_are_fresh() {
    let d = TextDecomposer::new();
    let tiles = d.decompose_words("a a");
    assert_ne!(tiles[0].id, tiles[1].id);
    assert_eq!(tiles[0].id.get_version_num(), 4);
    let copy = tiles[0].clone();
    assert_eq!(copy.id, tiles[0].id);
    assert_eq!(copy.content, tiles[0].content);
}

#[test]
fn sentences_but_the_last_end_with_a_mark() {
    let d = TextDecomposer::new();
    let tiles = d.decompose_sentences("One. Two!  Three? Four and more");
    let texts = contents(&tiles);
    assert_eq!(texts, vec!["One.", "Two!", "Three?", "Four and more"]);
    for t in &texts[..texts.len() - 1] {
        assert!(t.ends_with('.') || t.ends_with('!') || t.ends_with('?'));
    }
}

#[test]
fn words_of_text_cut_at_whitespace() {
    let d = TextDecomposer::new();
    let x = "alpha be";
    let y = " ta gamma";
    let mut both = contents(&d.decompose_words(x));
    both.extend(contents(&d.decompose_words(y)));
    assert_eq!(contents(&d.decompose_words(&format!("{}{}", x, y))), both);
}

#[test]
fn sentences_follow_the_given_classes() {
    let d = TextDecomposer::new();
    let text = "Hi. Yo";
    let n = text.chars().count();
    let alnum: Vec<bool> = text.chars().map(|c| c.is_alphanumeric()).collect();
    let upper: Vec<bool> = text.chars().map(|c| c.is_uppercase()).collect();
    assert_eq!(contents(&d.decompose_sentences_classified(text, &alnum, &upper)), vec!["Hi.", "Yo"]);
    // were every character upper case, "Hi" would be a short capital word
    assert_eq!(contents(&d.decompose_sentences_classified(text, &alnum, &vec![true; n])), vec!["Hi. Yo"]);
    // were no character alphanumeric, the word before the mark would be empty
    assert_eq!(contents(&d.decompose_sentences_classified(text, &vec![false; n], &upper)), vec!["Hi. Yo"]);
    assert_eq!(contents(&d.decompose_sentences(text)), vec!["Hi.", "Yo"]);
}

#[test]
fn plain_paragraphs_round_trip() {
    let d = TextDecomposer::new();
    let text = "First one here.\n\nSecond, with more words.\n\nThird.";
    assert_eq!(d.reconstruct(&d.decompose_paragraphs(text)), text);
    let other = TextDecomposer::default();
    assert_eq!(contents(&other.decompose_paragraphs(text)), contents(&d.decompose_paragraphs(text)));
}
