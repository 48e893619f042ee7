use forge_text::{TextDecomposer, TextKind};

fn decomposer() -> TextDecomposer {
    TextDecomposer::new()
}

#[test]
fn test_decompose_paragraphs_basic() {
    let d = decomposer();
    let text = "First paragraph.\n\nSecond paragraph.\n\nThird one.";
    let tiles = d.decompose_paragraphs(text);
    assert_eq!(tiles.len(), 3);
    assert_eq!(tiles[0].kind, TextKind::Paragraph);
    assert_eq!(tiles[0].content, "First paragraph.");
    assert_eq!(tiles[1].content, "Second paragraph.");
    assert_eq!(tiles[2].content, "Third one.");
}

#[test]
fn test_decompose_paragraphs_heading() {
    let d = decomposer();
    let text = "# Title\n\nSome content under it.";
    let tiles = d.decompose_paragraphs(text);
    assert_eq!(tiles.len(), 2);
    assert_eq!(tiles[0].kind, TextKind::Heading);
    assert_eq!(tiles[0].content, "# Title");
}

#[test]
fn test_decompose_paragraphs_list_item() {
    let d = decomposer();
    let text = "- Item one\n- Item two\n\nA paragraph.";
    let tiles = d.decompose_paragraphs(text);
    // Lines get joined into one block until blank line
    assert!(tiles.iter().any(|t| t.kind == TextKind::ListItem || t.kind == TextKind::Paragraph));
}

#[test]
fn test_decompose_paragraphs_blockquote() {
    let d = decomposer();
    let text = "> This is a quote\n\nNormal text.";
    let tiles = d.decompose_paragraphs(text);
    assert_eq!(tiles[0].kind, TextKind::Blockquote);
}

#[test]
fn test_decompose_paragraphs_code_block() {
    let d = decomposer();
    let text = "Some text\n\n```\nfn main() {}\n```\n\nMore text.";
    let tiles = d.decompose_paragraphs(text);
    assert!(tiles.iter().any(|t| t.kind == TextKind::CodeBlock));
    let code_tile = tiles.iter().find(|t| t.kind == TextKind::CodeBlock).unwrap();
    assert!(code_tile.content.contains("fn main()"));
}

#[test]
fn test_decompose_sentences() {
    let d = decomposer();
    let text = "Hello world. How are you? I am fine!";
    let tiles = d.decompose_sentences(text);
    assert_eq!(tiles.len(), 3);
    assert_eq!(tiles[0].content, "Hello world.");
    assert_eq!(tiles[1].content, "How are you?");
    assert_eq!(tiles[2].content, "I am fine!");
}

#[test]
fn test_decompose_lines() {
    let d = decomposer();
    let text = "line one\nline two\nline three";
    let tiles = d.decompose_lines(text);
    assert_eq!(tiles.len(), 3);
    assert_eq!(tiles[0].content, "line one");
    assert!(tiles.iter().all(|t| t.kind == TextKind::Line));
}

#[test]
fn test_decompose_lines_markdown() {
    let d = decomposer();
    let text = "# Heading\n> quote\n- list item\nnormal\n```code```";
    let tiles = d.decompose_lines(text);
    assert_eq!(tiles[0].kind, TextKind::Heading);
    assert_eq!(tiles[1].kind, TextKind::Blockquote);
    assert_eq!(tiles[2].kind, TextKind::ListItem);
    assert_eq!(tiles[3].kind, TextKind::Line);
    assert_eq!(tiles[4].kind, TextKind::CodeBlock);
}

#[test]
fn test_decompose_words() {
    let d = decomposer();
    let text = "hello world foo";
    let tiles = d.decompose_words(text);
    assert_eq!(tiles.len(), 3);
    assert_eq!(tiles[0].content, "hello");
    assert_eq!(tiles[1].content, "world");
    assert_eq!(tiles[2].content, "foo");
    assert!(tiles.iter().all(|t| t.kind == TextKind::Word));
}

#[test]
fn test_detect_language_english() {
    let d = decomposer();
    assert_eq!(d.detect_language("This is the best thing in the world and it is great."), Some("en".to_string()));
}

#[test]
fn test_detect_language_none() {
    let d = decomposer();
    assert_eq!(d.detect_language("xyz"), None);
}

#[test]
fn test_reconstruct_paragraphs() {
    let d = decomposer();
    let tiles = d.decompose_paragraphs("Hello world.\n\nGoodbye world.");
    let result = d.reconstruct(&tiles);
    assert_eq!(result, "Hello world.\n\nGoodbye world.");
}

#[test]
fn test_reconstruct_words() {
    let d = decomposer();
    let tiles = d.decompose_words("a b c");
    let result = d.reconstruct(&tiles);
    assert_eq!(result, "a b c");
}

#[test]
fn test_stats() {
    let d = decomposer();
    let tiles = d.decompose_words("hello world foo bar");
    let s = d.stats(&tiles);
    assert_eq!(s.tile_count, 4);
    assert_eq!(s.total_words, 4);
    assert_eq!(s.total_chars, 5 + 5 + 3 + 3); // hello(5) world(5) foo(3) bar(3) = 16
    // The average tile size is the one floating-point figure; it is computed
    // from the verified totals.
    let avg_tile_size = s.total_chars as f64 / s.tile_count as f64;
    assert!((avg_tile_size - 4.0).abs() < 0.01);
}

#[test]
fn test_empty_input() {
    let d = decomposer();
    assert!(d.decompose_paragraphs("").is_empty());
    assert!(d.decompose_sentences("").is_empty());
    assert!(d.decompose_lines("").is_empty());
    assert!(d.decompose_words("").is_empty());
    let s = d.stats(&[]);
    assert_eq!(s.tile_count, 0);
}

#[test]
fn test_unicode() {
    let d = decomposer();
    let tiles = d.decompose_words("こんにちは 世界");
    assert_eq!(tiles.len(), 2);
    assert_eq!(tiles[0].char_count, 5); // こんにちは
    assert_eq!(tiles[1].char_count, 2); // 世界
}

#[test]
fn test_long_text() {
    let d = decomposer();
    let text: String = (0..1000).map(|i| format!("Word{}", i)).collect::<Vec<_>>().join(" ");
    let tiles = d.decompose_words(&text);
    assert_eq!(tiles.len(), 1000);
    let s = d.stats(&tiles);
    assert_eq!(s.tile_count, 1000);
}

#[test]
fn test_tile_has_uuid() {
    let d = decomposer();
    let tiles = d.decompose_words("test");
    assert_eq!(tiles.len(), 1);
    assert!(!tiles[0].id.to_string().is_empty());
}

#[test]
fn test_detect_language_spanish() {
    let d = decomposer();
    let text = "Esta es la historia de los días que vienen con el mundo.";
    assert_eq!(d.detect_language(text), Some("es".to_string()));
}
