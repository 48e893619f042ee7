# forge_text

Decomposes text into typed tiles (paragraphs, sentences, lines, words),
detects the language of a text by common function words, reconstructs text
from tiles and sums their counts. The library is written in Verus: each
public function has a contract over a model of the text as a sequence of
characters, and `src/laws.rs` proves properties that relate the functions.

- `src/chars.rs`: whitespace, alphanumeric and upper-case characters, UTF-8 widths.
- `src/text.rs`: trimming, lines, words, search and joining.
- `src/tile.rs`: tiles, their kinds, and the markdown markers that pick a kind.
- `src/decompose.rs`: paragraphs (with code fences), lines and words.
- `src/sentences.rs`: sentences.
- `src/language.rs`: language detection.
- `src/assemble.rs`: reading order, reconstruction and totals.
- `src/laws.rs`: the properties.
- `app/`: serialisable copies of the tile and statistics types, and the
  average tile size, which is a floating-point figure.
