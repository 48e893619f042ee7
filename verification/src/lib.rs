//! Decomposition of text into typed tiles: paragraphs, sentences, lines and words.
pub mod chars;
pub mod text;
pub mod tile;
pub mod decompose;
pub mod sentences;
pub mod language;
pub mod assemble;
pub mod laws;

pub use decompose::TextDecomposer;
pub use tile::{TextKind, TextStats, TextTile};
