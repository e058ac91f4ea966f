//! A lightweight loader and parser for `.sfl` bitmap-font descriptor files.
//!
//! An `.sfl` file is line oriented: the font name, a header line with the
//! point size and line height, the atlas image path, the declared glyph
//! count, and then one line of eight whitespace-separated integers per glyph.
//! Parsing is pure: every entry point is a function of the descriptor text
//! alone, and its result is pinned down by a specification-level parser.

pub mod font;
pub mod num;
pub mod text;

pub use font::BMCharacter;
pub use font::BMFont;
pub use font::ParseError;
