//! Renders rows of text as a bordered console table.
//!
//! Overlong cell content is wrapped at a fixed column width, every cell of a
//! row is padded into a uniform rectangular block, and the resulting grid is
//! drawn with a configurable set of border-drawing characters.

pub mod decimal;
pub mod tables;
pub mod themes;
pub mod wrap;
