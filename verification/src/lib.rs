//! Chord-driven selection over a hierarchical menu.
//!
//! A menu is an immutable [`tree::Tree`]. A [`driver::Driver`] walks it one
//! typed character at a time and reports what each keystroke selected.

pub mod document;
pub mod driver;
pub mod format;
pub mod frontend;
pub mod parser;
pub mod text;
pub mod tree;
pub mod util;
pub mod walks;
pub mod yaml;
