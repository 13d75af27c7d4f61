//! Wildcard pattern matching.
//!
//! A pattern string supports three special characters: `?` matches exactly
//! one Unicode scalar value, `*` matches any number of them, and `\`
//! escapes the character after it. A pattern is compiled once into a
//! canonical sequence of elements and then matched against any number of
//! subject strings.

pub mod compiler;
pub mod elements;
pub mod laws;
pub mod matching;
pub mod pattern;
pub mod render;
pub mod scan;
pub mod text;

pub use elements::{Wildcard, ESCAPE_CHAR, WILDCARD_MANY_CHAR, WILDCARD_SINGLE_CHAR};
pub use compiler::Compiler;
pub use pattern::Pattern;
