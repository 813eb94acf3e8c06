//! Deterministic ordering of utility-class attribute strings found in text.
//!
//! `sorting` orders the tokens of one class string, `pattern` finds class spans
//! with regular expressions and splices replacements into text, `utils` rewrites
//! whole texts under the active options, and `laws` states what holds of them.
pub mod catalog;
pub mod laws;
pub mod options;
pub mod pattern;
pub mod sorting;
pub mod tokens;
pub mod utils;
