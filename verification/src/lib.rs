//! Inline dialog markup for a fixed-size dialog box.
//!
//! The library parses an inline markup language (`<name:...>` tags with
//! `<<` and `<>` escapes) into a sequence of styled text runs, and wraps
//! those runs into lines that fit a pixel width known only through a
//! pluggable text-measurement oracle.

pub mod dialog;
pub mod laws;
pub mod layout;
pub mod pretty_string;
pub mod rules;
pub mod style;
pub mod tokenize;
