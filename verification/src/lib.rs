//! Depth-filtered rendering of concrete syntax trees.
//!
//! The crate models a parsed SQL concrete syntax tree as an arena of
//! nodes holding plain values, parses textual depth-range expressions,
//! and renders either an indented tree view or a flat token stream.

pub mod config;
pub mod depth;
pub mod laws;
pub mod render;
pub mod tokens;
pub mod tree;
