//! Finds a byte pattern in binary data and renders the bytes around each match as an
//! annotated hex dump.
//!
//! The library is a set of verified building blocks that neither read nor print.
//! [`compile`] turns what the user typed into a [`pattern`].  [`matcher`] searches one
//! buffer for it, [`scanner`] carries that search over a source of any length one chunk at
//! a time, and [`search`] runs the scanner over bytes in memory; [`guarantees`] states what
//! such a search finds, in terms of [`literal`] occurrences.  [`layout`] decides which dump
//! lines surround a match and which of their columns are highlighted, [`render`] formats
//! one such line, and [`dump`] puts the two together for bytes in memory.

pub mod hex;
pub mod text;
pub mod pattern;
pub mod compile;
pub mod literal;
pub mod matcher;
pub mod scanner;
pub mod search;
pub mod guarantees;
pub mod layout;
pub mod render;
pub mod dump;
