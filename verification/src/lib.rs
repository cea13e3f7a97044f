//! Tools for the source files of a font: the kerning groups and kerning
//! pairs of its metadata, and the coordinates of its glyph outlines.
//!
//! `kerning` lists, adds and edits groups and pairs; `basic` summarises a
//! font and rounds the coordinates of every point to even integers;
//! `commands` holds one entry point for each command of the tool. The other
//! modules carry what these rest on: dictionaries ordered by name, decimal
//! numbers as text, trees of outlines, and property lists.

pub mod basic;
pub mod commands;
pub mod decimal;
pub mod dictionary;
pub mod kerning;
pub mod order;
pub mod outline;
pub mod property_list;
pub mod text;
