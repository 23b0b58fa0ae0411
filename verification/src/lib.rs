//! Core of an e-book reader: chapter markup is turned into clean display
//! lines, and per-line formatting, highlights and notes are kept under
//! `(chapter, line)` coordinates of that clean text. Shelves group books by
//! their identifiers.

pub mod color;
pub mod index;
pub mod invariants;
pub mod library;
pub mod markup;
pub mod note;
pub mod notes;
pub mod panel;
pub mod record;
pub mod registry;
pub mod shelf;
pub mod store;
pub mod text;
