//! A file-organizing core: classify files by extension into fixed
//! categories, plan conflict-aware moves into per-category folders, tally
//! the outcome of applying a plan, and report changes between runs from a
//! persisted snapshot. Everything here is pure — the surrounding tool does
//! the I/O and hands plain values in and out.

pub mod laws;
pub mod organizer;
pub mod paths;
pub mod rules;
pub mod state;
pub mod text;
