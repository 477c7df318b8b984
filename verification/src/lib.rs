//! Core engine of a small feed reader.
//!
//! The crate normalizes the two common wire formats for web feeds (RSS and
//! Atom) into one canonical model, derives a stable content hash for every
//! entry so that re-fetches can be deduplicated, diffs a freshly fetched
//! feed against a stored snapshot to find the genuinely new entries, and
//! maintains a "quickmark" numbering overlay that gives unread entries
//! stable, densely numbered handles across independent commands.

pub mod cli;
pub mod commands;
pub mod db;
pub mod laws;
pub mod rss;
pub mod sync;
pub mod text;
pub mod time;
pub mod xml_handler;
