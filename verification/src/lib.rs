//! A small library for publishing an Obsidian-style vault of markdown notes.
//!
//! Raw note text is split into a frontmatter block and a body, the block is
//! decoded into typed metadata, wiki-style `[[..]]` link and `![[..]]` embed
//! markers are resolved against the vault, and a publishable site snapshot is
//! assembled. All text is handled as UTF-8 byte sequences.

pub mod gen;
pub mod meta;
pub mod obsidian;
pub mod refmap;
pub mod scan;
pub mod site;
pub mod templates;
pub mod text;
