//! `vimhelp-index` — full-text index and search over vimdoc.
//!
//! `domain` holds the language of the problem (documents, queries, search
//! hits); `adapters` bind the concrete pieces (the vimdoc parser, the
//! incremental-build manifest, the tantivy index) to it; `cli` holds what the
//! command line decides and renders. `text` holds the character-level
//! helpers they share.

pub mod adapters;
pub mod cli;
pub mod domain;
pub mod paths;
pub mod text;
