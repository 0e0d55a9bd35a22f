//! Adapters that bind concrete technology to the domain.

pub mod manifest;
pub mod parser;
pub mod tantivy;
