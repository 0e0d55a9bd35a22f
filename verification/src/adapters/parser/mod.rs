//! Source-format parsers.

pub mod vimdoc;
