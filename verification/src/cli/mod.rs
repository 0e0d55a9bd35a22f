//! What the command line decides and renders.

pub mod build;
pub mod search;
