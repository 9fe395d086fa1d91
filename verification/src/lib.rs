//! Structural analysis, lineage and comparison of JavaScript sources.

pub mod analysis;
pub mod bytes;
pub mod canonical_laws;
pub mod canonicalizer;
pub mod chars;
pub mod cli;
pub mod commands;
pub mod diff;
pub mod digest;
pub mod dump;
pub mod edits;
pub mod envelope;
pub mod faults;
pub mod json;
pub mod lineage;
pub mod naming;
pub mod order;
pub mod outline;
pub mod parser;
pub mod postings;
pub mod pretty;
pub mod render;
pub mod render_laws;
pub mod scope;
pub mod sets;
pub mod sourcemap;
pub mod syntax;
pub mod text;
