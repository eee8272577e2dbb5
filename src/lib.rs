//! Collects a project's text files into one document, skipping what an
//! ignore list names. The library holds the ignore-token expansion, the
//! compiled ignore rules, the walker's decisions, the ordering of the
//! listing and the layout of each file's block.

pub mod globs;
pub mod order;
pub mod pattern;
pub mod render;
pub mod rules;
pub mod walk;
