//! Classification of changed file paths against named groups of glob-style
//! patterns: path decomposition, wildcard matching, configuration parsing
//! and per-group results.
pub mod config;
pub mod diff;
pub mod json;
pub mod matching;
pub mod report;
pub mod text;
