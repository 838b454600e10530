//! Resolves search queries that carry a `!shortcut` into redirect URLs, using
//! a compact, deduplicated catalog of search engines and a small layer of
//! user-defined overrides.

pub mod text;
pub mod template;
pub mod tables;
pub mod engines;
pub mod defaults;
pub mod resolve;
pub mod compile;
pub mod config;
pub mod listing;
