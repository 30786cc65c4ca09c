//! A personal markdown document store: front-matter and tag parsing,
//! directory-scan modelling, document resolution, search and mutations,
//! all specified and verified over sequences of characters.

pub mod assets;
pub mod config;
pub mod docs;
pub mod frontmatter;
pub mod laws;
pub mod paths;
pub mod resolve;
pub mod search;
pub mod store;
pub mod rewrite;
pub mod tags;
pub mod text;
