//! Core of a personalized launcher index: a versioned binary envelope for
//! persisted state, a query normalizer, an indexer over scan rules, a history
//! store with bounded growth, and a search engine that ranks catalog entries
//! by textual relevance blended with learned usage signals.

pub mod binfmt;
pub mod config;
pub mod folder;
pub mod history;
pub mod indexer;
pub mod query;
pub mod rank;
pub mod search;
pub mod text;
pub mod ui_types;
pub mod window_data;
