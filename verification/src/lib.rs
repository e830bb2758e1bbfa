//! An in-memory typeahead index. Words are stored in a prefix tree under
//! their ASCII lower-case form, each with a popularity. A query for a prefix
//! answers with the word that the prefix spells, if it is stored, and then
//! with the longer words that begin with the prefix, the most popular first.

pub mod app_error;
pub mod config;
pub mod laws;
pub mod loader;
pub mod node;
pub mod query;
pub mod ranking;
pub mod text;
pub mod trie;
pub mod word;
