//! A search index over a lexicon of inflected verbs.
//!
//! Given a headword, an inflected surface form or the start of a
//! translation, the index returns the matching entries and says which
//! grammatical slots of each entry matched. It is built once from a
//! complete list of entries and only read afterwards.
//!
//! - [`util`]: text normalization.
//! - [`prefix_tree`]: the trie behind prefix queries.
//! - [`translation`]: search keys from free-text translations.
//! - [`word_dto`]: entries, forms and results.
//! - [`word_index`]: the index and its queries.
//! - [`proto`]: records as they come off the wire, and their conversion.

pub mod prefix_tree;
pub mod proto;
pub mod translation;
pub mod util;
pub mod word_dto;
pub mod word_index;
