//! An in-memory full-text search library: a streaming word tokenizer, a
//! stemming normalizer, an inverted index ranked by stem overlap, and the
//! framed request/response codec that a search server speaks.

pub mod ingestion;
pub mod inverted_index;
pub mod messages;
pub mod utf8_input;
pub mod word_filtering;
pub mod word_stemming;
