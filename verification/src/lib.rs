//! A TF-IDF document search library.
//!
//! The crate tokenizes document text, accumulates per-document and
//! cross-document token frequencies into an index, persists the index in a
//! JSON-shaped text format, and answers free-text queries with the exact
//! integer data that term-frequency/inverse-document-frequency scoring needs.

pub mod chars;
pub mod codec;
pub mod index;
pub mod search_engine;
pub mod tokenizer;

pub use chars::string_to_chars;
pub use codec::LoadError;
pub use index::{get_tokens_freq_within_doc, DocumentFrequencyRecord, SearchEngineIndex};
pub use search_engine::{rank, SearchData, SearchEngine, SearchResult};
pub use tokenizer::{tokenize, Tokenizer};
