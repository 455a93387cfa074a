//! A small full-text search engine: text analysis, an inverted index with
//! per-document term statistics, and boolean query evaluation.
pub mod api;
pub mod counting;
pub mod document;
pub mod engine;
pub mod index;
pub mod lists;
pub mod paging;
pub mod ranking;
pub mod state;
pub mod stopwords;
pub mod strmap;
pub mod text;
pub mod tokenizer;

pub use document::{DocStats, Document};
pub use engine::{EngineError, SearchEngine, SearchMode, SearchOptions, SearchResult};
pub use index::{IndexStats, InvertedIndex};
pub use strmap::StringMap;
pub use tokenizer::Tokenizer;
