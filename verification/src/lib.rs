//! A small full-text search engine: a tokenizer, per-document term
//! statistics, a corpus model with a document-frequency table, and a ranker.
//!
//! Text is cut into terms by the [`lexer`] (or, with stemming, by the
//! [`tokenizer`]); the terms of one document are counted into a [`Doc`];
//! the documents of a corpus are kept in a [`Model`], together with the
//! number of documents that hold each term; the [`searcher`] scores every
//! document against a query, and [`ranking`] puts the scores in order.

pub mod chars;
pub mod doc;
pub mod indexer;
pub mod lexer;
pub mod model;
pub mod ranking;
pub mod searcher;
pub mod server;
pub mod table;
pub mod tokenizer;

pub use doc::{Doc, DocumentTermsFrequencies};
pub use indexer::{index_dir, index_text};
pub use lexer::Lexer;
pub use model::Model;
pub use ranking::search;
pub use tokenizer::Tokenizer;
