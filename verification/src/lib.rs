//! The core of a TF-IDF search engine, with contracts checked by Verus.
//!
//! Text is analyzed into stems (`tokenizer`), stems and documents receive
//! dense identifiers (`dictionary`, `docs`, `doc_id_map`, on top of
//! `interner`), documents are ingested into raw posting lists (`builder`,
//! whose mathematical model is `corpus`), the index is written to and read
//! from its files (`persist`, on top of `codec`, `dense` and `decimal`), and
//! queries are planned, ranked and answered with snippets (`query`, `ranking`,
//! `snippet`, `search`). Around that stand the rules of the build's input
//! (`ingest`), of the administrative endpoints (`admin`) and of the crawler
//! (`robots`, `crawl`). `strings` holds what all of them need of texts.
//!
//! Weights and scores are IEEE-754 singles. The library never computes with
//! them: it carries their bit patterns, orders scores by them, and leaves the
//! arithmetic to its caller. Unicode normalization, lowercasing, regular
//! expressions, stemming and the validation of UTF-8 are done by other crates
//! and by std; the few functions that call them are marked as trusted where
//! they stand, and what they return is either stated or given a name that the
//! contracts speak of.

pub mod admin;
pub mod builder;
pub mod codec;
pub mod corpus;
pub mod crawl;
pub mod decimal;
pub mod dense;
pub mod dictionary;
pub mod doc_id_map;
pub mod docs;
pub mod index;
pub mod ingest;
pub mod interner;
pub mod persist;
pub mod query;
pub mod ranking;
pub mod robots;
pub mod search;
pub mod snippet;
pub mod strings;
pub mod tokenizer;

pub use dictionary::{Dictionary, TermId};
pub use index::{DocId, DocMeta, InputDoc, InvertedIndex, Posting};
