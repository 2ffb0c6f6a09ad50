//! A retrieval-augmented question answering engine over a corpus of prose and
//! source code.
//!
//! The crate holds the decisions of two flows. Indexing turns files into
//! bounded, enriched, embedded chunks and records which content a namespace
//! already holds. Querying expands a question, merges what the store returns
//! and binds it into the prompt of the final answer. Every call to a model, a
//! cache or a store is made by the caller: the engine says which call comes
//! next and what follows from its outcome.
pub mod batch;
pub mod cache;
pub mod chunker;
pub mod config;
pub mod enrich;
pub mod error;
pub mod index;
pub mod loader;
pub mod namespace;
pub mod outline;
pub mod prompt;
pub mod query;
pub mod retrieve;
pub mod store;
pub mod text;
pub mod unit;
pub mod world;
