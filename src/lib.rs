//! An always-on local full-text search engine: a text pipeline, an
//! in-memory inverted index over monitored files, and a ranked query engine.

pub mod index;
pub mod laws;
pub mod order;
pub mod protocol;
pub mod query;
pub mod text;
pub mod watch;
