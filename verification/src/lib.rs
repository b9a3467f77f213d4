//! A small bookmark library: tagged links, a pluggable store, and a
//! line-delimited JSON representation for durable storage.

pub mod args;
pub mod collection;
pub mod datastore;
pub mod jsonl;
pub mod links;
pub mod text;
pub mod types;
