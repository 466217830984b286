//! A retrieval service that stores vectors under tags: texts are cut into
//! chunks, the chunk vectors live in a quantised index, and a query is
//! answered with the tags whose chunks score best.
//!
//! Numbers of single precision are held as their bit patterns, and tags as
//! 128-bit integers.
pub mod api;
pub mod bits;
pub mod chunker;
pub mod config;
pub mod embed_job;
pub mod embedding;
pub mod error;
pub mod memory;
pub mod query_cache;
pub mod ranking;
pub mod score;
pub mod search;
pub mod store;
pub mod store_laws;
pub mod tag;
pub mod tags_file;
pub mod text;
pub mod vector_index;
pub mod writer;
pub mod writer_laws;
