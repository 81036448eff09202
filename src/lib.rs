//! Ingestion pipeline for a long document: token-bounded chunking, parsing of
//! the segmenter's delimited reply, identifier pools, alignment of embedding
//! batches and assembly of the point records handed to the vector store.

pub mod chunk;
pub mod collection;
pub mod embed;
pub mod error;
pub mod ids;
pub mod segment;
pub mod store;
pub mod text;
pub mod types;
pub mod upload;
