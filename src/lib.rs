//! Local retrieval support: text chunking, binary vector encoding, ranking
//! and an embedding store with idempotent indexing.
pub mod text;
pub mod chunker;
pub mod vector_store;
pub mod store;
pub mod indexing;
pub mod documents;
pub mod embeddings;
pub mod commands;
