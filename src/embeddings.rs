//! Facts about the embedding collaborator that the rest of the library
//! relies on.
use vstd::prelude::*;

verus! {

/// The dimension of the vectors of the reference embedding model.
pub const EMBEDDING_DIM: usize = 384;

/// Errors of the embedding collaborator.
#[derive(Debug, Clone, PartialEq, Eq)]
pub enum EmbeddingError {
    /// Model files could not be fetched or loaded.
    ModelLoad(String),
    /// The input text could not be tokenized.
    Tokenization(String),
    /// The model failed while running.
    Inference(String),
}

} // verus!
