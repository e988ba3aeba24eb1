//! The error taxonomy of the pipeline.

use vstd::prelude::*;

verus! {

/// What can go wrong between receiving a request and returning the mind
/// map.  Transport-level detail (HTTP codes, upstream messages) lives with
/// the callers; the core only distinguishes the kinds.
#[derive(Clone, Copy, Debug, PartialEq, Eq, Structural)]
pub enum ApiError {
    /// Both or neither of text and url; zero-dimensional or mismatched
    /// embeddings; an empty embedding list.
    InvalidInput,
    /// The concept source returned nothing usable.
    NoConceptsExtracted,
    /// The embedder returned a different count than requested.
    EmbeddingGenerationError,
    /// Projection or layout failed on the given shapes.
    DimensionalityError,
    /// A language-model, embedder or scraper call failed.
    UpstreamError,
    /// The concept store could not be read.
    StoreError,
    /// A scene lookup returned no row.
    SceneNotFound,
}

impl ApiError {
    /// A short human-readable description of the error.
    pub fn message(&self) -> (r: &'static str)
        ensures
            r@ == self.spec_message(),
    {
        match self {
            ApiError::InvalidInput => "invalid input",
            ApiError::NoConceptsExtracted => "no concepts could be extracted from the provided text",
            ApiError::EmbeddingGenerationError => "error generating embeddings",
            ApiError::DimensionalityError => "error in dimensionality reduction",
            ApiError::UpstreamError => "upstream request failed",
            ApiError::StoreError => "store read failed",
            ApiError::SceneNotFound => "scene not found",
        }
    }

    /// The description as a character sequence.
    pub open spec fn spec_message(&self) -> Seq<char> {
        match self {
            ApiError::InvalidInput => "invalid input"@,
            ApiError::NoConceptsExtracted => "no concepts could be extracted from the provided text"@,
            ApiError::EmbeddingGenerationError => "error generating embeddings"@,
            ApiError::DimensionalityError => "error in dimensionality reduction"@,
            ApiError::UpstreamError => "upstream request failed"@,
            ApiError::StoreError => "store read failed"@,
            ApiError::SceneNotFound => "scene not found"@,
        }
    }
}

} // verus!
