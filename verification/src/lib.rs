//! Verified core of a text-to-mind-map pipeline.
//!
//! The library turns a piece of natural-language text into a set of grouped,
//! positioned and weighted concept nodes.  All scores, similarities and
//! coordinates are carried as fixed-point integers in thousandths
//! (milli-units), so that every arithmetic step can be verified; callers that
//! work in floating point convert at the boundary.

use vstd::prelude::*;

pub mod api;
pub mod assemble;
pub mod candidates;
pub mod concepts;
pub mod embedding;
pub mod error;
pub mod layout;
pub mod merge;
pub mod numeric;
pub mod orchestrate;
pub mod scene;
pub mod slug;
pub mod text_bounds;

pub use api::ApiResponse;
pub use api::ScrapedArticle;
pub use api::TextInput;
pub use assemble::assemble_groups;
pub use assemble::ConceptGroup;
pub use candidates::finalize_candidates;
pub use candidates::stem_phrase;
pub use candidates::CandidateKeyword;
pub use concepts::clean_text;
pub use concepts::lemmatize_concept;
pub use concepts::merge_chunk_concepts;
pub use concepts::normalize_concept;
pub use concepts::Concept;
pub use embedding::cosine_milli;
pub use error::ApiError;
pub use layout::run_layout;
pub use layout::seed_positions;
pub use layout::LayoutParams;
pub use layout::Vec3;
pub use merge::merge_similar_concepts;
pub use merge::similarity_matrix;
pub use orchestrate::combine_with_priors;
pub use orchestrate::layout_phase;
pub use orchestrate::resolve_input;
pub use orchestrate::sanitize_priors;
pub use orchestrate::RequestSource;
pub use merge::MergedGroup;
pub use numeric::isqrt;
pub use scene::SceneStore;
pub use slug::derive_filename;
pub use slug::slugify;
pub use text_bounds::chunk_text;
pub use text_bounds::floor_char_boundary;
pub use text_bounds::is_abbreviation;
pub use text_bounds::truncate_at_sentence_boundary;
