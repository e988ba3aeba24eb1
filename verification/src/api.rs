//! Plain data shells of the HTTP surface.
//!
//! The transport layer converts between these bare types and its own
//! serializable copies; the library's contracts speak only of these.

use vstd::prelude::*;

verus! {

/// The body of a vectorize request: exactly one of `text` and `url` must be
/// given, with an optional user id for prior concepts and an optional
/// filename for the stored text.
pub struct TextInput {
    pub text: Option<String>,
    pub url: Option<String>,
    pub user_id: Option<String>,
    pub filename: Option<String>,
}

/// The envelope of a successful response.
pub struct ApiResponse<T> {
    pub success: bool,
    pub data: T,
}

/// A scraped article: its title and the cleaned text content.
pub struct ScrapedArticle {
    pub title: String,
    pub text_content: String,
}

} // verus!
