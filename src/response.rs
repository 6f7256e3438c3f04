use vstd::prelude::*;

use crate::engine::Engine;

verus! {

/// The text of a query, already normalised.
pub struct SearchQuery {
    pub query: String,
}

/// One result of one backend.
#[derive(Clone, Debug)]
pub struct SearchResult {
    pub url: String,
    pub title: String,
    pub description: String,
}

/// What one backend contributed to one query.
#[derive(Clone, Debug)]
pub struct EngineResponse {
    pub search_results: Vec<SearchResult>,
    pub featured_snippet: Option<SearchResult>,
    pub answer_html: Option<String>,
    pub infobox_html: Option<String>,
}

impl EngineResponse {
    /// Holds no field at all: a backend that had nothing to say.
    pub open spec fn spec_is_empty(&self) -> bool {
        &&& self.search_results@.len() == 0
        &&& self.featured_snippet is None
        &&& self.answer_html is None
        &&& self.infobox_html is None
    }

    /// The response of a backend that contributes nothing.
    pub fn new() -> (r: EngineResponse)
        ensures
            r.spec_is_empty(),
    {
        EngineResponse {
            search_results: Vec::new(),
            featured_snippet: None,
            answer_html: None,
            infobox_html: None,
        }
    }

    /// A response that holds only an answer.
    pub fn answer_html(html: String) -> (r: EngineResponse)
        ensures
            r.search_results@.len() == 0,
            r.featured_snippet is None,
            r.infobox_html is None,
            r.answer_html == Some(html),
    {
        EngineResponse {
            search_results: Vec::new(),
            featured_snippet: None,
            answer_html: Some(html),
            infobox_html: None,
        }
    }
}

} // verus!
