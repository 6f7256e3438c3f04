//! Core of a metasearch aggregator: the backend registry, URL identity and
//! domain blocking, the merge and ranking of per-backend results, answer and
//! postsearch selection, autocomplete merging, and preference cookies.

pub mod aggregate;
pub mod autocomplete;
pub mod dispatch;
pub mod domains;
pub mod engine;
pub mod merge_laws;
pub mod postsearch;
pub mod prefs;
pub mod random;
pub mod response;
pub mod text;
pub mod urbandictionary;
pub mod url;
pub mod yep;
