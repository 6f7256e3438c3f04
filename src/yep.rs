use vstd::prelude::*;
use vstd::string::*;

use crate::aggregate::opt_view;

use crate::response::{EngineResponse, SearchResult};

verus! {

/// What `reqwest::Url::parse_with_params` makes of a base URL and query
/// pairs, serialised; `None` where the base does not parse.
pub uninterp spec fn url_with_params(base: Seq<char>, pairs: Seq<(Seq<char>, Seq<char>)>) -> Option<Seq<char>>;

pub open spec fn pair_views(pairs: Seq<(String, String)>) -> Seq<(Seq<char>, Seq<char>)> {
    pairs.map_values(|p: (String, String)| (p.0@, p.1@))
}

/// Relies on `reqwest::Url::parse_with_params` (the `url` crate): the base
/// URL with the pairs form-encoded into its query, a function of its
/// arguments; an error only where the base does not parse.
#[verifier::external_body]
fn build_url(base: &str, pairs: &Vec<(String, String)>) -> (r: Option<String>)
    ensures
        match r {
            Some(u) => url_with_params(base@, pair_views(pairs@)) == Some(u@),
            None => url_with_params(base@, pair_views(pairs@)) is None,
        },
{
    reqwest::Url::parse_with_params(base, pairs.iter()).ok().map(String::from)
}

pub open spec fn search_pairs(query: Seq<char>) -> Seq<(Seq<char>, Seq<char>)> {
    seq![
        ("client"@, "web"@),
        ("gl"@, "all"@),
        ("no_correct"@, "true"@),
        ("q"@, query),
        ("safeSearch"@, "off"@),
        ("type"@, "web"@),
    ]
}

fn pair(k: &str, v: &str) -> (r: (String, String))
    ensures
        r.0@ == k@,
        r.1@ == v@,
{
    (String::from_str(k), String::from_str(v))
}

/// The URL of the search API call for a query.
pub fn request(query: &str) -> (r: Option<String>)
    ensures
        opt_view(r) == url_with_params("https://api.yep.com/fs/2/search"@, search_pairs(query@)),
{
    let pairs = vec![
        pair("client", "web"),
        pair("gl", "all"),
        pair("no_correct", "true"),
        pair("q", query),
        pair("safeSearch", "off"),
        pair("type", "web"),
    ];
    assert(pair_views(pairs@) =~= search_pairs(query@));
    build_url("https://api.yep.com/fs/2/search", &pairs)
}

/// A search API reply that cannot be used.
#[derive(Debug)]
pub enum YepError {
    /// The API answered with a status code other than `Ok`; the code.
    Provider(String),
}

/// The reply of the search API: its status code and its results. A code
/// other than `Ok` is an error, which carries the code.
pub fn parse_response(code: &str, results: Vec<SearchResult>) -> (r: Result<EngineResponse, YepError>)
    ensures
        code@ == "Ok"@ ==> (r matches Ok(resp) && resp.search_results == results
            && resp.featured_snippet is None && resp.answer_html is None && resp.infobox_html is None),
        code@ != "Ok"@ ==> (r matches Err(YepError::Provider(c)) && c@ == code@),
{
    if !crate::text::str_eq(code, "Ok") {
        return Err(YepError::Provider(String::from_str(code)));
    }
    Ok(
        EngineResponse {
            search_results: results,
            featured_snippet: None,
            answer_html: None,
            infobox_html: None,
        },
    )
}

} // verus!
