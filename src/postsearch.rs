use vstd::prelude::*;
use vstd::string::*;

use crate::aggregate::{opt_view, Response};
use crate::engine::Engine;
use crate::urbandictionary::{self, first_definition_from};

verus! {

pub open spec fn result_urls(r: Response) -> Seq<Seq<char>> {
    r.search_results@.map_values(|x: crate::aggregate::RankedResult| x.url@)
}

/// The page a postsearch backend would fetch for a merged response.
pub open spec fn spec_postsearch_request(e: Engine, r: Response) -> Option<Seq<char>> {
    match e {
        Engine::UrbanDictionary => first_definition_from(result_urls(r), 0),
        _ => None,
    }
}

/// The page that a backend's postsearch stage would fetch, if any.
pub fn postsearch_request(engine: Engine, response: &Response) -> (r: Option<String>)
    ensures
        opt_view(r) == spec_postsearch_request(engine, *response),
{
    match engine {
        Engine::UrbanDictionary => urbandictionary::request(response),
        _ => None,
    }
}

/// Index of the first candidate that asks for a request: the one request
/// that the postsearch stage makes.
pub fn first_request(candidates: &Vec<Option<String>>) -> (r: Option<usize>)
    ensures
        match r {
            Some(i) => i < candidates@.len() && candidates@[i as int] is Some && forall|k: int|
                0 <= k < i ==> (#[trigger] candidates@[k]) is None,
            None => forall|k: int| 0 <= k < candidates@.len() ==> (#[trigger] candidates@[k]) is None,
        },
{
    let mut k: usize = 0;
    while k < candidates.len()
        invariant
            k <= candidates@.len(),
            forall|j: int| 0 <= j < k ==> (#[trigger] candidates@[j]) is None,
        decreases candidates@.len() - k,
    {
        if candidates[k].is_some() {
            return Some(k);
        }
        k = k + 1;
    }
    None
}

/// Chooses the postsearch call: the first of the backends, in the order
/// given, whose postsearch stage asks for a page.
pub fn choose_postsearch(engines: &Vec<Engine>, response: &Response) -> (r: Option<(Engine, String)>)
    ensures
        match r {
            Some((e, url)) => exists|i: int|
                0 <= i < engines@.len() && engines@[i] == e && spec_postsearch_request(e, *response)
                    == Some(url@) && forall|k: int|
                    0 <= k < i ==> spec_postsearch_request(#[trigger] engines@[k], *response) is None,
            None => forall|k: int|
                0 <= k < engines@.len() ==> spec_postsearch_request(
                    #[trigger] engines@[k],
                    *response,
                ) is None,
        },
{
    let mut candidates: Vec<Option<String>> = Vec::new();
    let mut k: usize = 0;
    while k < engines.len()
        invariant
            k <= engines@.len(),
            candidates@.len() == k,
            forall|j: int|
                0 <= j < k ==> opt_view(#[trigger] candidates@[j]) == spec_postsearch_request(
                    engines@[j],
                    *response,
                ),
        decreases engines@.len() - k,
    {
        candidates.push(postsearch_request(engines[k], response));
        k = k + 1;
    }
    match first_request(&candidates) {
        Some(i) => {
            let e = engines[i];
            let url = match &candidates[i] {
                Some(u) => u.clone(),
                None => String::new(),
            };
            assert forall|j: int| 0 <= j < i implies spec_postsearch_request(
                #[trigger] engines@[j],
                *response,
            ) is None by {
                assert(opt_view(candidates@[j]) == spec_postsearch_request(engines@[j], *response));
            }
            Some((e, url))
        },
        None => {
            assert forall|j: int| 0 <= j < engines@.len() implies spec_postsearch_request(
                #[trigger] engines@[j],
                *response,
            ) is None by {
                assert(opt_view(candidates@[j]) == spec_postsearch_request(engines@[j], *response));
            }
            None
        },
    }
}

/// Merges an enrichment into the infobox slot: appended to an infobox that
/// is there, else the infobox itself. No enrichment leaves the response as
/// it was.
pub fn apply_postsearch(response: &mut Response, markup: Option<String>)
    ensures
        markup is None ==> *final(response) == *old(response),
        markup matches Some(m) ==> {
            &&& final(response).search_results == old(response).search_results
            &&& final(response).featured_snippet == old(response).featured_snippet
            &&& final(response).answer_html == old(response).answer_html
            &&& final(response).contributors == old(response).contributors
            &&& opt_view(final(response).infobox_html) == Some(
                match old(response).infobox_html {
                    Some(i) => i@ + m@,
                    None => m@,
                },
            )
        },
{
    match markup {
        None => {},
        Some(m) => {
            let current = response.infobox_html.take();
            let merged = match current {
                Some(i) => i.concat(m.as_str()),
                None => m,
            };
            response.infobox_html = Some(merged);
        },
    }
}

} // verus!
