use vstd::prelude::*;
use vstd::string::*;

use crate::response::{EngineResponse, SearchQuery};
use crate::text::{lowercase, lower_of};

verus! {

/// The answer card of the random number generator; the number itself is
/// drawn by the page it embeds.
pub const RANDOM_ANSWER_HTML: &'static str = "<h3>random number generator</h3>
<div id=\"random-container\">
    <style>
        #random-iframe {
            width: calc( 100% - 16px );
            height: calc( 100% - 16px );
            margin: 8px;
            border: none;
            outline: none;
        }
    </style>
    <iframe id=\"random-iframe\" src=\"/rand_noscript\"></iframe>
</div>";

/// Shown instead of a number when a bound is out of range.
pub const PREMIUM_PROMPT: &'static str = "<span style='font-size:0.25em;line-height:1.5em;display:block;'>metasearch premium allows generating random numbers up to 20 digits!</span>";

/// Largest magnitude that a bound may have.
pub const BOUND_LIMIT: i64 = 9999999999;

/// Default bounds.
pub const DEFAULT_MIN: i64 = 1;
pub const DEFAULT_MAX: i64 = 10;

pub open spec fn starts_with(s: Seq<char>, p: Seq<char>) -> bool {
    p.len() <= s.len() && s.subrange(0, p.len() as int) == p
}

/// The trigger of the random number matcher, on the lower-cased query: its
/// leading token is `rng`, or `rand` (so also `random`, `random number`,
/// `random number generator`).
pub open spec fn is_random_query(lowered: Seq<char>) -> bool {
    starts_with(lowered, seq!['r', 'n', 'g']) || starts_with(lowered, seq!['r', 'a', 'n', 'd'])
}

fn seq_starts_with(s: &Vec<char>, p: &Vec<char>) -> (r: bool)
    ensures
        r == starts_with(s@, p@),
{
    if p.len() > s.len() {
        return false;
    }
    let mut i: usize = 0;
    while i < p.len()
        invariant
            p@.len() <= s@.len(),
            i <= p@.len(),
            s@.subrange(0, i as int) == p@.subrange(0, i as int),
        decreases p@.len() - i,
    {
        if s[i] != p[i] {
            assert(s@.subrange(0, p@.len() as int)[i as int] != p@[i as int]);
            return false;
        }
        assert(s@.subrange(0, i + 1) == s@.subrange(0, i as int).push(s@[i as int]));
        assert(p@.subrange(0, i + 1) == p@.subrange(0, i as int).push(p@[i as int]));
        i = i + 1;
    }
    assert(p@.subrange(0, p@.len() as int) == p@);
    true
}

/// Whether the lower-cased query triggers the random number matcher.
pub fn is_random_query_lowered(lowered: &str) -> (r: bool)
    ensures
        r == is_random_query(lowered@),
{
    let s = crate::text::chars_of(lowered);
    let rng = vec!['r', 'n', 'g'];
    let rand = vec!['r', 'a', 'n', 'd'];
    assert(rng@ == seq!['r', 'n', 'g']);
    assert(rand@ == seq!['r', 'a', 'n', 'd']);
    seq_starts_with(&s, &rng) || seq_starts_with(&s, &rand)
}

/// The random number answer matcher.
pub fn request(query: &SearchQuery) -> (r: EngineResponse)
    ensures
        r.search_results@.len() == 0,
        r.featured_snippet is None,
        r.infobox_html is None,
        is_random_query(lower_of(query.query@)) ==> (r.answer_html matches Some(h) && h@
            == RANDOM_ANSWER_HTML@),
        !is_random_query(lower_of(query.query@)) ==> r.answer_html is None,
{
    let lowered = lowercase(query.query.as_str());
    if !is_random_query_lowered(lowered.as_str()) {
        return EngineResponse::new();
    }
    EngineResponse::answer_html(String::from_str(RANDOM_ANSWER_HTML))
}

pub open spec fn bound_in_range(v: i64) -> bool {
    -BOUND_LIMIT <= v <= BOUND_LIMIT
}

/// The range a number is drawn from: `None` where a bound is out of range;
/// where `min > max` the range collapses to `min`.
pub open spec fn spec_random_range(min: i64, max: i64) -> Option<(i64, i64)> {
    if bound_in_range(min) && bound_in_range(max) {
        Some((min, if min > max { min } else { max }))
    } else {
        None
    }
}

pub fn random_range(min: i64, max: i64) -> (r: Option<(i64, i64)>)
    ensures
        r == spec_random_range(min, max),
        r matches Some((lo, hi)) ==> lo <= hi,
{
    if min >= -BOUND_LIMIT && min <= BOUND_LIMIT && max >= -BOUND_LIMIT && max <= BOUND_LIMIT {
        Some((min, if min > max { min } else { max }))
    } else {
        None
    }
}

/// What the random number page shows.
#[derive(Debug, PartialEq, Eq, Structural)]
pub enum RandomOutcome {
    Number(i64),
    Placeholder,
}

/// Draws a number for the bounds, or gives the placeholder.
pub fn random_value(min: i64, max: i64) -> (r: RandomOutcome)
    ensures
        match spec_random_range(min, max) {
            Some((lo, hi)) => (r matches RandomOutcome::Number(v) && lo <= v <= hi),
            None => r is Placeholder,
        },
{
    match random_range(min, max) {
        Some((lo, hi)) => RandomOutcome::Number(crate::text::random_inclusive(lo, hi)),
        None => RandomOutcome::Placeholder,
    }
}

} // verus!
