use vstd::prelude::*;
use vstd::string::*;

use crate::aggregate::{opt_view, Response};
use crate::postsearch::result_urls;
use crate::prefs::{join, join_exec};
use crate::autocomplete::views;

verus! {

/// How many of the top results the backend inspects.
pub const POSTSEARCH_TOP: usize = 8;

/// What the `regex` crate decides: whether `text` matches `pattern`, or
/// `None` where the pattern does not compile. A function of the two texts.
pub uninterp spec fn regex_matches(pattern: Seq<char>, text: Seq<char>) -> Option<bool>;

/// The pattern of a definition page: the page's address, then a term of
/// Unicode word characters, `.`, `-` or `+`.
pub open spec fn definition_pattern() -> Seq<char> {
    "^https://www\\.urbandictionary\\.com/define\\.php\\?term=[\\w\\.\\-\\+]+$"@
}

/// An Urban Dictionary definition page.
pub open spec fn is_definition_url(url: Seq<char>) -> bool {
    regex_matches(definition_pattern(), url) == Some(true)
}

/// Relies on `regex::Regex::new` and `Regex::is_match` (Unicode-aware by
/// default): whether the text matches the pattern, `None` where the pattern
/// does not compile.
#[verifier::external_body]
fn regex_is_match(pattern: &str, text: &str) -> (r: Option<bool>)
    ensures
        r == regex_matches(pattern@, text@),
{
    match regex::Regex::new(pattern) {
        Ok(re) => Some(re.is_match(text)),
        Err(_) => None,
    }
}

/// The first of the top results that satisfies `is_definition_url`.
pub open spec fn first_definition_from(results: Seq<Seq<char>>, k: int) -> Option<Seq<char>>
    decreases results.len() - k,
{
    if k < 0 || k >= results.len() || k >= POSTSEARCH_TOP {
        None
    } else if is_definition_url(results[k]) {
        Some(results[k])
    } else {
        first_definition_from(results, k + 1)
    }
}

/// Whether a URL is an Urban Dictionary definition page.
pub fn is_definition_url_exec(url: &str) -> (r: bool)
    ensures
        r == is_definition_url(url@),
{
    let pattern = "^https://www\\.urbandictionary\\.com/define\\.php\\?term=[\\w\\.\\-\\+]+$";
    assert(pattern@ == definition_pattern());
    match regex_is_match(pattern, url) {
        Some(b) => b,
        None => false,
    }
}

/// The definition page among the top results of a merged response: the
/// one page the postsearch stage fetches for this backend.
pub fn request(response: &Response) -> (r: Option<String>)
    ensures
        opt_view(r) == first_definition_from(result_urls(*response), 0),
{
    let ghost urls = result_urls(*response);
    let mut k: usize = 0;
    while k < response.search_results.len() && k < POSTSEARCH_TOP
        invariant
            urls == result_urls(*response),
            k <= response.search_results@.len(),
            k <= POSTSEARCH_TOP,
            first_definition_from(urls, k as int) == first_definition_from(urls, 0),
        decreases POSTSEARCH_TOP - k,
    {
        let url = &response.search_results[k].url;
        if is_definition_url_exec(url.as_str()) {
            return Some(url.clone());
        }
        k = k + 1;
    }
    None
}

/// The markup of a definition: the title, then the detail blocks, each
/// after a line break.
pub fn definition_markup(title: &str, details: &Vec<String>) -> (r: String)
    ensures
        r@ == title@ + "<br />"@ + join(views(details@), "<br />"@),
{
    let mut out = String::from_str(title);
    out.append("<br />");
    let joined = join_exec(details, "<br />");
    out.append(joined.as_str());
    out
}

/// What `ammonia` makes of markup: cleaned by its default rules, with
/// relative links rewritten against `base`; `None` where `base` is no URL.
pub uninterp spec fn cleaned_html(html: Seq<char>, base: Seq<char>) -> Option<Seq<char>>;

/// Relies on `ammonia::Builder::clean` with the default rules and relative
/// URLs rewritten against the base, which `Url::parse` reads first.
#[verifier::external_body]
fn clean_html(html: &str, base: &str) -> (r: Option<String>)
    ensures
        opt_view(r) == cleaned_html(html@, base@),
{
    match ammonia::Url::parse(base) {
        Ok(base) => Some(
            ammonia::Builder::default()
                .url_relative(ammonia::UrlRelative::RewriteWithBase(base))
                .clean(html)
                .to_string(),
        ),
        Err(_) => None,
    }
}

pub open spec fn site_base() -> Seq<char> {
    "https://www.urbandictionary.com/"@
}

/// The sanitised answer of a definition page: the title and the detail
/// blocks (see `definition_markup`), cleaned, with relative links resolved
/// against the site.
pub fn definition_answer(title: &str, details: &Vec<String>) -> (r: Option<String>)
    ensures
        opt_view(r) == cleaned_html(title@ + "<br />"@ + join(views(details@), "<br />"@), site_base()),
{
    let markup = definition_markup(title, details);
    clean_html(markup.as_str(), "https://www.urbandictionary.com/")
}

} // verus!
