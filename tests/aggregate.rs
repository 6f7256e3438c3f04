use metasearch::aggregate::{merge, result_count, Response};
use metasearch::engine::Engine;
use metasearch::response::{EngineResponse, SearchResult};

fn result(url: &str, title: &str) -> SearchResult {
    SearchResult { url: url.to_string(), title: title.to_string(), description: format!("about {title}") }
}

fn results(list: Vec<SearchResult>) -> EngineResponse {
    EngineResponse { search_results: list, featured_snippet: None, answer_html: None, infobox_html: None }
}

fn answer(html: &str) -> EngineResponse {
    EngineResponse::answer_html(html.to_string())
}

fn sample() -> Vec<(Engine, EngineResponse)> {
    vec![
        (Engine::Google, results(vec![result("https://A.com/x/", "A"), result("https://b.com", "B from google")])),
        (Engine::Bing, results(vec![result("HTTPS://B.COM:443/", "B from bing"), result("https://c.com", "C")])),
    ]
}

fn urls(r: &Response) -> Vec<String> {
    r.search_results.iter().map(|x| x.url.clone()).collect()
}

#[test]
fn merge_dedups_and_ranks() {
    let r = merge(&sample(), &vec![]);
    assert_eq!(urls(&r), vec!["https://b.com", "https://A.com/x/", "https://c.com"]);
    assert_eq!(r.search_results[0].title, "B from google");
    let scale: u128 = 5342931457063200;
    assert_eq!(r.search_results[0].score, 525 * scale + 1000 * scale);
    assert_eq!(r.search_results[0].engines, vec![Engine::Google, Engine::Bing]);
    assert_eq!(r.search_results[1].score, 1050 * scale);
    assert_eq!(r.search_results[2].score, 500 * scale);
    assert_eq!(r.contributors, vec![Engine::Google, Engine::Bing]);
}

#[test]
fn merge_ties_keep_first_seen_order() {
    let o = vec![
        (Engine::Bing, results(vec![result("https://one.com", "1")])),
        (Engine::Random, results(vec![result("https://two.com", "2")])),
    ];
    let r = merge(&o, &vec![]);
    assert_eq!(urls(&r), vec!["https://one.com", "https://two.com"]);
}

#[test]
fn merge_same_list_twice_keeps_order_and_doubles_scores() {
    let once = merge(&sample(), &vec![]);
    let mut twice_in = sample();
    twice_in.extend(sample());
    let twice = merge(&twice_in, &vec![]);
    assert_eq!(urls(&once), urls(&twice));
    for (a, b) in once.search_results.iter().zip(twice.search_results.iter()) {
        assert_eq!(a.title, b.title);
        assert_eq!(a.engines, b.engines);
        assert_eq!(2 * a.score, b.score);
    }
    assert_eq!(once.contributors, twice.contributors);
}

#[test]
fn merge_drops_blocked_hosts() {
    let r = merge(&sample(), &vec!["b.com".to_string()]);
    assert_eq!(urls(&r), vec!["https://A.com/x/", "https://c.com"]);
    let r = merge(&sample(), &vec!["com".to_string()]);
    assert!(r.search_results.is_empty());
    assert!(r.contributors.is_empty());
}

#[test]
fn answer_slot_goes_to_first_in_order() {
    let o = vec![
        (Engine::Google, results(vec![result("https://a.com", "A")])),
        (Engine::Random, answer("first")),
        (Engine::UrbanDictionary, answer("second")),
    ];
    let r = merge(&o, &vec![]);
    assert_eq!(r.answer_html.as_deref(), Some("first"));
    assert_eq!(r.contributors, vec![Engine::Google, Engine::Random, Engine::UrbanDictionary]);
}

#[test]
fn slots_come_from_different_backends() {
    let mut with_box = results(vec![]);
    with_box.infobox_html = Some("box".to_string());
    let mut with_snippet = results(vec![]);
    with_snippet.featured_snippet = Some(result("https://s.com", "S"));
    with_snippet.infobox_html = Some("later box".to_string());
    let r = merge(&vec![(Engine::Google, with_box), (Engine::Bing, with_snippet)], &vec![]);
    assert_eq!(r.infobox_html.as_deref(), Some("box"));
    assert_eq!(r.featured_snippet.map(|s| s.title), Some("S".to_string()));
    assert_eq!(r.answer_html, None);
}

#[test]
fn failed_backend_is_as_if_absent() {
    let mut with_failure = sample();
    with_failure.insert(1, (Engine::Brave, EngineResponse::new()));
    let a = merge(&with_failure, &vec![]);
    let b = merge(&sample(), &vec![]);
    assert_eq!(urls(&a), urls(&b));
    assert_eq!(a.contributors, b.contributors);
    let scores_a: Vec<u128> = a.search_results.iter().map(|x| x.score).collect();
    let scores_b: Vec<u128> = b.search_results.iter().map(|x| x.score).collect();
    assert_eq!(scores_a, scores_b);
}

#[test]
fn merge_of_nothing_is_empty() {
    let r = merge(&vec![], &vec![]);
    assert!(r.search_results.is_empty());
    assert_eq!(r.answer_html, None);
    assert_eq!(result_count(&sample()), Some(4));
}

#[test]
fn empty_answer_markup_does_not_take_the_slot() {
    let o = vec![(Engine::Random, answer("")), (Engine::UrbanDictionary, answer("real"))];
    let r = merge(&o, &vec![]);
    assert_eq!(r.answer_html.as_deref(), Some("real"));
    assert_eq!(r.contributors, vec![Engine::UrbanDictionary]);
}

#[test]
fn equal_real_scores_tie_exactly() {
    let third = |u: &str| results(vec![result("https://x1.com", "x"), result("https://x2.com", "x"), result(u, "t")]);
    let o = vec![
        (Engine::Bing, third("https://early.com")),
        (Engine::Random, third("https://early.com")),
        (Engine::UrbanDictionary, third("https://early.com")),
        (Engine::GoogleScholar, results(vec![result("https://late.com", "l")])),
    ];
    let r = merge(&o, &vec![]);
    let early = r.search_results.iter().position(|x| x.url == "https://early.com").unwrap();
    let late = r.search_results.iter().position(|x| x.url == "https://late.com").unwrap();
    assert_eq!(r.search_results[early].score, r.search_results[late].score);
    assert!(early < late);
}

#[test]
fn blocked_snippet_is_skipped() {
    let mut blocked_one = results(vec![]);
    blocked_one.featured_snippet = Some(result("https://ads.example.com/x", "ad"));
    let mut fine = results(vec![]);
    fine.featured_snippet = Some(result("https://ok.org", "ok"));
    let r = merge(&vec![(Engine::Google, blocked_one), (Engine::Bing, fine)], &vec!["example.com".to_string()]);
    assert_eq!(r.featured_snippet.map(|s| s.title), Some("ok".to_string()));
    assert_eq!(r.contributors, vec![Engine::Bing]);
}
