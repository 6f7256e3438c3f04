use metasearch::aggregate::{merge, Response};
use metasearch::engine::Engine;
use metasearch::postsearch::{apply_postsearch, choose_postsearch, first_request, postsearch_request};
use metasearch::urbandictionary::{definition_answer, definition_markup, is_definition_url_exec, request};
use metasearch::response::{EngineResponse, SearchResult};

fn response_with(urls: &[&str]) -> Response {
    let list = urls
        .iter()
        .map(|u| SearchResult { url: u.to_string(), title: String::new(), description: String::new() })
        .collect();
    let resp = EngineResponse { search_results: list, featured_snippet: None, answer_html: None, infobox_html: None };
    merge(&vec![(Engine::Google, resp)], &vec![])
}

#[test]
fn exactly_one_postsearch_request_the_first() {
    let candidates = vec![None, Some("second".to_string()), Some("third".to_string())];
    assert_eq!(first_request(&candidates), Some(1));
    assert_eq!(first_request(&vec![None, None]), None);
}

#[test]
fn definition_urls() {
    assert!(is_definition_url_exec("https://www.urbandictionary.com/define.php?term=yeet"));
    assert!(is_definition_url_exec("https://www.urbandictionary.com/define.php?term=a+b.c-d_e"));
    assert!(!is_definition_url_exec("https://www.urbandictionary.com/define.php?term="));
    assert!(!is_definition_url_exec("https://www.urbandictionary.com/define.php?term=a b"));
    assert!(!is_definition_url_exec("http://www.urbandictionary.com/define.php?term=yeet"));
    assert!(is_definition_url_exec("https://www.urbandictionary.com/define.php?term=é"));
    assert!(is_definition_url_exec("https://www.urbandictionary.com/define.php?term=caf%C3%A9") == false);
    assert!(!is_definition_url_exec("https://wwwXurbandictionary.com/define.php?term=yeet"));
}

#[test]
fn urbandictionary_looks_at_top_results() {
    let r = response_with(&["https://a.com", "https://www.urbandictionary.com/define.php?term=yeet"]);
    assert_eq!(
        postsearch_request(Engine::UrbanDictionary, &r).as_deref(),
        Some("https://www.urbandictionary.com/define.php?term=yeet")
    );
    assert_eq!(postsearch_request(Engine::Google, &r), None);
    assert_eq!(request(&r).as_deref(), Some("https://www.urbandictionary.com/define.php?term=yeet"));
    let chosen = choose_postsearch(&vec![Engine::Google, Engine::UrbanDictionary], &r);
    assert_eq!(chosen.map(|(e, _)| e), Some(Engine::UrbanDictionary));
    let none = response_with(&["https://a.com"]);
    assert!(choose_postsearch(&vec![Engine::UrbanDictionary], &none).is_none());
}

#[test]
fn enrichment_goes_to_infobox() {
    let mut r = response_with(&["https://a.com"]);
    apply_postsearch(&mut r, None);
    assert_eq!(r.infobox_html, None);
    apply_postsearch(&mut r, Some("def".to_string()));
    assert_eq!(r.infobox_html.as_deref(), Some("def"));
    apply_postsearch(&mut r, Some("+more".to_string()));
    assert_eq!(r.infobox_html.as_deref(), Some("def+more"));
    assert_eq!(r.search_results.len(), 1);
}

#[test]
fn definition_beyond_top_eight_is_ignored() {
    let mut urls = vec!["https://a.com/"; 0];
    let names: Vec<String> = (0..8).map(|i| format!("https://site{i}.com")).collect();
    for n in &names {
        urls.push(n.as_str());
    }
    urls.push("https://www.urbandictionary.com/define.php?term=late");
    let r = response_with(&urls);
    assert_eq!(r.search_results.len(), 9);
    assert_eq!(request(&r), None);
}

#[test]
fn definition_markup_joins_details() {
    let details = vec!["one".to_string(), "two".to_string()];
    assert_eq!(definition_markup("<h1>t</h1>", &details), "<h1>t</h1><br />one<br />two");
    assert_eq!(definition_markup("t", &vec![]), "t<br />");
}

#[test]
fn definition_answer_is_sanitised() {
    let details = vec!["<a href=\"/define.php?term=x\">x</a><script>alert(1)</script>".to_string()];
    let html = definition_answer("<h1>t</h1>", &details).unwrap();
    assert!(!html.contains("script"));
    assert!(html.contains("https://www.urbandictionary.com/define.php?term=x"));
    assert!(html.starts_with("<h1>t</h1><br>"));
}
