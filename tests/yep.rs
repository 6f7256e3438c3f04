use metasearch::response::SearchResult;
use metasearch::yep::{parse_response, request, YepError};

fn one() -> Vec<SearchResult> {
    vec![SearchResult { url: "https://a.com".to_string(), title: "A".to_string(), description: "a".to_string() }]
}

#[test]
fn yep_results_count_only_when_ok() {
    let r = parse_response("Ok", one()).unwrap();
    assert_eq!(r.search_results.len(), 1);
    assert_eq!(r.search_results[0].title, "A");
    assert!(r.answer_html.is_none());
    match parse_response("Error", one()) {
        Err(YepError::Provider(code)) => assert_eq!(code, "Error"),
        Ok(_) => panic!("an error code was accepted"),
    }
    assert!(parse_response("ok", one()).is_err());
}

#[test]
fn yep_request_url() {
    assert_eq!(
        request("rust lang&more").as_deref(),
        Some("https://api.yep.com/fs/2/search?client=web&gl=all&no_correct=true&q=rust+lang%26more&safeSearch=off&type=web")
    );
}
