use metasearch::random::{
    random_range, random_value, request, RandomOutcome, PREMIUM_PROMPT, RANDOM_ANSWER_HTML,
};
use metasearch::response::SearchQuery;

fn query(q: &str) -> SearchQuery {
    SearchQuery { query: q.to_string() }
}

#[test]
fn min_above_max_collapses_to_min() {
    assert_eq!(random_range(5, 3), Some((5, 5)));
    assert_eq!(random_value(5, 3), RandomOutcome::Number(5));
}

#[test]
fn out_of_range_bound_gives_placeholder() {
    assert_eq!(random_range(-10000000000, 10), None);
    assert_eq!(random_value(-10000000000, 10), RandomOutcome::Placeholder);
    assert_eq!(random_value(1, 10000000000), RandomOutcome::Placeholder);
    assert!(PREMIUM_PROMPT.contains("premium"));
}

#[test]
fn default_bounds_stay_in_range() {
    for _ in 0..200 {
        match random_value(1, 10) {
            RandomOutcome::Number(v) => assert!((1..=10).contains(&v)),
            RandomOutcome::Placeholder => panic!("placeholder for default bounds"),
        }
    }
    assert_eq!(random_value(-9999999999, -9999999999), RandomOutcome::Number(-9999999999));
}

#[test]
fn matcher_triggers() {
    assert_eq!(request(&query("Random Number")).answer_html.as_deref(), Some(RANDOM_ANSWER_HTML));
    assert!(request(&query("RNG please")).answer_html.is_some());
    assert!(request(&query("rand")).answer_html.is_some());
    assert!(request(&query("random number generator")).answer_html.is_some());
    assert!(request(&query("a grand piano")).answer_html.is_none());
    assert!(request(&query("grand")).answer_html.is_none());
    assert!(request(&query("hello rng")).answer_html.is_none());
    assert!(request(&query("hello")).answer_html.is_none());
    assert!(request(&query("")).search_results.is_empty());
}
