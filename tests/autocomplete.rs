use metasearch::autocomplete::{check_autocomplete_query, dedup_suggestions, merge_suggestions, AutocompleteInput};

fn strings(v: &[&str]) -> Vec<String> {
    v.iter().map(|s| s.to_string()).collect()
}

#[test]
fn suggestions_dedup_ignoring_case() {
    let lists = vec![strings(&["cat", "Cat"]), strings(&["dog"])];
    assert_eq!(merge_suggestions(&lists), strings(&["cat", "dog"]));
    let lists = vec![strings(&["cat"]), strings(&["Cat", "dog"])];
    assert_eq!(merge_suggestions(&lists), strings(&["cat", "dog"]));
    let lists = vec![strings(&["ÉCOLE"]), strings(&["école", "b"])];
    assert_eq!(merge_suggestions(&lists), strings(&["ÉCOLE", "b"]));
    assert!(merge_suggestions(&vec![]).is_empty());
}

#[test]
fn dedup_by_given_keys() {
    let items = strings(&["a", "b", "c"]);
    let keys = strings(&["k", "k", "j"]);
    assert_eq!(dedup_suggestions(&items, &keys), strings(&["a", "c"]));
}

#[test]
fn query_with_escape_is_rejected() {
    match check_autocomplete_query("ab\u{1b}c\nd") {
        AutocompleteInput::Rejected(s) => assert_eq!(s, "abc d"),
        AutocompleteInput::Accepted(_) => panic!("accepted"),
    }
    match check_autocomplete_query("two\nlines") {
        AutocompleteInput::Accepted(s) => assert_eq!(s, "two lines"),
        AutocompleteInput::Rejected(_) => panic!("rejected"),
    }
}
