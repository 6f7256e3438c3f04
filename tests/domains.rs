use std::collections::BTreeSet;

use metasearch::domains::domain_set;

#[test]
fn domain_set_sorts_and_dedups_like_a_string_set() {
    let raw: Vec<String> = ["b.com", "a.com", "b.com", "é.fr", "Z.org", "a.co", ""]
        .iter()
        .map(|s| s.to_string())
        .collect();
    let expected: Vec<String> = raw.iter().cloned().collect::<BTreeSet<_>>().into_iter().collect();
    assert_eq!(domain_set(&raw), expected);
    assert_eq!(domain_set(&raw), vec!["", "Z.org", "a.co", "a.com", "b.com", "é.fr"]);
    assert!(domain_set(&vec![]).is_empty());
}
