use metasearch::url::{is_url_blocked, normalize_url};

#[test]
fn normalize_lowercases_scheme_and_host_only() {
    assert_eq!(
        normalize_url("HTTPS://Example.COM:443/Path/?q=A#frag"),
        "https://example.com/Path/?q=A"
    );
}

#[test]
fn normalize_strips_default_ports_and_trailing_slash() {
    assert_eq!(normalize_url("http://x.org:80/"), "http://x.org");
    assert_eq!(normalize_url("http://x.org:8080/a/"), "http://x.org:8080/a");
    assert_eq!(normalize_url("https://x.org:80/a"), "https://x.org:80/a");
    assert_eq!(normalize_url("https://x.org"), "https://x.org");
}

#[test]
fn normalize_without_scheme_drops_fragment() {
    assert_eq!(normalize_url("no-scheme/#x"), "no-scheme/");
    assert_eq!(normalize_url(""), "");
}

#[test]
fn blocking_covers_domain_and_subdomains() {
    let blocked = vec!["example.com".to_string()];
    assert!(is_url_blocked("https://example.com/", &blocked));
    assert!(is_url_blocked("https://sub.EXAMPLE.com/page", &blocked));
    assert!(is_url_blocked("http://a.b.example.com:8080/x", &blocked));
    assert!(!is_url_blocked("https://notexample.com/", &blocked));
    assert!(!is_url_blocked("https://example.com.evil.org/", &blocked));
    assert!(!is_url_blocked("https://example.com/", &vec![]));
    assert!(is_url_blocked("https://user@example.com/", &blocked));
    assert!(is_url_blocked("https://u:p@sub.example.com:8443/x", &blocked));
    assert!(is_url_blocked("https://a@b@example.com", &blocked));
    assert!(!is_url_blocked("https://example.com@other.org/", &blocked));
}

#[test]
fn blocking_ignores_the_domain_case() {
    let blocked = vec!["Example.COM".to_string()];
    assert!(is_url_blocked("https://example.com/", &blocked));
    assert!(is_url_blocked("https://www.EXAMPLE.com/", &blocked));
    assert!(!is_url_blocked("https://example.org/", &blocked));
}
