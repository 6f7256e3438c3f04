use metasearch::engine::Engine;
use metasearch::prefs::{
    block_domain, flags_from_form, unblock_domain, get_blocked_domains, get_enabled_search_engines, parse_cookie_entries, set_blocked_domains,
    set_enabled_search_engines,
};

#[test]
fn blocked_domains_from_cookie() {
    assert_eq!(get_blocked_domains(Some("ZXhhbXBsZS5jb20sIGFkcy5uZXQsLCAg")), vec!["example.com", "ads.net"]);
    assert!(get_blocked_domains(None).is_empty());
    assert!(get_blocked_domains(Some("not base64!")).is_empty());
    assert!(get_blocked_domains(Some(&"A".repeat(500004))).is_empty());
}

#[test]
fn blocked_domains_to_cookie() {
    let domains = vec!["a.com".to_string(), "b.org".to_string()];
    assert_eq!(set_blocked_domains(&domains), "blocked=YS5jb20sYi5vcmc=");
    assert_eq!(set_blocked_domains(&vec![]), "blocked=");
    assert_eq!(get_blocked_domains(Some("YS5jb20sYi5vcmc=")), domains);
}

#[test]
fn enabled_engines_from_cookie() {
    let flags = get_enabled_search_engines(Some(
        "Z29vZ2xlPWZhbHNlLGJpbmc9dHJ1ZSwgeWVwPXggLCBnb29nbGVfc2Nob2xhcj10cnVlLGJpbmc9ZmFsc2U=",
    ));
    assert_eq!(flags.len(), Engine::all().len());
    assert_eq!(flags[0], (Engine::Google, false));
    assert_eq!(flags[1], (Engine::Bing, false));
    assert_eq!(flags[2], (Engine::Brave, true));
    assert_eq!(flags[4], (Engine::Yep, false));
    assert_eq!(flags[5], (Engine::GoogleScholar, true));
    let defaults = get_enabled_search_engines(None);
    assert_eq!(defaults[5], (Engine::GoogleScholar, false));
    assert_eq!(defaults[0], (Engine::Google, true));
}

#[test]
fn enabled_engines_to_cookie() {
    let flags = vec![(Engine::Google, true), (Engine::Bing, false)];
    assert_eq!(set_enabled_search_engines(&flags), "engines=Z29vZ2xlPXRydWUsYmluZz1mYWxzZQ==");
    assert_eq!(parse_cookie_entries("Z29vZ2xlPXRydWUsYmluZz1mYWxzZQ=="), vec!["google=true", "bing=false"]);
}

#[test]
fn settings_form_flags() {
    let fields = vec![
        ("bing".to_string(), "on".to_string()),
        ("return".to_string(), "/settings".to_string()),
        ("google_scholar".to_string(), "off".to_string()),
    ];
    let flags = flags_from_form(&fields);
    assert_eq!(flags.len(), Engine::all().len());
    assert_eq!(flags[0], (Engine::Google, false));
    assert_eq!(flags[1], (Engine::Bing, true));
    assert_eq!(flags[5], (Engine::GoogleScholar, false));
}

#[test]
fn block_and_unblock() {
    let mut domains = vec!["a.com".to_string()];
    block_domain(&mut domains, "b.com");
    block_domain(&mut domains, "a.com");
    assert_eq!(domains, vec!["a.com", "b.com"]);
    assert_eq!(unblock_domain(&domains, "a.com"), vec!["b.com"]);
    assert_eq!(unblock_domain(&domains, "c.com"), domains);
}

#[test]
fn entries_are_trimmed_of_unicode_white_space() {
    assert_eq!(get_blocked_domains(Some("44CAeC5jb23CoCwJ")), vec!["x.com"]);
    assert!(get_blocked_domains(Some("")).is_empty());
    let defaults = get_enabled_search_engines(None);
    assert_eq!(get_enabled_search_engines(Some("%%%")), defaults);
    assert_eq!(get_enabled_search_engines(Some("//79")), defaults);
}
