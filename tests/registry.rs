use metasearch::engine::{Engine, ENGINE_COUNT};

#[test]
fn registry_order_and_ids() {
    let all = Engine::all();
    assert_eq!(all.len(), ENGINE_COUNT);
    assert_eq!(all[0], Engine::Google);
    assert_eq!(all[7], Engine::UrbanDictionary);
    assert_eq!(Engine::GoogleScholar.id(), "google_scholar");
    assert_eq!(Engine::UrbanDictionary.id_proper(), "UrbanDictionary");
}

#[test]
fn from_id_round_trip() {
    for e in Engine::all() {
        assert_eq!(Engine::from_id(e.id()), Some(e));
    }
    assert_eq!(Engine::from_id("altavista"), None);
    assert_eq!(Engine::from_id("Google"), None);
}

#[test]
fn metadata() {
    assert_eq!(Engine::Google.weight(), 1050);
    assert_eq!(Engine::Bing.weight(), 1000);
    assert_eq!(Engine::Yep.weight(), 100);
    assert!(Engine::GoogleScholar.is_scholarly());
    assert!(!Engine::Google.is_scholarly());
    assert!(!Engine::GoogleScholar.is_enabled_by_default());
    assert!(Engine::Bing.is_enabled_by_default());
    assert!(Engine::Random.is_answer());
    assert!(Engine::UrbanDictionary.has_postsearch());
    assert!(Engine::Brave.has_autocomplete());
    assert!(!Engine::Random.has_search());
}

#[test]
fn is_enabled_uses_entry_then_default() {
    let flags = vec![(Engine::Google, false), (Engine::GoogleScholar, true)];
    assert!(!Engine::Google.is_enabled(&flags));
    assert!(Engine::GoogleScholar.is_enabled(&flags));
    assert!(Engine::Bing.is_enabled(&flags));
    assert!(!Engine::GoogleScholar.is_enabled(&vec![]));
}
