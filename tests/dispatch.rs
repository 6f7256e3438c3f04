use metasearch::dispatch::{answer, collect_outcomes, plan, Stage};
use metasearch::engine::Engine;
use metasearch::response::{EngineResponse, SearchQuery};

#[test]
fn plans_follow_registry_and_flags() {
    let flags = vec![(Engine::Bing, false), (Engine::GoogleScholar, true)];
    assert_eq!(
        plan(&flags, Stage::Search),
        vec![
            Engine::Google,
            Engine::Brave,
            Engine::Marginalia,
            Engine::Yep,
            Engine::GoogleScholar,
            Engine::Random,
            Engine::UrbanDictionary
        ]
    );
    assert_eq!(plan(&flags, Stage::Autocomplete), vec![Engine::Google, Engine::Brave]);
    assert_eq!(plan(&vec![], Stage::Postsearch), vec![Engine::UrbanDictionary]);
}

#[test]
fn outcomes_come_back_in_plan_order() {
    let p = vec![Engine::Google, Engine::Bing, Engine::Brave];
    let mut late = EngineResponse::new();
    late.answer_html = Some("bing".to_string());
    let finished = vec![(Engine::Bing, late), (Engine::Yep, EngineResponse::new())];
    let out = collect_outcomes(&p, finished);
    assert_eq!(out.len(), 3);
    assert_eq!(out[0].0, Engine::Google);
    assert_eq!(out[0].1.answer_html, None);
    assert_eq!(out[1].0, Engine::Bing);
    assert_eq!(out[1].1.answer_html.as_deref(), Some("bing"));
    assert_eq!(out[2].0, Engine::Brave);
}

#[test]
fn answer_runs_only_matchers() {
    let q = SearchQuery { query: "rng".to_string() };
    let r = answer(Engine::Random, &q).unwrap();
    assert_eq!(r.answer_html.as_deref(), Some(metasearch::random::RANDOM_ANSWER_HTML));
    assert!(r.infobox_html.is_none() && r.featured_snippet.is_none());
    let other = SearchQuery { query: "weather".to_string() };
    assert!(answer(Engine::Random, &other).unwrap().answer_html.is_none());
    assert!(answer(Engine::Google, &q).is_none());
}
