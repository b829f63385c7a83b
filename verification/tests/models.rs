use std::str::FromStr;

use ani_cli_rs::models::sort_streams;
use ani_cli_rs::{
    AniError, CatalogProvider, LanguagePreference, RequestHeaders, Result, SearchResult,
    StreamLink, TranslationType, choose_quality, effective_search_provider,
    expand_episode_selection, is_fallback_error, is_fallback_trigger, merge_spanish_search,
    require_language, should_fanout_spanish,
};

fn stream(resolution: &str) -> StreamLink {
    StreamLink {
        url: resolution.into(),
        resolution: resolution.into(),
        hls: false,
        provider: "Default".into(),
        downloadable: true,
        headers: RequestHeaders::default(),
        subtitles: vec![],
    }
}

fn labelled(url: &str, resolution: &str, provider: &str, hls: bool) -> StreamLink {
    StreamLink {
        url: url.into(),
        resolution: resolution.into(),
        hls,
        provider: provider.into(),
        downloadable: false,
        headers: RequestHeaders::default(),
        subtitles: vec![],
    }
}

#[test]
fn quality_selection_falls_back_to_best() {
    let streams = vec![stream("1080p"), stream("720p"), stream("480p")];
    assert_eq!(
        choose_quality(&streams, "worst").unwrap().resolution,
        "480p"
    );
    assert_eq!(choose_quality(&streams, "720").unwrap().resolution, "720p");
    assert_eq!(
        choose_quality(&streams, "1440p").unwrap().resolution,
        "1080p"
    );
}

#[test]
fn expands_ranges_and_latest() {
    let eps: Vec<String> = vec!["1".into(), "2".into(), "2.5".into(), "3".into()];
    assert_eq!(
        expand_episode_selection("2-3", &eps).unwrap(),
        vec!["2", "2.5", "3"]
    );
    assert_eq!(expand_episode_selection("-1", &eps).unwrap(), vec!["3"]);
}

#[test]
fn language_preference_parses_spanish_only() {
    assert_eq!(
        LanguagePreference::from_str("es").unwrap(),
        LanguagePreference::Spanish
    );
    assert_eq!(
        LanguagePreference::from_str(" ES ").unwrap(),
        LanguagePreference::Spanish
    );
    assert!(LanguagePreference::from_str("xx").is_err());
}

#[test]
fn regional_variants_fail_with_planned_message() {
    for variant in ["es-419", "es-ES"] {
        match LanguagePreference::from_str(variant) {
            Err(AniError::Input(message)) => assert!(
                message.contains("not supported yet"),
                "unexpected message for {variant}: {message}"
            ),
            other => panic!("expected planned Input error for {variant}, got {other:?}"),
        }
    }
}

#[test]
fn spanish_gate_passes_default_and_jkanime_only() {
    for provider in [
        CatalogProvider::Anikoto,
        CatalogProvider::Anikoto2,
        CatalogProvider::JkAnime,
        CatalogProvider::TioAnime,
    ] {
        require_language(provider, LanguagePreference::Default).unwrap();
    }
    require_language(CatalogProvider::JkAnime, LanguagePreference::Spanish).unwrap();
    require_language(CatalogProvider::TioAnime, LanguagePreference::Spanish).unwrap();
    assert!(require_language(CatalogProvider::Anikoto, LanguagePreference::Spanish).is_err());
    assert!(require_language(CatalogProvider::Anikoto2, LanguagePreference::Spanish).is_err());
}

#[test]
fn search_provider_auto_routes_spanish_to_jkanime() {
    assert_eq!(
        effective_search_provider(None, LanguagePreference::Default),
        CatalogProvider::default()
    );
    assert_eq!(
        effective_search_provider(None, LanguagePreference::Spanish),
        CatalogProvider::JkAnime
    );
    for provider in [
        CatalogProvider::Anikoto,
        CatalogProvider::Anikoto2,
        CatalogProvider::JkAnime,
        CatalogProvider::TioAnime,
    ] {
        assert!(
            provider.spanish_capable()
                == matches!(provider, CatalogProvider::JkAnime | CatalogProvider::TioAnime)
        );
        for language in [LanguagePreference::Default, LanguagePreference::Spanish] {
            assert_eq!(
                effective_search_provider(Some(provider), language),
                provider
            );
        }
    }
}

#[test]
fn fallback_triggers_on_provider_failures_only() {
    let empty: Result<Vec<SearchResult>> = Ok(Vec::new());
    assert!(is_fallback_trigger(&empty));
    assert!(is_fallback_trigger::<Vec<SearchResult>>(&Err(
        AniError::UnavailableNoResults
    )));
    assert!(is_fallback_trigger::<Vec<SearchResult>>(&Err(
        AniError::Network("down".into())
    )));
    assert!(!is_fallback_trigger::<Vec<SearchResult>>(&Err(
        AniError::InputEmptyQuery
    )));
    assert!(!is_fallback_trigger::<Vec<SearchResult>>(&Err(
        AniError::InputSelectionOutOfRange
    )));
}

#[test]
fn spanish_providers_returns_jk_tio_in_order() {
    let providers = CatalogProvider::spanish_providers();
    assert_eq!(providers[0], CatalogProvider::JkAnime);
    assert_eq!(providers[1], CatalogProvider::TioAnime);
}

#[test]
fn should_fanout_spanish_requires_no_provider_and_es() {
    assert!(should_fanout_spanish(None, LanguagePreference::Spanish));
    assert!(!should_fanout_spanish(
        Some(CatalogProvider::JkAnime),
        LanguagePreference::Spanish
    ));
    assert!(!should_fanout_spanish(None, LanguagePreference::Default));
    assert!(!should_fanout_spanish(
        Some(CatalogProvider::TioAnime),
        LanguagePreference::Default
    ));
}

#[test]
fn is_fallback_error_classifies_provider_side_only() {
    assert!(is_fallback_error(&AniError::Network("x".into())));
    assert!(is_fallback_error(&AniError::Provider("x".into())));
    assert!(is_fallback_error(&AniError::Catalog {
        provider: "x".into(),
        message: "y".into()
    }));
    assert!(is_fallback_error(&AniError::ProviderRateLimited {
        provider: "x".into(),
        retry_after_seconds: 1
    }));
    assert!(is_fallback_error(&AniError::Unavailable("x".into())));
    assert!(is_fallback_error(&AniError::UnavailableNoResults));
    assert!(is_fallback_error(&AniError::UnavailableNoEpisodes));
    assert!(is_fallback_error(&AniError::UnavailableNoStreams));
    assert!(!is_fallback_error(&AniError::InputEmptyQuery));
    assert!(!is_fallback_error(&AniError::InputSelectionOutOfRange));
    assert!(!is_fallback_error(&AniError::Input("x".into())));
}

fn result(id: &str, name: &str, provider: CatalogProvider) -> SearchResult {
    SearchResult {
        id: id.into(),
        name: name.into(),
        episodes: 1,
        provider,
    }
}

#[test]
fn merge_spanish_search_concats_jk_then_tio() {
    let jk = Ok(vec![result("jkanime:a", "A", CatalogProvider::JkAnime)]);
    let tio = Ok(vec![result("tioanime:b", "B", CatalogProvider::TioAnime)]);
    let merged = merge_spanish_search(jk, tio).unwrap();
    assert_eq!(merged.len(), 2);
    assert_eq!(merged[0].provider, CatalogProvider::JkAnime);
    assert_eq!(merged[1].provider, CatalogProvider::TioAnime);
}

#[test]
fn merge_spanish_search_isolates_provider_failures() {
    let jk = Ok(vec![result("jkanime:a", "A", CatalogProvider::JkAnime)]);
    let tio = Err(AniError::Network("tio down".into()));
    let merged = merge_spanish_search(jk, tio).unwrap();
    assert_eq!(merged.len(), 1);
    assert_eq!(merged[0].provider, CatalogProvider::JkAnime);
}

#[test]
fn merge_spanish_search_all_fail_returns_last_fallback_error() {
    let jk = Err(AniError::Network("jk down".into()));
    let tio = Err(AniError::UnavailableNoResults);
    let err = merge_spanish_search(jk, tio).unwrap_err();
    assert!(is_fallback_error(&err));
}

#[test]
fn merge_spanish_search_non_fallback_fails_fast() {
    let jk = Err(AniError::InputEmptyQuery);
    let tio = Ok(vec![]);
    let err = merge_spanish_search(jk, tio).unwrap_err();
    assert!(matches!(err, AniError::InputEmptyQuery));
}

// ---- further cases ----

#[test]
fn merge_returns_the_last_failure_exactly() {
    let jk = Err(AniError::Network("jk down".into()));
    let tio = Err(AniError::UnavailableNoResults);
    let err = merge_spanish_search(jk, tio).unwrap_err();
    assert!(matches!(err, AniError::UnavailableNoResults));
    let jk = Ok(vec![]);
    let tio = Err(AniError::Provider("bad".into()));
    assert!(matches!(
        merge_spanish_search(jk, tio).unwrap_err(),
        AniError::Provider(_)
    ));
    let none: Result<Vec<SearchResult>> = Ok(vec![]);
    assert!(merge_spanish_search(none, Ok(vec![])).unwrap().is_empty());
    let tio_hard = Err(AniError::Input("bad".into()));
    let jk = Ok(vec![result("jkanime:a", "A", CatalogProvider::JkAnime)]);
    assert!(matches!(
        merge_spanish_search(jk, tio_hard).unwrap_err(),
        AniError::Input(_)
    ));
}

#[test]
fn provider_names_and_aliases_parse() {
    for (name, provider) in [
        ("anikoto", CatalogProvider::Anikoto),
        ("ANIKOTO1", CatalogProvider::Anikoto),
        ("anikoto-api", CatalogProvider::Anikoto),
        ("anikoto2", CatalogProvider::Anikoto2),
        ("Anikoto-CZ", CatalogProvider::Anikoto2),
        ("anikoto.cz", CatalogProvider::Anikoto2),
        ("jkanime", CatalogProvider::JkAnime),
        ("JK", CatalogProvider::JkAnime),
        ("jk-anime", CatalogProvider::JkAnime),
        ("tioanime", CatalogProvider::TioAnime),
        ("Tio", CatalogProvider::TioAnime),
    ] {
        assert_eq!(CatalogProvider::from_str(name).unwrap(), provider);
    }
    for provider in [
        CatalogProvider::Anikoto,
        CatalogProvider::Anikoto2,
        CatalogProvider::JkAnime,
        CatalogProvider::TioAnime,
    ] {
        assert_eq!(CatalogProvider::parse(provider.label()).unwrap(), provider);
    }
    match CatalogProvider::from_str(" jk") {
        Err(AniError::Input(message)) => assert_eq!(
            message,
            "provider must be anikoto, anikoto2, jkanime or tioanime, got  jk"
        ),
        other => panic!("unexpected {other:?}"),
    }
}

#[test]
fn translation_types_parse() {
    assert_eq!(TranslationType::from_str("SUB").unwrap(), TranslationType::Sub);
    assert_eq!(TranslationType::from_str("dub").unwrap(), TranslationType::Dub);
    assert_eq!(TranslationType::default(), TranslationType::Sub);
    assert_eq!(TranslationType::Dub.label(), "dub");
    match TranslationType::from_str("raw") {
        Err(AniError::Input(message)) => {
            assert_eq!(message, "translation type must be sub or dub, got raw")
        }
        other => panic!("unexpected {other:?}"),
    }
}

#[test]
fn language_names_and_errors() {
    assert_eq!(
        LanguagePreference::from_str("Español").unwrap(),
        LanguagePreference::Spanish
    );
    assert_eq!(
        LanguagePreference::from_str("\tespanol\n").unwrap(),
        LanguagePreference::Spanish
    );
    // Only ASCII letters fold: an upper-case Ñ is not lowered.
    assert!(LanguagePreference::from_str("ESPAÑOL").is_err());
    match LanguagePreference::from_str("es_ES") {
        Err(AniError::Input(message)) => assert!(message.starts_with("regional Spanish variants")),
        other => panic!("unexpected {other:?}"),
    }
    match LanguagePreference::from_str("fr") {
        Err(AniError::Input(message)) => assert_eq!(message, "language must be es, got fr"),
        other => panic!("unexpected {other:?}"),
    }
    assert_eq!(LanguagePreference::Spanish.label(), "es");
    assert_eq!(LanguagePreference::default(), LanguagePreference::Default);
}

#[test]
fn spanish_gate_message_names_the_catalog() {
    match require_language(CatalogProvider::Anikoto2, LanguagePreference::Spanish) {
        Err(AniError::Unavailable(message)) => assert_eq!(
            message,
            "Spanish audio/subtitles are not available from the anikoto2 catalog in this experimental phase"
        ),
        other => panic!("unexpected {other:?}"),
    }
}

#[test]
fn worst_quality_picks_first_lowest_positive_or_last() {
    let streams = vec![stream("720p"), stream("Auto"), stream("480p"), stream("480")];
    assert_eq!(choose_quality(&streams, "WORST").unwrap().url, "480p");
    let unranked = vec![stream("Auto"), stream("hd"), stream("0p")];
    assert_eq!(choose_quality(&unranked, "worst").unwrap().url, "0p");
    assert_eq!(choose_quality(&unranked, "Best").unwrap().url, "Auto");
    assert!(choose_quality(&[], "best").is_none());
    // An empty request is contained in every resolution.
    assert_eq!(choose_quality(&streams, "").unwrap().url, "720p");
    // Resolutions too large for an i32 rank as 0.
    let huge = vec![stream("99999999999p"), stream("360p")];
    assert_eq!(choose_quality(&huge, "worst").unwrap().url, "360p");
}

#[test]
fn streams_sort_by_host_resolution_hls_then_label() {
    let mut streams = vec![
        labelled("a", "720p", "Default", false),
        labelled("b", "1080p", "Default", false),
        labelled("c", "480p", "S-MP4", false),
        labelled("d", "1080p", "Default", true),
        labelled("e", "720p", "mp4upload", false),
        labelled("f", "Auto", "Default", false),
        labelled("g", "1080p", "Default", false),
        labelled("h", "360p", "Alpha", false),
        labelled("i", "360p", "Beta", false),
    ];
    sort_streams(&mut streams);
    let order: Vec<&str> = streams.iter().map(|s| s.url.as_str()).collect();
    assert_eq!(order, vec!["c", "e", "d", "b", "g", "a", "f", "h", "i"]);
}

#[test]
fn selections_with_lists_ranges_and_errors() {
    let eps: Vec<String> = vec!["1".into(), "2".into(), "2.5".into(), "3".into()];
    assert_eq!(
        expand_episode_selection(" 1  3 ", &eps).unwrap(),
        vec!["1", "3"]
    );
    assert!(matches!(
        expand_episode_selection("1 4", &eps),
        Err(AniError::InputInvalidEpisode)
    ));
    assert_eq!(expand_episode_selection("2-", &eps).unwrap(), vec!["2", "2.5", "3"]);
    assert_eq!(expand_episode_selection("1--1", &eps).unwrap(), eps);
    assert!(matches!(
        expand_episode_selection("3-1", &eps),
        Err(AniError::InputInvalidEpisode)
    ));
    assert!(matches!(
        expand_episode_selection("1-9", &eps),
        Err(AniError::InputInvalidEpisode)
    ));
    assert_eq!(expand_episode_selection("2.5", &eps).unwrap(), vec!["2.5"]);
    assert!(matches!(
        expand_episode_selection("7", &eps),
        Err(AniError::InputInvalidEpisode)
    ));
    assert!(matches!(
        expand_episode_selection("-1", &[]),
        Err(AniError::UnavailableNoEpisodes)
    ));
}
