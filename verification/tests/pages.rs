use base64::Engine as _;
use base64::engine::general_purpose::STANDARD;

use ani_cli_rs::cache::{CACHE_LIMIT, CACHE_TTL_MS, SearchCache};
use ani_cli_rs::jkanime::{
    direct_link, episode_list_complete, episode_range, parse_embedded_media, parse_latest_episode, parse_player_embeds,
    player_media, player_page_url, search_listing as jk_search_listing,
};
use ani_cli_rs::models::dedup_streams;
use ani_cli_rs::playlist::{playlist_streams, stream_link};
use ani_cli_rs::providers::{apply_episode_counts, enrichment_len, search_terms};
use ani_cli_rs::remote::{is_hls_url, validate_remote_url};
use ani_cli_rs::resolution::Resolution;
use ani_cli_rs::response::{check_body_size, check_response};
use ani_cli_rs::tioanime::{
    episode_labels, is_novideo_error, is_yourupload, parse_servers,
    search_listing as tio_search_listing, yourupload_embed_url, yourupload_stream,
};
use ani_cli_rs::{AniError, CatalogProvider, RequestHeaders, SearchResult, StreamLink};

#[test]
fn jkanime_unsafe_media_urls_are_rejected() {
    assert!(validate_remote_url("http://media.example.invalid/x.m3u8").is_err());
    assert!(validate_remote_url("https://192.0.2.1/x.m3u8").is_err());
    assert!(parse_embedded_media("<html>no player here</html>").is_none());
}

#[test]
fn tioanime_unsafe_media_urls_are_rejected() {
    assert!(validate_remote_url("http://media.example.invalid/x.mp4").is_err());
    assert!(validate_remote_url("https://192.0.2.1/x.mp4").is_err());
}

#[test]
fn extracts_jkplayer_embeds_with_server_labels() {
    let html = r##"
        <a id="btn-show-0" data-id="0" class="servers btn-show lg_1 mode_normal" href="#option0">Desu</a>
        <a id="btn-show-1" data-id="1" class="servers btn-show lg_1 mode_normal" href="#option1">Magi</a>
        <script>video[0] = '<iframe class="player_conte" src="https://jkanime.net/jkplayer/um?e=abc&t=def">';</script>
        <script>video[1] = '<iframe class="player_conte" src="/jkplayer/umv?e=ghi">';</script>
    "##;
    let embeds = parse_player_embeds("https://jkanime.net", html);
    assert_eq!(embeds.len(), 2);
    assert_eq!(embeds[0].label, "JKAnime Desu");
    assert_eq!(embeds[0].url, "https://jkanime.net/jkplayer/um?e=abc&t=def");
    assert_eq!(embeds[1].label, "JKAnime Magi");
    assert_eq!(embeds[1].url, "https://jkanime.net/jkplayer/umv?e=ghi");
}

#[test]
fn parses_video_servers_with_labels() {
    let html = r#"<script>var videos = [["Mega","https:\/\/mega.nz\/embed\/!abc!def",0,0],["YourUpload","https:\/\/www.yourupload.com\/embed\/xyz",0,0]];</script>"#;
    let servers = parse_servers(html);
    assert_eq!(servers.len(), 2);
    assert_eq!(servers[0].label, "Mega");
    assert_eq!(servers[1].label, "YourUpload");
    assert!(parse_servers("<html></html>").is_empty());
}

#[test]
fn parses_search_results_with_embedded_anime_ids() {
    let html = r#"
        <div class="row page_directorio">
          <div class="col-lg-2" data-g="NDc3Mg==">
            <div class="anime__item">
              <a href="https://jkanime.net/black-torch/"></a>
              <div class="anime__item__text"><h5><a href="https://jkanime.net/black-torch/">Black Torch</a></h5></div>
            </div>
          </div>
          <div class="col-lg-2" data-g="bm90LWEtaWQ=">
            <div class="anime__item">
              <a href="https://jkanime.net/otro-anime/"></a>
              <div class="anime__item__text"><h5><a href="https://jkanime.net/otro-anime/">Otro Anime</a></h5></div>
            </div>
          </div>
        </div>
    "#;
    let values = jk_search_listing("https://jkanime.net", html).unwrap();
    assert_eq!(values.len(), 2);
    assert_eq!(values[0].title, "Black Torch");
    assert_eq!(values[0].slug, "black-torch");
    assert_eq!(values[0].anime_id.as_deref(), Some("4772"));
    assert_eq!(values[1].slug, "otro-anime");
    assert_eq!(values[1].anime_id, None);
}

#[test]
fn malformed_search_markup_yields_no_results() {
    let values =
        jk_search_listing("https://jkanime.net", "<html><body>no results here</body></html>")
            .unwrap();
    assert!(values.is_empty());
}

#[test]
fn search_cards_skip_foreign_links_and_repeats() {
    let html = r#"
        <div data-g="MTI="><a href="https://evil.example/black-torch/">x</a><a href="/black-torch">y</a></div>
        <div data-g="!!"><a href="/black-torch/">again</a><h5>Repeat</h5></div>
        <div data-g="OQ=="><a href="/a/b/">nested</a><a href="http://jkanime.net/plain/">http</a></div>
        <div data-g="Nw=="><a href="/two-words/"></a><h5>   </h5></div>
    "#;
    let values = jk_search_listing("https://jkanime.net", html).unwrap();
    assert_eq!(values.len(), 2);
    assert_eq!(values[0].slug, "black-torch");
    assert_eq!(values[0].anime_id.as_deref(), Some("12"));
    assert_eq!(values[0].title, "black torch");
    assert_eq!(values[1].slug, "two-words");
    assert_eq!(values[1].anime_id.as_deref(), Some("7"));
    assert_eq!(values[1].title, "two words");
    assert!(matches!(
        jk_search_listing("not a base", html),
        Err(AniError::Url(_))
    ));
}

#[test]
fn tioanime_search_entries_are_listed_once_per_slug() {
    let entries = vec![
        ("Black Torch".to_string(), "black-torch".to_string()),
        ("".to_string(), "otro-anime".to_string()),
        ("Duplicate".to_string(), "black-torch".to_string()),
        ("No slug".to_string(), "".to_string()),
    ];
    let values = tio_search_listing(&entries).unwrap();
    assert_eq!(
        values,
        vec![
            ("black-torch".to_string(), "Black Torch".to_string()),
            ("otro-anime".to_string(), "otro anime".to_string()),
        ]
    );
    let spaced = vec![("  Dragon   Ball \n Super ".to_string(), "dbs".to_string())];
    assert_eq!(tio_search_listing(&spaced).unwrap()[0].1, "Dragon Ball Super");
    let invalid = vec![("Bad".to_string(), "not a slug!".to_string())];
    match tio_search_listing(&invalid) {
        Err(AniError::Input(message)) => assert_eq!(message, "invalid TioAnime show slug"),
        other => panic!("unexpected {other:?}"),
    }
}

#[test]
fn episode_arrays_are_read_as_written() {
    let html = r#"<script>var anime_info = ["4452","black-torch","Black Torch","2026-09-05"];
        var episodes = [9,8,"7",7.5];</script>"#;
    assert_eq!(episode_labels(html).unwrap(), vec!["9", "8", "7", "7.5"]);
    match episode_labels("<html></html>") {
        Err(AniError::Provider(message)) => {
            assert_eq!(message, "TioAnime page exposed no episode list")
        }
        other => panic!("unexpected {other:?}"),
    }
    match episode_labels("var episodes = [1,,2]") {
        Err(AniError::Provider(message)) => {
            assert_eq!(message, "TioAnime episode list was not valid JSON")
        }
        other => panic!("unexpected {other:?}"),
    }
    assert_eq!(episode_labels("var episodes = [null, true, 3]").unwrap(), vec!["3"]);
}

#[test]
fn video_arrays_need_the_closing_semicolon_on_one_line() {
    let split = "var videos = [[\"Mega\",\n\"https://mega.nz/e\"]];";
    assert!(parse_servers(split).is_empty());
    let spaced = "var  videos=[[\" Voe \",\" https://voe.sx/e/1 \"],[\"\",\"https://a.example/\"],[\"Bad\",\"http://a.example/\"]]  ;";
    let servers = parse_servers(spaced);
    assert_eq!(servers.len(), 1);
    assert_eq!(servers[0].label, "Voe");
    assert_eq!(servers[0].embed, "https://voe.sx/e/1");
}

#[test]
fn remote_urls_are_normalized_and_checked() {
    let url = validate_remote_url("https://Example.com/a/../b?x=1").unwrap();
    assert_eq!(url.as_str(), "https://example.com/b?x=1");
    assert_eq!(url.host(), Some("example.com"));
    assert_eq!(url.path(), "/b");
    assert_eq!(url.query(), Some("x=1"));
    match validate_remote_url("ftp://files.example/x") {
        Err(AniError::Provider(message)) => assert_eq!(message, "unsafe provider URL"),
        other => panic!("unexpected {other:?}"),
    }
    match validate_remote_url("https://user:pw@files.example/x") {
        Err(AniError::Provider(message)) => assert_eq!(message, "unsafe provider URL"),
        other => panic!("unexpected {other:?}"),
    }
    match validate_remote_url("https://10.0.0.1/x") {
        Err(AniError::Provider(message)) => {
            assert_eq!(message, "literal-IP provider URLs are not allowed")
        }
        other => panic!("unexpected {other:?}"),
    }
    assert!(matches!(validate_remote_url("no scheme"), Err(AniError::Url(_))));
    // A bracketed IPv6 host is not read as an IP address.
    assert!(validate_remote_url("https://[::1]/x").is_ok());
}

#[test]
fn hls_urls_are_recognized_by_path_or_query() {
    assert!(is_hls_url(&validate_remote_url("https://a.example/v/MASTER.M3U8").unwrap()));
    assert!(is_hls_url(&validate_remote_url("https://a.example/play?src=x.m3u8").unwrap()));
    assert!(!is_hls_url(&validate_remote_url("https://a.example/play?src=x.M3U8").unwrap()));
    assert!(!is_hls_url(&validate_remote_url("https://a.example/v.mp4").unwrap()));
}

fn headers() -> RequestHeaders {
    let mut h = RequestHeaders::default();
    h.referer = Some("https://jkanime.net/".to_string());
    h
}

#[test]
fn master_playlists_list_their_variants() {
    let text = "#EXTM3U\n#EXT-X-STREAM-INF:BANDWIDTH=1,RESOLUTION=1920x1080\n1080/index.m3u8\n  #EXT-X-STREAM-INF:BANDWIDTH=2\r\n\n# note\n https://other.example/low.m3u8 \n#EXT-X-STREAM-INF:resolution=640X360\n";
    let url = "https://cdn.example/hls/master.m3u8";
    let streams = playlist_streams(url, "JKAnime Desu", &headers(), text).unwrap();
    assert_eq!(streams.len(), 2);
    assert_eq!(streams[0].url, "https://cdn.example/hls/1080/index.m3u8");
    assert_eq!(streams[0].resolution, "1080p");
    assert!(streams[0].hls);
    assert_eq!(streams[0].provider, "JKAnime Desu");
    assert_eq!(streams[0].headers, headers());
    assert_eq!(streams[1].url, "https://other.example/low.m3u8");
    assert_eq!(streams[1].resolution, "Auto");
}

#[test]
fn other_playlists_play_as_they_are() {
    let url = "https://cdn.example/hls/index.m3u8";
    let media = playlist_streams(url, "P", &headers(), "#EXTM3U\n#EXTINF:4,\nseg0.ts\n").unwrap();
    assert_eq!(media, vec![stream_link(url, "P", &headers())]);
    assert_eq!(media[0].resolution, "Auto");
    let bare = playlist_streams(url, "P", &headers(), "#EXTM3U\n#EXT-X-STREAM-INF:X=1\n# only tags\n")
        .unwrap();
    assert_eq!(bare.len(), 1);
    assert_eq!(bare[0].url, url);
    assert!(matches!(
        playlist_streams("not a url", "P", &headers(), "#EXTM3U #EXT-X-STREAM-INF"),
        Err(AniError::Url(_))
    ));
}

#[test]
fn resolution_attribute_is_matched_without_case() {
    let text = "#EXTM3U\n#EXT-X-STREAM-INF:Re\u{17f}olution=854x480\nlow.m3u8\n";
    let streams = playlist_streams("https://cdn.example/m.m3u8", "P", &headers(), text).unwrap();
    assert_eq!(streams[0].resolution, "480p");
}

#[test]
fn latest_episode_is_the_highest_linked_number() {
    let html = r#"<a href="https://jkanime.net/black-torch/3/">3</a>
        <a href="http://jkanime.net/black-torch/12">12</a>
        <a href="https://jkanime.net/other-show/99/">other</a>
        <a href="https://jkanime.net/black-torch/012/">again</a>
        <a href="https://jkanime.net/black-torch/4/x">broken</a>"#;
    assert_eq!(parse_latest_episode("black-torch", html).as_deref(), Some("012"));
    assert!(parse_latest_episode("black-torch", "<html></html>").is_none());
    assert_eq!(
        parse_latest_episode("show", r#"href="https://h/show/2" href="https://h/show/٣""#)
            .as_deref(),
        Some("2")
    );
}

#[test]
fn episode_ranges_count_from_one() {
    assert_eq!(episode_range("3").unwrap(), vec!["1", "2", "3"]);
    assert!(episode_range("0").unwrap().is_empty());
    match episode_range("x") {
        Err(AniError::Provider(message)) => {
            assert_eq!(message, "JKAnime latest episode number was not numeric")
        }
        other => panic!("unexpected {other:?}"),
    }
}

#[test]
fn player_pages_yield_their_media_url() {
    let payload = STANDARD.encode("  https://media.example.invalid/ep/master.m3u8  ");
    let html = format!("<script>url: atob('{payload}'),</script>");
    let media = player_media(&html).unwrap();
    assert_eq!(media.as_str(), "https://media.example.invalid/ep/master.m3u8");
    assert!(is_hls_url(&media));
    let link = direct_link(&validate_remote_url("https://a.example/v.mp4").unwrap(), "JKAnime Magi");
    assert_eq!(link.url, "https://a.example/v.mp4");
    assert!(!link.hls && !link.downloadable);
    assert_eq!(link.provider, "JKAnime Magi");
    match player_media("<html></html>") {
        Err(AniError::Provider(message)) => {
            assert_eq!(message, "JKPlayer page exposed no playable media URL")
        }
        other => panic!("unexpected {other:?}"),
    }
    let bad = format!("atob('{}')", "A=".repeat(16));
    match player_media(&bad) {
        Err(AniError::Provider(message)) => {
            assert_eq!(message, "JKPlayer media payload was not valid base64")
        }
        other => panic!("unexpected {other:?}"),
    }
    let latin1 = format!("atob('{}')", STANDARD.encode([0xffu8; 24]));
    match player_media(&latin1) {
        Err(AniError::Provider(message)) => {
            assert_eq!(message, "JKPlayer media payload was not UTF-8")
        }
        other => panic!("unexpected {other:?}"),
    }
}

#[test]
fn embed_hosts_are_checked() {
    assert!(player_page_url("https://jkanime.net/jkplayer/um?e=1").is_ok());
    match player_page_url("https://evil.example/jkplayer") {
        Err(AniError::Provider(message)) => {
            assert_eq!(message, "unsupported JKAnime embed host evil.example")
        }
        other => panic!("unexpected {other:?}"),
    }
    assert!(yourupload_embed_url("https://www.yourupload.com/embed/xyz").is_ok());
    match yourupload_embed_url("https://mega.nz/embed/x") {
        Err(AniError::Provider(message)) => {
            assert_eq!(message, "unexpected YourUpload embed host mega.nz")
        }
        other => panic!("unexpected {other:?}"),
    }
    assert!(is_yourupload("YourUpload"));
    assert!(is_yourupload("YOURUPLOAD"));
    assert!(!is_yourupload("Your Upload"));
}

#[test]
fn yourupload_pages_give_downloadable_streams() {
    let embed = yourupload_embed_url("https://www.yourupload.com/embed/xyz").unwrap();
    let html = r#"<meta property="og:video" content="https://vidcache.net:8161/a/video.mp4">"#;
    let stream = yourupload_stream(&embed, "YourUpload", html).unwrap();
    assert_eq!(stream.url, "https://vidcache.net:8161/a/video.mp4");
    assert_eq!(stream.provider, "TioAnime YourUpload");
    assert!(stream.downloadable && !stream.hls);
    assert_eq!(stream.headers.referer.as_deref(), Some("https://www.yourupload.com/embed/xyz"));
    let removed = yourupload_stream(&embed, "YourUpload", "file: '/embed/novideo.mp4'").unwrap_err();
    assert!(is_novideo_error(&removed));
    match yourupload_stream(&embed, "YourUpload", "file: 'http://x.example/v.mp4'") {
        Err(AniError::Provider(message)) => assert_eq!(
            message,
            "YourUpload returned an invalid media URL `http://x.example/v.mp4` — video may be removed"
        ),
        other => panic!("unexpected {other:?}"),
    }
    match yourupload_stream(&embed, "YourUpload", "<html></html>") {
        Err(error) => assert!(!is_novideo_error(&error)),
        Ok(_) => panic!("no media expected"),
    }
}

fn link(url: &str, resolution: &str) -> StreamLink {
    StreamLink {
        url: url.to_string(),
        resolution: resolution.to_string(),
        hls: true,
        provider: "P".to_string(),
        downloadable: false,
        headers: RequestHeaders::default(),
        subtitles: Vec::new(),
    }
}

#[test]
fn duplicate_stream_urls_keep_the_first() {
    let streams = vec![
        link("https://a/1", "720p"),
        link("https://a/2", "1080p"),
        link("https://a/1", "480p"),
    ];
    let kept = dedup_streams(streams);
    assert_eq!(kept, vec![link("https://a/1", "720p"), link("https://a/2", "1080p")]);
    assert!(dedup_streams(Vec::new()).is_empty());
}

#[test]
fn answers_are_checked_before_reading() {
    match check_response("TioAnime", 429, Some("30"), None, 10) {
        Err(AniError::ProviderRateLimited { provider, retry_after_seconds }) => {
            assert_eq!(provider, "TioAnime");
            assert_eq!(retry_after_seconds, 30);
        }
        other => panic!("unexpected {other:?}"),
    }
    match check_response("TioAnime", 429, Some("soon"), None, 10) {
        Err(AniError::ProviderRateLimited { retry_after_seconds, .. }) => {
            assert_eq!(retry_after_seconds, 120)
        }
        other => panic!("unexpected {other:?}"),
    }
    match check_response("JKAnime", 404, None, None, 10) {
        Err(AniError::Catalog { provider, message }) => {
            assert_eq!(provider, "JKAnime");
            assert_eq!(message, "HTTP 404 Not Found");
        }
        other => panic!("unexpected {other:?}"),
    }
    match check_response("JKAnime", 599, None, None, 10) {
        Err(AniError::Catalog { message, .. }) => {
            assert_eq!(message, "HTTP 599 <unknown status code>")
        }
        other => panic!("unexpected {other:?}"),
    }
    match check_response("JKAnime", 200, None, Some(11), 10) {
        Err(AniError::Provider(message)) => {
            assert_eq!(message, "provider response exceeded the safety limit")
        }
        other => panic!("unexpected {other:?}"),
    }
    assert!(check_response("JKAnime", 204, None, Some(10), 10).is_ok());
    assert!(check_body_size(10, 10).is_ok());
    assert!(check_body_size(11, 10).is_err());
}

#[test]
fn resolutions_report_streams_or_why_none() {
    let mut found = Resolution::new();
    found.resolved(link("https://a/1", "720p"));
    found.resolved(link("https://a/2", "1080p"));
    found.resolved(link("https://a/1", "1080p"));
    let streams = found.finish("none").unwrap();
    assert_eq!(streams, vec![link("https://a/2", "1080p"), link("https://a/1", "720p")]);

    let mut none = Resolution::new();
    none.browser_only("Mega", "https://mega.nz/embed/x");
    let removed = AniError::Provider(
        "YourUpload video removed or unavailable (novideo.mp4) — try another episode (e.g., 2) or provider JKAnime".into(),
    );
    none.failed("YourUpload", &removed, "gone");
    let detail = none.finish("none").unwrap_err();
    assert_eq!(
        detail,
        "Mega: resolver not implemented in PoC; YourUpload: gone; YourUpload file was removed upstream — try another episode (e.g., 2) or provider JKAnime, or open in a browser: Mega https://mega.nz/embed/x"
    );
    assert_eq!(Resolution::new().finish("no JKPlayer embeds resolved").unwrap_err(), "no JKPlayer embeds resolved");
}

#[test]
fn search_queries_are_trimmed_and_keyed_in_lower_case() {
    assert_eq!(
        search_terms("  Black Torch \n").unwrap(),
        ("Black Torch".to_string(), "black torch".to_string())
    );
    assert!(matches!(search_terms(" \t "), Err(AniError::InputEmptyQuery)));
}

#[test]
fn episode_counts_fill_the_first_results() {
    assert_eq!(enrichment_len(2), 2);
    assert_eq!(enrichment_len(9), 6);
    let result = |id: &str, episodes: u64| SearchResult {
        id: id.to_string(),
        name: id.to_string(),
        episodes,
        provider: CatalogProvider::TioAnime,
    };
    let counted = apply_episode_counts(vec![result("a", 0), result("b", 5), result("c", 0)], &[12, 0]);
    assert_eq!(counted, vec![result("a", 12), result("b", 5), result("c", 0)]);
}

#[test]
fn episode_pages_stop_when_the_total_is_reached() {
    assert!(episode_list_complete(0, 10, 50));
    assert!(episode_list_complete(10, 10, 0));
    assert!(!episode_list_complete(10, 10, 25));
    assert!(episode_list_complete(5, 25, 25));
    assert!(episode_list_complete(5, 30, 25));
}

#[test]
fn cached_answers_are_read_back_while_fresh() {
    let mut cache: SearchCache<Vec<u32>> = SearchCache::new();
    cache.put("black torch".to_string(), vec![1, 2], 1_000);
    cache.prune(1_000 + CACHE_TTL_MS - 1);
    assert_eq!(cache.get("black torch"), Some(&vec![1, 2]));
    assert_eq!(cache.get("frieren"), None);
    cache.put("black torch".to_string(), vec![3], 2_000);
    cache.prune(1_000 + CACHE_TTL_MS);
    assert_eq!(cache.get("black torch"), Some(&vec![3]));
    cache.prune(2_000 + CACHE_TTL_MS);
    assert_eq!(cache.get("black torch"), None);
}

#[test]
fn a_full_cache_evicts_one_answer() {
    let mut cache: SearchCache<usize> = SearchCache::new();
    for index in 0..CACHE_LIMIT {
        cache.put(format!("q{index}"), index, 0);
    }
    cache.put("new".to_string(), 7, 0);
    assert_eq!(cache.get("new"), Some(&7));
    let held = (0..CACHE_LIMIT)
        .filter(|index| cache.get(&format!("q{index}")).is_some())
        .count();
    assert_eq!(held, CACHE_LIMIT - 1);
}
