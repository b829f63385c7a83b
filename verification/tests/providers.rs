use std::time::Duration;

use base64::Engine as _;
use base64::engine::general_purpose::STANDARD;

use ani_cli_rs::jkanime::{parse_anime_id, parse_csrf_token, parse_embedded_media};
use ani_cli_rs::providers::{clean_text, host_matches};
use ani_cli_rs::remote::validate_remote_url;
use ani_cli_rs::tioanime::{browser_fallback_suffix, is_novideo_error, parse_yourupload_media};
use ani_cli_rs::{AniError, JkAnimeClientBuilder, TioAnimeClientBuilder, jkanime, tioanime};

#[test]
fn parses_anime_id_and_csrf_token() {
    let html = r#"<meta name="csrf-token" content="token123"><div id="guardar-anime" data-anime="4772">"#;
    assert_eq!(parse_anime_id(html).as_deref(), Some("4772"));
    assert_eq!(parse_csrf_token(html).as_deref(), Some("token123"));
    assert!(parse_anime_id("<html></html>").is_none());
}

#[test]
fn decodes_embedded_hls_payload() {
    let payload =
        STANDARD.encode("https://media.example.invalid/episode-9/master.m3u8?st=x&e=1");
    let html = format!("<script>url: atob('{payload}'),</script>");
    let encoded = parse_embedded_media(&html).unwrap();
    let bytes = STANDARD.decode(encoded).unwrap();
    let url = validate_remote_url(String::from_utf8(bytes).unwrap().trim()).unwrap();
    assert!(url.path().contains(".m3u8"));
}

#[test]
fn extracts_yourupload_direct_media() {
    let html = r#"<meta property="og:video" content="https://vidcache.net:8161/a20260904ToEX572c3ay/video.mp4">"#;
    assert!(
        parse_yourupload_media(html)
            .unwrap()
            .ends_with("/video.mp4")
    );
    let jwplayer = "<script>var x = {file: 'https://cdn.example.invalid/v.mp4'};</script>";
    assert_eq!(
        parse_yourupload_media(jwplayer).as_deref(),
        Some("https://cdn.example.invalid/v.mp4")
    );
    assert!(parse_yourupload_media("<html></html>").is_none());
}

#[test]
fn novideo_errors_are_detected_for_browser_fallback() {
    let removed = AniError::Provider(
        "YourUpload video removed or unavailable (novideo.mp4) — try another episode (e.g., 2) or provider JKAnime".into(),
    );
    assert!(is_novideo_error(&removed));
    assert!(!is_novideo_error(&AniError::Provider(
        "YourUpload page exposed no direct media URL".into()
    )));
    assert!(!is_novideo_error(&AniError::UnavailableNoEpisodes));
}

#[test]
fn browser_fallback_suffix_points_at_sibling_servers() {
    let siblings = vec![
        (
            "Mega".to_string(),
            "https://mega.nz/embed/!abc!def".to_string(),
        ),
        (
            "Voe".to_string(),
            "https://voe.sx/e/zinf7arp3m40".to_string(),
        ),
    ];
    let removed = browser_fallback_suffix(true, &siblings);
    assert!(removed.contains("removed upstream"));
    assert!(removed.contains("https://mega.nz/embed/!abc!def"));
    assert!(removed.contains("https://voe.sx/e/zinf7arp3m40"));
    let generic = browser_fallback_suffix(false, &siblings);
    assert!(generic.contains("open in a browser"));
    assert!(generic.contains("https://voe.sx/e/zinf7arp3m40"));
    assert!(browser_fallback_suffix(true, &[]).is_empty());
    assert!(browser_fallback_suffix(false, &[]).is_empty());
}

#[test]
fn fallback_suffix_joins_pairs() {
    let one = vec![("Mega".to_string(), "https://m".to_string())];
    assert_eq!(
        browser_fallback_suffix(false, &one),
        "; not directly playable — open in a browser: Mega https://m"
    );
    let two = vec![
        ("Mega".to_string(), "https://m".to_string()),
        ("Voe".to_string(), "https://v".to_string()),
    ];
    assert!(browser_fallback_suffix(true, &two).ends_with("browser: Mega https://m; Voe https://v"));
}

#[test]
fn markers_take_the_leftmost_complete_match() {
    assert_eq!(
        parse_anime_id(r#"data-anime="" data-anime="12x" data-anime="٤٢" data-anime="77""#).as_deref(),
        Some("٤٢")
    );
    assert_eq!(
        parse_csrf_token("<meta\n\tname=\"csrf-token\"   content=\"a b\">").as_deref(),
        Some("a b")
    );
    assert!(parse_csrf_token("<metaname=\"csrf-token\" content=\"x\">").is_none());
    let short = "atob('QUJD')";
    assert!(parse_embedded_media(short).is_none());
    let long = format!("atob('{}')", "A".repeat(32));
    assert_eq!(parse_embedded_media(&long).unwrap().len(), 32);
    assert_eq!(
        parse_yourupload_media("file:'a' <meta property=\"og:video\" content=\"b\">").as_deref(),
        Some("b")
    );
}

#[test]
fn hosts_match_domain_and_subdomains() {
    assert!(host_matches("jkanime.net", "jkanime.net"));
    assert!(host_matches("cdn.JKAnime.net.", "jkanime.net"));
    assert!(!host_matches("notjkanime.net", "jkanime.net"));
    assert!(host_matches("www.yourupload.com", "yourupload.com"));
    assert_eq!(clean_text("  Black \n Torch  "), "Black Torch");
}

#[test]
fn slugs_follow_the_catalog_shape() {
    assert!(jkanime::validate_slug("black-torch").is_ok());
    assert!(jkanime::validate_slug("Black-Torch-2").is_ok());
    assert!(jkanime::validate_slug("-black").is_err());
    assert!(jkanime::validate_slug("").is_err());
    assert!(jkanime::validate_slug(&"a".repeat(200)).is_ok());
    assert!(jkanime::validate_slug(&"a".repeat(201)).is_err());
    assert!(jkanime::validate_slug("\u{212a}ill").is_ok());
    match tioanime::validate_slug("not a slug!") {
        Err(AniError::Input(message)) => assert_eq!(message, "invalid TioAnime show slug"),
        other => panic!("unexpected {other:?}"),
    }
}

#[test]
fn builders_hold_base_agent_and_timeout() {
    let jk = JkAnimeClientBuilder::default();
    assert_eq!(jk.client_base(), "https://jkanime.net");
    assert_eq!(jk.request_timeout(), Duration::from_secs(15));
    let jk = jk.base_url("https://mirror.example//").timeout(Duration::from_secs(3));
    assert_eq!(jk.client_base(), "https://mirror.example");
    assert_eq!(jk.request_timeout(), Duration::from_secs(3));
    let tio = TioAnimeClientBuilder::default();
    assert_eq!(tio.client_base(), "https://tioanime.com");
    assert!(tio.user_agent().starts_with("Mozilla/5.0"));
}
