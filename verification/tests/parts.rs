use std::path::PathBuf;

use ani_cli_rs::AniError;
use ani_cli_rs::history::{history_project, platform_lookup};
use ani_cli_rs::jkanime::{
    SearchCard, anime_id_of_bytes, embeds_of_buttons, episode_list_url, listing_of_cards,
    media_of_bytes, media_of_text, show_page,
};
use ani_cli_rs::remote::{checked_remote, parse_remote};
use ani_cli_rs::response::status_message;
use ani_cli_rs::tioanime::{
    JsonElement, anime_page, labels_of_elements, search_answer_listing, servers_of_elements,
};
use ani_cli_rs::{jkanime, tioanime};

#[test]
fn logs_are_asked_for_under_the_ani_cli_name() {
    assert_eq!(history_project(), ("org", "ani-cli", "ani-cli"));
    if let Some((state, data)) = platform_lookup("org", "ani-cli", "ani-cli") {
        assert!(data.ends_with("ani-cli") || data.to_string_lossy().contains("ani-cli"));
        if let Some(state) = state {
            assert_ne!(state, PathBuf::new());
        }
    }
}

#[test]
fn request_urls_escape_their_parts() {
    let base = "https://jkanime.net";
    assert_eq!(show_page(base, "black-torch"), "https://jkanime.net/black-torch/");
    assert_eq!(
        jkanime::episode_page(base, "black torch", "1/2"),
        "https://jkanime.net/black+torch/1%2F2/"
    );
    assert_eq!(episode_list_url(base, "4772", 3), "https://jkanime.net/ajax/episodes/4772/3");
    let tio = "https://tioanime.com";
    assert_eq!(anime_page(tio, "one-punch-man-3"), "https://tioanime.com/anime/one-punch-man-3");
    assert_eq!(
        tioanime::episode_page(tio, "dan-da-dan", "12.5"),
        "https://tioanime.com/ver/dan-da-dan-12.5"
    );
    assert_eq!(anime_page(tio, "ñ"), "https://tioanime.com/anime/%C3%B1");
}

#[test]
fn cards_list_shows_once_with_their_ids() {
    let card = |data_g: Option<&str>, href: &str, heading: Option<&str>| SearchCard {
        data_g: data_g.map(str::to_string),
        hrefs: vec![href.to_string()],
        heading: heading.map(str::to_string),
    };
    let cards = vec![
        card(Some("NDc3Mg=="), "https://jkanime.net/black-torch/", Some("  Black   Torch ")),
        card(None, "https://jkanime.net/black-torch/", Some("Again")),
        card(Some("YWJj"), "https://jkanime.net/otro-anime/", None),
    ];
    let shows = listing_of_cards("https://jkanime.net", &cards).unwrap();
    assert_eq!(shows.len(), 2);
    assert_eq!(shows[0].slug, "black-torch");
    assert_eq!(shows[0].anime_id.as_deref(), Some("4772"));
    assert_eq!(shows[0].title, "Black Torch");
    assert_eq!(shows[1].slug, "otro-anime");
    assert_eq!(shows[1].anime_id, None);
    assert!(matches!(listing_of_cards("not a url", &cards), Err(AniError::Url(_))));
    assert_eq!(anime_id_of_bytes(b"4772").as_deref(), Some("4772"));
    assert_eq!(anime_id_of_bytes(b""), None);
    assert_eq!(anime_id_of_bytes(b"47a"), None);
}

#[test]
fn buttons_label_the_embeds() {
    let html = "<script>var video = [];video[1] = '<iframe class=\"player_conte\" src=\"/jkplayer/um?e=abc\" width=\"100%\"></iframe>';</script>";
    let embeds = embeds_of_buttons("https://jkanime.net", html, &vec!["  Desu  ".to_string()]);
    assert_eq!(embeds.len(), 1);
    assert_eq!(embeds[0].label, "JKAnime Desu");
    assert_eq!(embeds[0].url, "https://jkanime.net/jkplayer/um?e=abc");
    let unlabeled = jkanime::parse_player_embeds("https://jkanime.net", html);
    assert_eq!(unlabeled.len(), 1);
    assert_eq!(unlabeled[0].url, embeds[0].url);
}

#[test]
fn decoded_payloads_name_the_media() {
    let url = media_of_text("  https://cdn.example/v.mp4 \n").unwrap();
    assert_eq!(url.as_str(), "https://cdn.example/v.mp4");
    assert!(matches!(media_of_text("http://cdn.example/v.mp4"), Err(AniError::Provider(_))));
    assert!(matches!(
        media_of_bytes(vec![0xff, 0xfe]),
        Err(AniError::Provider(m)) if m == "JKPlayer media payload was not UTF-8"
    ));
    assert_eq!(
        media_of_bytes(b"https://cdn.example/a.m3u8".to_vec()).unwrap().as_str(),
        "https://cdn.example/a.m3u8"
    );
}

fn element(scalar: Option<&str>, first: Option<&str>, second: Option<&str>) -> JsonElement {
    JsonElement {
        scalar: scalar.map(str::to_string),
        first: first.map(str::to_string),
        second: second.map(str::to_string),
    }
}

#[test]
fn json_elements_give_servers_and_labels() {
    let elements = vec![
        element(None, Some(" Mega "), Some("https://mega.nz/embed/x")),
        element(None, Some("Bad"), Some("http://plain.example/")),
        element(None, Some(""), Some("https://x.example/")),
        element(Some("3"), None, None),
    ];
    let servers = servers_of_elements(&elements);
    assert_eq!(servers.len(), 1);
    assert_eq!(servers[0].label, "Mega");
    assert_eq!(servers[0].embed, "https://mega.nz/embed/x");
    assert_eq!(labels_of_elements(&elements), vec!["3".to_string()]);
}

#[test]
fn search_answers_must_be_lists() {
    assert!(matches!(
        search_answer_listing(None),
        Err(AniError::Provider(m)) if m == "TioAnime search response was not a list"
    ));
    let answer = vec![
        Some(("Black Torch".to_string(), "black-torch".to_string())),
        None,
        Some(("".to_string(), "otro-anime".to_string())),
        Some(("Dup".to_string(), "black-torch".to_string())),
    ];
    let listed = search_answer_listing(Some(answer)).unwrap();
    assert_eq!(listed.len(), 2);
    assert_eq!(listed[0], ("black-torch".to_string(), "Black Torch".to_string()));
    assert_eq!(listed[1].0, "otro-anime");
    let bad = vec![Some(("X".to_string(), "not a slug!".to_string()))];
    assert!(matches!(search_answer_listing(Some(bad)), Err(AniError::Input(_))));
}

#[test]
fn status_messages_name_code_and_reason() {
    assert_eq!(status_message(404, Some("Not Found")), "HTTP 404 Not Found");
    assert_eq!(status_message(599, None), "HTTP 599 <unknown status code>");
}

#[test]
fn parsed_urls_are_checked_for_safety() {
    let ok = checked_remote(parse_remote("https://cdn.example/x").unwrap()).unwrap();
    assert_eq!(ok.as_str(), "https://cdn.example/x");
    assert!(matches!(
        checked_remote(parse_remote("https://user@cdn.example/x").unwrap()),
        Err(AniError::Provider(m)) if m == "unsafe provider URL"
    ));
    assert!(matches!(
        checked_remote(parse_remote("https://10.0.0.1/x").unwrap()),
        Err(AniError::Provider(m)) if m == "literal-IP provider URLs are not allowed"
    ));
}
