use serde_json::Value;

use ani_cli_rs::playlist::{MAX_PLAYLIST_BYTES, playlist_response, stream_link};
use ani_cli_rs::providers::{ShowIdPayload, ShowIdReading, encoded_show_id};
use ani_cli_rs::{AniError, RequestHeaders, Result, jkanime, tioanime};

fn metadata(fields: &[(&str, &str)]) -> Value {
    let mut map = serde_json::Map::new();
    for (key, value) in fields {
        map.insert((*key).to_string(), Value::String((*value).to_string()));
    }
    Value::Object(map)
}

fn encode(prefix: &str, id: &Value) -> String {
    encoded_show_id(prefix, &serde_json::to_vec(id).unwrap())
}

/// Reads an id the way the clients do: the metadata bytes are parsed as a
/// JSON object with a `slug`, and the library settles the id.
fn decode(
    value: &str,
    read: fn(&str) -> Result<ShowIdPayload>,
    settle: fn(ShowIdPayload, Option<String>) -> Result<ShowIdReading>,
) -> Result<Value> {
    let payload = read(value)?;
    let parsed: Option<Value> = payload
        .metadata
        .as_deref()
        .and_then(|bytes| serde_json::from_slice::<Value>(bytes).ok())
        .filter(|v| v.get("slug").and_then(Value::as_str).is_some());
    let parsed_slug = parsed
        .as_ref()
        .and_then(|v| v.get("slug").and_then(Value::as_str).map(str::to_string));
    match settle(payload, parsed_slug)? {
        ShowIdReading::Metadata => Ok(parsed.unwrap()),
        ShowIdReading::Slug(slug) => Ok(metadata(&[("slug", &slug)])),
    }
}

fn decode_jk(value: &str) -> Result<Value> {
    decode(value, jkanime::show_id_payload, jkanime::settle_id)
}

fn decode_tio(value: &str) -> Result<Value> {
    decode(value, tioanime::show_id_payload, tioanime::settle_id)
}

fn slug_of(v: &Value) -> &str {
    v.get("slug").and_then(Value::as_str).unwrap()
}

#[test]
fn jkanime_ids_round_trip_and_raw_slugs_are_supported() {
    let id = metadata(&[("slug", "black-torch"), ("anime_id", "4772"), ("title", "Black Torch")]);
    let encoded = encode("jkanime:", &id);
    assert!(encoded.starts_with("jkanime:"));
    assert_eq!(decode_jk(&encoded).unwrap(), id);
    assert_eq!(slug_of(&decode_jk("black-torch").unwrap()), "black-torch");
    assert_eq!(slug_of(&decode_jk("jkanime:black-torch").unwrap()), "black-torch");
}

#[test]
fn jkanime_invalid_ids_fail_before_network() {
    assert!(decode_jk("").is_err());
    assert!(decode_jk("jkanime:").is_err());
    assert!(decode_jk("jkanime:not-base64!!!").is_err());
    assert!(decode_jk("not a slug!").is_err());
}

#[test]
fn tioanime_ids_round_trip_and_raw_slugs_are_supported() {
    let id = metadata(&[("slug", "black-torch"), ("title", "Black Torch")]);
    let encoded = encode("tioanime:", &id);
    assert!(encoded.starts_with("tioanime:"));
    assert_eq!(decode_tio(&encoded).unwrap(), id);
    assert_eq!(slug_of(&decode_tio("black-torch").unwrap()), "black-torch");
    assert_eq!(slug_of(&decode_tio("tioanime:black-torch").unwrap()), "black-torch");
}

#[test]
fn tioanime_invalid_ids_fail_before_network() {
    assert!(decode_tio("").is_err());
    assert!(decode_tio("tioanime:").is_err());
    assert!(decode_tio("tioanime:not-base64!!!").is_err());
    assert!(decode_tio("not a slug!").is_err());
}

#[test]
fn unpadded_ids_decode_to_metadata_not_slugs() {
    let id = metadata(&[("slug", "one-punch-man-3"), ("title", "One Punch Man 3")]);
    let encoded = encode("tioanime:", &id);
    assert_eq!(decode_tio(&encoded).unwrap(), id);
    assert_eq!(slug_of(&decode_tio("tioanime:black-torch").unwrap()), "black-torch");
}

#[test]
fn jkanime_unpadded_ids_decode_to_metadata_not_slugs() {
    let id = metadata(&[("slug", "kimetsu-no-yaiba")]);
    let encoded = encode("jkanime:", &id);
    assert_eq!(encoded, "jkanime:eyJzbHVnIjoia2ltZXRzdS1uby15YWliYSJ9");
    assert_eq!(decode_jk(&encoded).unwrap(), id);
    let tio = encode("tioanime:", &id);
    assert_eq!(decode_tio(&tio).unwrap(), id);
}

#[test]
fn encoded_ids_hold_padded_base64() {
    assert_eq!(encoded_show_id("jkanime:", b"hi"), "jkanime:aGk=");
    assert_eq!(encoded_show_id("x:", b""), "x:");
    assert_eq!(encoded_show_id("", b"abc"), "YWJj");
}

#[test]
fn show_id_payloads_offer_bytes_then_slug() {
    let p = jkanime::show_id_payload("jkanime:aGk=").unwrap();
    assert_eq!(p.metadata, Some(b"hi".to_vec()));
    assert!(matches!(p.fallback, Err(AniError::Input(m)) if m == "invalid JKAnime show metadata"));
    let p = jkanime::show_id_payload("jkanime:not-base64!!!").unwrap();
    assert_eq!(p.metadata, None);
    assert!(matches!(p.fallback, Err(AniError::Input(m)) if m == "invalid JKAnime show ID encoding"));
    let p = jkanime::show_id_payload("jkanime:abcd").unwrap();
    assert_eq!(p.metadata, Some(vec![0x69, 0xb7, 0x1d]));
    assert_eq!(p.fallback.unwrap(), "abcd");
    let p = jkanime::show_id_payload("black-torch").unwrap();
    assert_eq!(p.metadata, None);
    assert_eq!(p.fallback.unwrap(), "black-torch");
    assert!(matches!(
        jkanime::show_id_payload("jkanime:"),
        Err(AniError::Input(m)) if m == "invalid JKAnime show ID"
    ));
    assert!(matches!(
        jkanime::show_id_payload("not a slug!").unwrap().fallback,
        Err(AniError::Input(m)) if m == "invalid JKAnime show slug"
    ));

    let p = tioanime::show_id_payload("tioanime:aGk=").unwrap();
    assert_eq!(p.metadata, Some(b"hi".to_vec()));
    assert!(matches!(p.fallback, Err(AniError::Input(m)) if m == "invalid TioAnime show slug"));
    assert!(matches!(
        tioanime::show_id_payload("tioanime:"),
        Err(AniError::Input(m)) if m == "invalid TioAnime show ID"
    ));
}

#[test]
fn settling_prefers_valid_metadata() {
    let payload = || jkanime::show_id_payload("jkanime:abcd").unwrap();
    assert_eq!(
        jkanime::settle_id(payload(), Some("black-torch".to_string())).unwrap(),
        ShowIdReading::Metadata
    );
    assert_eq!(
        jkanime::settle_id(payload(), Some("bad slug!".to_string())).unwrap(),
        ShowIdReading::Slug("abcd".to_string())
    );
    assert_eq!(jkanime::settle_id(payload(), None).unwrap(), ShowIdReading::Slug("abcd".to_string()));
    let padded = || jkanime::show_id_payload("jkanime:aGk=").unwrap();
    assert!(matches!(
        jkanime::settle_id(padded(), Some("bad slug!".to_string())),
        Err(AniError::Input(m)) if m == "invalid JKAnime show slug"
    ));
    assert!(matches!(
        jkanime::settle_id(padded(), None),
        Err(AniError::Input(m)) if m == "invalid JKAnime show metadata"
    ));
    let tio = tioanime::show_id_payload("tioanime:aGk=").unwrap();
    assert!(matches!(
        tioanime::settle_id(tio, None),
        Err(AniError::Input(m)) if m == "invalid TioAnime show slug"
    ));
}

fn headers() -> RequestHeaders {
    let mut h = RequestHeaders::default();
    h.referer = Some("https://jkanime.net/".to_string());
    h
}

#[test]
fn playlist_answers_that_fail_play_the_playlist_itself() {
    let url = "https://cdn.example/hls/master.m3u8";
    let streams = playlist_response(url, "P", &headers(), false, 0, "").unwrap();
    assert_eq!(streams, vec![stream_link(url, "P", &headers())]);
    assert_eq!(streams[0].resolution, "Auto");
}

#[test]
fn oversized_playlists_are_refused() {
    let url = "https://cdn.example/hls/master.m3u8";
    assert!(matches!(
        playlist_response(url, "P", &headers(), true, MAX_PLAYLIST_BYTES + 1, "#EXTM3U\n"),
        Err(AniError::Provider(m)) if m == "JKAnime playlist exceeds the 4 MiB limit"
    ));
    let text = "#EXTM3U\n#EXT-X-STREAM-INF:RESOLUTION=1280x720\n720.m3u8\n";
    let streams = playlist_response(url, "P", &headers(), true, MAX_PLAYLIST_BYTES, text).unwrap();
    assert_eq!(streams.len(), 1);
    assert_eq!(streams[0].url, "https://cdn.example/hls/720.m3u8");
    assert_eq!(streams[0].resolution, "720p");
}
