# ani_cli_rs

The core of a Spanish-aware anime command-line client, written in Verus:
catalog routing and fallback rules, quality and episode selection, the
JKAnime and TioAnime page formats, HLS master playlists, and the watch and
search history logs. The functions in `src/` carry `requires`/`ensures`
contracts that Verus proves.

## Layout

- `src/` — the verified library.
  - `models.rs` — providers, languages, search results and streams; routing,
    fallback, merging, quality choice, stream ranking and episode selection.
  - `history.rs` — the watch log and the search log: line formats, updates,
    recorded queries and where the files live.
  - `jkanime.rs`, `tioanime.rs` — what each catalog's pages hold and how the
    client turns it into listings, episode lists, embeds and streams.
  - `playlist.rs` — HLS master playlists and the variant streams they list.
  - `remote.rs` — parsed URLs and the safety check every media URL passes.
  - `response.rs` — the checks on an HTTP answer before its body is read.
  - `resolution.rs` — gathering an episode's streams server by server.
  - `cache.rs` — the five-minute search cache.
  - `providers.rs`, `text.rs`, `scan.rs` — shared text rules and scanners.
- `app/` — the network clients and file stores that perform the I/O around
  the library, and serde-facing copies of its types.
- `tests/` — tests of the library on concrete values.

Calls into other crates (`url`, `regex`, `scraper`, `base64`, `serde_json`,
`reqwest`'s status codes, `directories`) sit behind small trusted wrappers
whose contracts name what the crate computes; the logic around them is
proved against those names.
