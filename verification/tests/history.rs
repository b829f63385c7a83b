use std::path::PathBuf;

use ani_cli_rs::history::{
    normalized_query, parse_history, parse_search_history, platform_dir, recorded_searches,
    render_history, render_search_history, state_dir, updated_history, validate_entry,
};
use ani_cli_rs::jkanime::episodes_found;
use ani_cli_rs::{AniError, HistoryEntry, HistoryStore, SEARCH_HISTORY_LIMIT, SearchEntry, SearchHistory};

fn entry(episode: &str, show_id: &str, title: &str) -> HistoryEntry {
    HistoryEntry {
        episode: episode.into(),
        show_id: show_id.into(),
        title: title.into(),
    }
}

/// Records a query the way the search log does, in memory.
fn record(log: &mut Vec<SearchEntry>, query: &str, context: &str, now: u64) {
    let query = normalized_query(query);
    if query.is_empty() {
        return;
    }
    let current = parse_search_history(&render_search_history(log));
    *log = recorded_searches(current, query, context, now);
}

#[test]
fn updates_replace_the_show_entry_in_the_legacy_format() {
    let first = updated_history(Vec::new(), entry("1", "abc", "Anime")).unwrap();
    let text = render_history(&first);
    assert_eq!(text, "1\tabc\tAnime\n");
    let second = updated_history(parse_history(&text), entry("2", "abc", "Anime")).unwrap();
    assert_eq!(parse_history(&render_history(&second)), vec![entry("2", "abc", "Anime")]);
}

#[test]
fn watch_log_parsing_skips_short_lines_and_keeps_extra_tabs() {
    let text = "1\tabc\tAnime\nbroken line\n3\tdef\tTitle\twith tab\r\n\n";
    assert_eq!(
        parse_history(text),
        vec![entry("1", "abc", "Anime"), entry("3", "def", "Title\twith tab")]
    );
    assert!(parse_history("").is_empty());
}

#[test]
fn watch_log_titles_are_kept_on_one_line() {
    let text = render_history(&[entry("5", "x", "A\tB\nC")]);
    assert_eq!(text, "5\tx\tA B C\n");
    assert_eq!(parse_history(&text), vec![entry("5", "x", "A B C")]);
}

#[test]
fn new_shows_are_appended_and_empty_fields_refused() {
    let log = vec![entry("1", "a", "A"), entry("4", "b", "B")];
    let log = updated_history(log, entry("2", "c", "C")).unwrap();
    assert_eq!(log.len(), 3);
    assert_eq!(log[2], entry("2", "c", "C"));
    let again = updated_history(log.clone(), entry("2", "c", "C")).unwrap();
    assert_eq!(again, log);
    match updated_history(log, entry("", "d", "D")) {
        Err(AniError::History(message)) => {
            assert_eq!(message, "history entry contains an empty field")
        }
        other => panic!("unexpected {other:?}"),
    }
    assert!(validate_entry(&entry("1", "2", "3")).is_ok());
    assert!(validate_entry(&entry("1", "2", "")).is_err());
}

#[test]
fn search_log_round_trips_newest_first() {
    let mut log = Vec::new();
    assert!(parse_search_history("").is_empty());
    record(&mut log, "black torch", "es via jkanime", 100);
    record(&mut log, "  frieren  ", "anikoto2", 200);
    record(&mut log, "   ", "anikoto2", 300);
    let entries = parse_search_history(&render_search_history(&log));
    assert_eq!(entries.len(), 2);
    assert_eq!(entries[0].query, "frieren");
    assert_eq!(entries[0].context, "anikoto2");
    assert_eq!(entries[0].timestamp, 200);
    assert_eq!(entries[1].query, "black torch");
    assert_eq!(render_search_history(&log), "100\tblack torch\tes via jkanime\n200\tfrieren\tanikoto2\n");
}

#[test]
fn search_log_dedupes_and_caps() {
    let mut log = Vec::new();
    record(&mut log, "naruto", "anikoto", 1);
    record(&mut log, "bleach", "anikoto", 2);
    record(&mut log, "naruto", "es via tioanime", 3);
    assert_eq!(log.len(), 2);
    assert_eq!(log[0].query, "naruto");
    assert_eq!(log[0].context, "es via tioanime");
    for index in 0..(SEARCH_HISTORY_LIMIT + 10) {
        record(&mut log, &format!("anime-{index}"), "anikoto", 10 + index as u64);
    }
    assert_eq!(log.len(), SEARCH_HISTORY_LIMIT);
    assert_eq!(log[0].query, format!("anime-{}", SEARCH_HISTORY_LIMIT + 9));
    assert!(parse_search_history("not-a-timestamp\tnope\n").is_empty());
}

#[test]
fn search_log_lines_are_checked() {
    let text = "+7\tq\tc\n18446744073709551616\tbig\tc\n5\t\tempty\n9\tok\tscope\twith tab\n";
    let entries = parse_search_history(text);
    assert_eq!(entries.len(), 2);
    assert_eq!(entries[0].query, "ok");
    assert_eq!(entries[0].context, "scope\twith tab");
    assert_eq!(entries[1].timestamp, 7);
    assert_eq!(normalized_query(" one \t piece\n"), "one piece");
}

#[test]
fn stores_name_their_files() {
    let store = HistoryStore::new(PathBuf::from("/tmp/x/ani-hsts"));
    assert_eq!(store.path(), &PathBuf::from("/tmp/x/ani-hsts"));
    let search = SearchHistory::new(PathBuf::from("/tmp/x/ani-search-hsts"));
    assert_eq!(search.path(), &PathBuf::from("/tmp/x/ani-search-hsts"));
}

#[test]
fn logs_live_in_the_chosen_state_directory() {
    let dir = std::path::PathBuf::from("/var/tmp/ani");
    let store = HistoryStore::platform_default(Some(dir.clone())).unwrap();
    assert_eq!(store.path(), &dir.join("ani-hsts"));
    let searches = SearchHistory::platform_default(Some(dir.clone())).unwrap();
    assert_eq!(searches.path(), &dir.join("ani-search-hsts"));
}

#[test]
fn platform_state_directory_comes_before_local_data() {
    let state = PathBuf::from("/home/u/.local/state/ani-cli");
    let data = PathBuf::from("/home/u/.local/share/ani-cli");
    assert_eq!(platform_dir(Some((Some(state.clone()), data.clone()))).unwrap(), state);
    assert_eq!(platform_dir(Some((None, data.clone()))).unwrap(), data);
    assert!(matches!(platform_dir(None), Err(AniError::HistoryStateDirectory)));
    let chosen = PathBuf::from("/srv/hist");
    assert_eq!(state_dir(Some(chosen.clone())).unwrap(), chosen);
    match state_dir(None) {
        Ok(_) | Err(AniError::HistoryStateDirectory) => {}
        Err(other) => panic!("unexpected error {other:?}"),
    }
}

#[test]
fn watch_log_reads_back_updated() {
    let old = vec![entry("1", "jkanime:a", "A"), entry("3", "tioanime:b", "B")];
    let updated = updated_history(old, entry("2", "jkanime:a", "A\tfull")).unwrap();
    let back = parse_history(&render_history(&updated));
    assert_eq!(back, vec![entry("2", "jkanime:a", "A full"), entry("3", "tioanime:b", "B")]);
}

#[test]
fn search_log_reads_back_recorded() {
    let old = vec![search("one", "all", 5), search("two", "es", 4)];
    let recorded = recorded_searches(old, normalized_query("  two  "), "es", 9);
    let back = parse_search_history(&render_search_history(&recorded));
    assert_eq!(back, vec![search("two", "es", 9), search("one", "all", 5)]);
}

fn search(query: &str, context: &str, timestamp: u64) -> SearchEntry {
    SearchEntry {
        query: query.into(),
        context: context.into(),
        timestamp,
    }
}

#[test]
fn episode_lists_need_an_episode() {
    assert!(matches!(episodes_found(Vec::new()), Err(AniError::UnavailableNoEpisodes)));
    let listed = vec!["1".to_string(), "2".to_string()];
    assert_eq!(episodes_found(listed.clone()).unwrap(), listed);
}
