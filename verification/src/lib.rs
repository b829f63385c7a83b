//! Catalog models, provider helpers and history logic for a Spanish-aware
//! anime command-line client.

pub mod cache;
pub mod error;
pub mod history;
pub mod jkanime;
pub mod models;
pub mod playlist;
pub mod providers;
pub mod remote;
pub mod resolution;
pub mod response;
pub mod scan;
pub mod text;
pub mod tioanime;

pub use error::{AniError, Result};
pub use history::{HistoryEntry, HistoryStore, SEARCH_HISTORY_LIMIT, SearchEntry, SearchHistory};
pub use jkanime::JkAnimeClientBuilder;
pub use models::{
    CatalogProvider, LanguagePreference, RequestHeaders, SearchOptions, SearchResult, StreamLink,
    SubtitleTrack, TranslationType, choose_quality, effective_search_provider,
    expand_episode_selection, is_fallback_error, is_fallback_trigger, merge_spanish_search,
    require_language, should_fanout_spanish,
};
pub use tioanime::TioAnimeClientBuilder;
