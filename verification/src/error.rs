use vstd::prelude::*;

verus! {

/// Errors reported by the catalog, provider and history layers.
#[derive(Debug, Clone, PartialEq, Eq)]
pub enum AniError {
    /// The user supplied an invalid value (the message says which).
    Input(String),
    /// The search query was empty after trimming.
    InputEmptyQuery,
    /// A requested episode (or episode range) does not exist.
    InputInvalidEpisode,
    /// An interactive selection was outside the offered range.
    InputSelectionOutOfRange,
    /// A network-level failure talking to a provider.
    Network(String),
    /// A provider answered with data the client could not use.
    Provider(String),
    /// A provider catalog answered with a non-success HTTP status.
    Catalog { provider: String, message: String },
    /// A provider asked the client to slow down.
    ProviderRateLimited { provider: String, retry_after_seconds: u64 },
    /// The requested content is not offered.
    Unavailable(String),
    /// A search found nothing.
    UnavailableNoResults,
    /// A show exposes no episodes (or an episode no playable sources).
    UnavailableNoEpisodes,
    /// An episode exposes no streams.
    UnavailableNoStreams,
    /// The history file holds or would receive an invalid entry.
    History(String),
    /// No state directory could be determined for the history files.
    HistoryStateDirectory,
    /// A local file-system failure.
    Io(String),
    /// A URL could not be parsed.
    Url(String),
    /// A JSON document could not be encoded or decoded.
    Json(String),
}

/// Result type used throughout the library.
pub type Result<T> = core::result::Result<T, AniError>;

} // verus!
