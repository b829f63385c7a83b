//! Catalog models: providers, languages, search results and streams, with
//! the routing, fallback, merge and selection rules that work on them.

use std::collections::BTreeMap;

use vstd::prelude::*;

use crate::error::{AniError, Result};
use crate::text::{
    decimal_value, digit_run, lemma_digit_run_exact,
    index_of_char, is_ws, is_whitespace, lemma_run_until, lemma_run_until_exact, run_until, string_of, subrange_vec, views,
    words, words_of,
    lemma_lex_asymmetric, lemma_lex_irreflexive, lemma_lex_total, lemma_lex_transitive, lex_less,
    lex_lt, chars_eq, chars_of, contains_chars, has_sub, is_ascii_digit, lower, lower_chars, trim,
    trim_chars,
};

verus! {

// ---------- catalog providers ----------

/// The catalogs the client can search.
#[derive(Clone, Copy, Debug, PartialEq, Eq, Structural)]
pub enum CatalogProvider {
    Anikoto,
    Anikoto2,
    JkAnime,
    TioAnime,
}

impl Default for CatalogProvider {
    fn default() -> (p: Self)
        ensures
            p == CatalogProvider::Anikoto,
    {
        CatalogProvider::Anikoto
    }
}

/// The lower-case name under which a provider is shown.
pub open spec fn provider_label(p: CatalogProvider) -> Seq<char> {
    match p {
        CatalogProvider::Anikoto => "anikoto"@,
        CatalogProvider::Anikoto2 => "anikoto2"@,
        CatalogProvider::JkAnime => "jkanime"@,
        CatalogProvider::TioAnime => "tioanime"@,
    }
}

/// The provider that a (lower-cased) name or alias stands for.
pub open spec fn provider_from_name(s: Seq<char>) -> Option<CatalogProvider> {
    if s == "anikoto"@ || s == "anikoto1"@ || s == "anikoto-api"@ {
        Some(CatalogProvider::Anikoto)
    } else if s == "anikoto2"@ || s == "anikoto-cz"@ || s == "anikoto.cz"@ {
        Some(CatalogProvider::Anikoto2)
    } else if s == "jkanime"@ || s == "jk"@ || s == "jk-anime"@ {
        Some(CatalogProvider::JkAnime)
    } else if s == "tioanime"@ || s == "tio"@ {
        Some(CatalogProvider::TioAnime)
    } else {
        None
    }
}

/// Whether a provider's catalog is verified Spanish content.
pub open spec fn is_spanish_capable(p: CatalogProvider) -> bool {
    p == CatalogProvider::JkAnime || p == CatalogProvider::TioAnime
}

fn is_literal(s: &[char], lit: &str) -> (r: bool)
    ensures
        r == (s@ == lit@),
{
    let l = chars_of(lit);
    chars_eq(s, &l)
}

/// `value` followed by the text of `tail`.
fn message_with(head: &str, value: &str) -> (m: String)
    ensures
        m@ == head@ + value@,
{
    let mut m = head.to_owned();
    m.append(value);
    m
}

impl CatalogProvider {
    /// The lower-case display name (`anikoto`, `anikoto2`, `jkanime`, `tioanime`).
    pub fn label(self) -> (s: &'static str)
        ensures
            s@ == provider_label(self),
    {
        match self {
            CatalogProvider::Anikoto => "anikoto",
            CatalogProvider::Anikoto2 => "anikoto2",
            CatalogProvider::JkAnime => "jkanime",
            CatalogProvider::TioAnime => "tioanime",
        }
    }

    /// Providers whose catalog is live-verified Spanish content: JKAnime
    /// and TioAnime.
    pub fn spanish_capable(self) -> (b: bool)
        ensures
            b == is_spanish_capable(self),
    {
        match self {
            CatalogProvider::JkAnime | CatalogProvider::TioAnime => true,
            _ => false,
        }
    }

    /// Spanish providers in reliability order: JKAnime first, then TioAnime.
    pub fn spanish_providers() -> (r: [Self; 2])
        ensures
            r[0] == CatalogProvider::JkAnime,
            r[1] == CatalogProvider::TioAnime,
    {
        [CatalogProvider::JkAnime, CatalogProvider::TioAnime]
    }

    /// Parses a provider name or alias, ignoring ASCII case.
    pub fn parse(value: &str) -> (r: Result<Self>)
        ensures
            match provider_from_name(lower(value@)) {
                Some(p) => r == Ok::<CatalogProvider, AniError>(p),
                None => r matches Err(AniError::Input(m)) && m@
                    == "provider must be anikoto, anikoto2, jkanime or tioanime, got "@ + value@,
            },
    {
        let v = chars_of(value);
        let l = lower_chars(&v);
        if is_literal(&l, "anikoto") || is_literal(&l, "anikoto1") || is_literal(&l, "anikoto-api") {
            Ok(CatalogProvider::Anikoto)
        } else if is_literal(&l, "anikoto2") || is_literal(&l, "anikoto-cz") || is_literal(
            &l,
            "anikoto.cz",
        ) {
            Ok(CatalogProvider::Anikoto2)
        } else if is_literal(&l, "jkanime") || is_literal(&l, "jk") || is_literal(&l, "jk-anime") {
            Ok(CatalogProvider::JkAnime)
        } else if is_literal(&l, "tioanime") || is_literal(&l, "tio") {
            Ok(CatalogProvider::TioAnime)
        } else {
            Err(
                AniError::Input(
                    message_with(
                        "provider must be anikoto, anikoto2, jkanime or tioanime, got ",
                        value,
                    ),
                ),
            )
        }
    }
}

impl std::str::FromStr for CatalogProvider {
    type Err = AniError;

    fn from_str(value: &str) -> (r: Result<Self>)
        ensures
            match provider_from_name(lower(value@)) {
                Some(p) => r == Ok::<CatalogProvider, AniError>(p),
                None => r matches Err(AniError::Input(m)) && m@
                    == "provider must be anikoto, anikoto2, jkanime or tioanime, got "@ + value@,
            },
    {
        CatalogProvider::parse(value)
    }
}

// ---------- translation type ----------

/// Subtitled or dubbed catalog.
#[derive(Clone, Copy, Debug, PartialEq, Eq, Structural)]
pub enum TranslationType {
    Sub,
    Dub,
}

impl Default for TranslationType {
    fn default() -> (t: Self)
        ensures
            t == TranslationType::Sub,
    {
        TranslationType::Sub
    }
}

pub open spec fn translation_label(t: TranslationType) -> Seq<char> {
    match t {
        TranslationType::Sub => "sub"@,
        TranslationType::Dub => "dub"@,
    }
}

impl TranslationType {
    /// The lower-case display name (`sub` or `dub`).
    pub fn label(self) -> (s: &'static str)
        ensures
            s@ == translation_label(self),
    {
        match self {
            TranslationType::Sub => "sub",
            TranslationType::Dub => "dub",
        }
    }

    /// Parses `sub` or `dub`, ignoring ASCII case.
    pub fn parse(value: &str) -> (r: Result<Self>)
        ensures
            lower(value@) == "sub"@ ==> r == Ok::<TranslationType, AniError>(TranslationType::Sub),
            lower(value@) == "dub"@ ==> r == Ok::<TranslationType, AniError>(TranslationType::Dub),
            lower(value@) != "sub"@ && lower(value@) != "dub"@ ==> (r matches Err(
                AniError::Input(m),
            ) && m@ == "translation type must be sub or dub, got "@ + value@),
    {
        let v = chars_of(value);
        let l = lower_chars(&v);
        proof {
            reveal_strlit("sub");
            reveal_strlit("dub");
            assert("sub"@[0] != "dub"@[0]);
        }
        if is_literal(&l, "sub") {
            Ok(TranslationType::Sub)
        } else if is_literal(&l, "dub") {
            Ok(TranslationType::Dub)
        } else {
            Err(AniError::Input(message_with("translation type must be sub or dub, got ", value)))
        }
    }
}

impl std::str::FromStr for TranslationType {
    type Err = AniError;

    fn from_str(value: &str) -> (r: Result<Self>)
        ensures
            lower(value@) == "sub"@ ==> r == Ok::<TranslationType, AniError>(TranslationType::Sub),
            lower(value@) == "dub"@ ==> r == Ok::<TranslationType, AniError>(TranslationType::Dub),
            lower(value@) != "sub"@ && lower(value@) != "dub"@ ==> (r matches Err(
                AniError::Input(m),
            ) && m@ == "translation type must be sub or dub, got "@ + value@),
    {
        TranslationType::parse(value)
    }
}

// ---------- language preference ----------

/// The requested content language.
#[derive(Clone, Copy, Debug, PartialEq, Eq, Structural)]
pub enum LanguagePreference {
    Default,
    Spanish,
}

impl Default for LanguagePreference {
    fn default() -> (l: Self)
        ensures
            l == LanguagePreference::Default,
    {
        LanguagePreference::Default
    }
}

pub open spec fn language_label(l: LanguagePreference) -> Seq<char> {
    match l {
        LanguagePreference::Default => "default"@,
        LanguagePreference::Spanish => "es"@,
    }
}

/// The names accepted for generic Spanish.
pub open spec fn is_spanish_name(s: Seq<char>) -> bool {
    s == "es"@ || s == "espanol"@ || s == "español"@
}

/// The regional Spanish variants that are recognised but not supported yet.
pub open spec fn is_regional_spanish_name(s: Seq<char>) -> bool {
    s == "es-419"@ || s == "es419"@ || s == "es-es"@ || s == "es_es"@
}

pub open spec fn regional_variant_message() -> Seq<char> {
    "regional Spanish variants (es-419/es-ES) are not supported yet; only --language es in this experimental phase"@
}

impl LanguagePreference {
    /// The display name (`default` or `es`).
    pub fn label(self) -> (s: &'static str)
        ensures
            s@ == language_label(self),
    {
        match self {
            LanguagePreference::Default => "default",
            LanguagePreference::Spanish => "es",
        }
    }

    /// Parses a language request: generic Spanish is accepted; the regional
    /// variants and everything else are refused with an input error.
    pub fn parse(value: &str) -> (r: Result<Self>)
        ensures
            ({
                let key = lower(trim(value@));
                &&& is_spanish_name(key) ==> r == Ok::<LanguagePreference, AniError>(
                    LanguagePreference::Spanish,
                )
                &&& is_regional_spanish_name(key) ==> (r matches Err(AniError::Input(m)) && m@
                    == regional_variant_message())
                &&& !is_spanish_name(key) && !is_regional_spanish_name(key) ==> (r matches Err(
                    AniError::Input(m),
                ) && m@ == "language must be es, got "@ + value@)
            }),
    {
        let v = chars_of(value);
        let t = trim_chars(&v);
        let l = lower_chars(&t);
        proof {
            reveal_strlit("es");
            reveal_strlit("espanol");
            reveal_strlit("español");
            reveal_strlit("es-419");
            reveal_strlit("es419");
            reveal_strlit("es-es");
            reveal_strlit("es_es");
            assert("es"@.len() == 2 && "espanol"@.len() == 7 && "español"@.len() == 7);
            assert("es-419"@.len() == 6 && "es419"@.len() == 5 && "es-es"@.len() == 5);
            assert("es_es"@.len() == 5);
        }
        if is_literal(&l, "es") || is_literal(&l, "espanol") || is_literal(&l, "español") {
            Ok(LanguagePreference::Spanish)
        } else if is_literal(&l, "es-419") || is_literal(&l, "es419") || is_literal(&l, "es-es")
            || is_literal(&l, "es_es") {
            Err(
                AniError::Input(
                    "regional Spanish variants (es-419/es-ES) are not supported yet; only --language es in this experimental phase".to_owned(),
                ),
            )
        } else {
            Err(AniError::Input(message_with("language must be es, got ", value)))
        }
    }
}

impl std::str::FromStr for LanguagePreference {
    type Err = AniError;

    fn from_str(value: &str) -> (r: Result<Self>)
        ensures
            ({
                let key = lower(trim(value@));
                &&& is_spanish_name(key) ==> r == Ok::<LanguagePreference, AniError>(
                    LanguagePreference::Spanish,
                )
                &&& is_regional_spanish_name(key) ==> (r matches Err(AniError::Input(m)) && m@
                    == regional_variant_message())
                &&& !is_spanish_name(key) && !is_regional_spanish_name(key) ==> (r matches Err(
                    AniError::Input(m),
                ) && m@ == "language must be es, got "@ + value@)
            }),
    {
        LanguagePreference::parse(value)
    }
}

// ---------- routing ----------

pub open spec fn spec_effective_search_provider(
    selected: Option<CatalogProvider>,
    language: LanguagePreference,
) -> CatalogProvider {
    match selected {
        Some(p) => p,
        None => if language == LanguagePreference::Spanish {
            CatalogProvider::JkAnime
        } else {
            CatalogProvider::Anikoto
        },
    }
}

/// Chooses the catalog for a search: an explicit provider always wins;
/// without one, Spanish routes to JKAnime and the default language to the
/// default catalog.
pub fn effective_search_provider(
    selected: Option<CatalogProvider>,
    language: LanguagePreference,
) -> (p: CatalogProvider)
    ensures
        p == spec_effective_search_provider(selected, language),
{
    match (selected, language) {
        (Some(provider), _) => provider,
        (None, LanguagePreference::Spanish) => CatalogProvider::JkAnime,
        (None, LanguagePreference::Default) => CatalogProvider::default(),
    }
}

pub open spec fn spec_should_fanout_spanish(
    selected: Option<CatalogProvider>,
    language: LanguagePreference,
) -> bool {
    selected is None && language == LanguagePreference::Spanish
}

/// A Spanish search without an explicit provider fans out to every
/// Spanish-capable catalog; an explicit provider never fans out.
pub fn should_fanout_spanish(selected: Option<CatalogProvider>, language: LanguagePreference) -> (b:
    bool)
    ensures
        b == spec_should_fanout_spanish(selected, language),
{
    selected.is_none() && language == LanguagePreference::Spanish
}

// ---------- fallback ----------

/// Provider-side failures: network, malformed data, HTTP errors, rate
/// limits and "nothing found". Input errors and local failures are not.
pub open spec fn is_provider_side(e: AniError) -> bool {
    match e {
        AniError::Network(_) => true,
        AniError::Provider(_) => true,
        AniError::Catalog { .. } => true,
        AniError::ProviderRateLimited { .. } => true,
        AniError::Unavailable(_) => true,
        AniError::UnavailableNoResults => true,
        AniError::UnavailableNoEpisodes => true,
        AniError::UnavailableNoStreams => true,
        _ => false,
    }
}

/// Whether an error is a provider-side failure (see [`is_fallback_trigger`]).
pub fn is_fallback_error(error: &AniError) -> (b: bool)
    ensures
        b == is_provider_side(*error),
{
    match error {
        AniError::Network(_) | AniError::Provider(_) | AniError::Catalog { .. }
        | AniError::ProviderRateLimited { .. } | AniError::Unavailable(_)
        | AniError::UnavailableNoResults | AniError::UnavailableNoEpisodes
        | AniError::UnavailableNoStreams => true,
        _ => false,
    }
}

pub open spec fn spec_is_fallback_trigger<T>(result: Result<T>) -> bool {
    match result {
        Ok(_) => true,
        Err(e) => is_provider_side(e),
    }
}

/// Whether a failed or empty Spanish search should offer the explicit
/// English fallback: an (empty) success or a provider-side failure does;
/// input errors and local failures never do.
pub fn is_fallback_trigger<T>(result: &Result<T>) -> (b: bool)
    ensures
        b == spec_is_fallback_trigger(*result),
{
    match result {
        Ok(_) => true,
        Err(error) => is_fallback_error(error),
    }
}

// ---------- language gate ----------

pub open spec fn spanish_unavailable_message(p: CatalogProvider) -> Seq<char> {
    "Spanish audio/subtitles are not available from the "@ + provider_label(p)
        + " catalog in this experimental phase"@
}

/// Only providers with verified Spanish content satisfy a Spanish request;
/// every provider satisfies the default language.
pub fn require_language(provider: CatalogProvider, language: LanguagePreference) -> (r: Result<()>)
    ensures
        language == LanguagePreference::Default || is_spanish_capable(provider) ==> r is Ok,
        language == LanguagePreference::Spanish && !is_spanish_capable(provider) ==> (r matches Err(
            AniError::Unavailable(m),
        ) && m@ == spanish_unavailable_message(provider)),
{
    match (provider, language) {
        (_, LanguagePreference::Default) => Ok(()),
        (CatalogProvider::JkAnime, LanguagePreference::Spanish) => Ok(()),
        (CatalogProvider::TioAnime, LanguagePreference::Spanish) => Ok(()),
        (provider, LanguagePreference::Spanish) => {
            let mut m = "Spanish audio/subtitles are not available from the ".to_owned();
            m.append(provider.label());
            m.append(" catalog in this experimental phase");
            Err(AniError::Unavailable(m))
        },
    }
}

// ---------- routing laws ----------

/// An explicit provider always wins and never fans out.
pub proof fn explicit_provider_wins(p: CatalogProvider, language: LanguagePreference)
    ensures
        spec_effective_search_provider(Some(p), language) == p,
        !spec_should_fanout_spanish(Some(p), language),
{
}

/// Without an explicit provider, a Spanish search fans out and its single
/// route (JKAnime) passes the Spanish gate; the default language neither
/// fans out nor leaves the default catalog.
pub proof fn spanish_route_passes_gate()
    ensures
        spec_should_fanout_spanish(None, LanguagePreference::Spanish),
        is_spanish_capable(spec_effective_search_provider(None, LanguagePreference::Spanish)),
        !spec_should_fanout_spanish(None, LanguagePreference::Default),
        spec_effective_search_provider(None, LanguagePreference::Default)
            == CatalogProvider::Anikoto,
{
}

/// Every provider's display name parses back to that provider.
pub proof fn provider_label_parses_back(p: CatalogProvider)
    ensures
        provider_from_name(lower(provider_label(p))) == Some(p),
{
    reveal_strlit("anikoto");
    reveal_strlit("anikoto2");
    reveal_strlit("jkanime");
    reveal_strlit("tioanime");
    reveal_strlit("anikoto1");
    reveal_strlit("anikoto-api");
    reveal_strlit("anikoto-cz");
    reveal_strlit("anikoto.cz");
    reveal_strlit("jk");
    reveal_strlit("jk-anime");
    reveal_strlit("tio");
    let l = provider_label(p);
    assert(lower(l) =~= l);
    assert("anikoto"@.len() == 7 && "anikoto2"@.len() == 8 && "jkanime"@.len() == 7);
    assert("tioanime"@.len() == 8 && "anikoto1"@.len() == 8 && "anikoto-api"@.len() == 11);
    assert("anikoto-cz"@.len() == 10 && "anikoto.cz"@.len() == 10 && "jk"@.len() == 2);
    assert("jk-anime"@.len() == 8 && "tio"@.len() == 3);
    assert("anikoto2"@[7] != "anikoto1"@[7]);
    assert("anikoto2"@[0] != "tioanime"@[0]);
    assert("anikoto2"@[0] != "jk-anime"@[0]);
    assert("jkanime"@[0] != "anikoto"@[0]);
    assert("tioanime"@[0] != "anikoto1"@[0]);
    assert("tioanime"@[0] != "jk-anime"@[0]);
}

/// Every translation type's display name parses back to it.
pub proof fn translation_label_parses_back(t: TranslationType)
    ensures
        lower(translation_label(t)) == translation_label(t),
        translation_label(t) == "sub"@ || translation_label(t) == "dub"@,
{
    reveal_strlit("sub");
    reveal_strlit("dub");
    assert(lower(translation_label(t)) =~= translation_label(t));
}

// ---------- search results and streams ----------

/// Search options shared by every catalog.
#[derive(Clone, Copy, Debug, PartialEq, Eq)]
pub struct SearchOptions {
    /// Include titles marked as adult by the selected catalog.
    pub allow_adult: bool,
}

impl Default for SearchOptions {
    fn default() -> (o: Self)
        ensures
            !o.allow_adult,
    {
        SearchOptions { allow_adult: false }
    }
}

/// One show found by a catalog search. `episodes` is the number of
/// episodes the catalog reports (0 when it reports none).
#[derive(Clone, Debug, PartialEq)]
pub struct SearchResult {
    pub id: String,
    pub name: String,
    pub episodes: u64,
    pub provider: CatalogProvider,
}

/// An external subtitle track of a stream.
#[derive(Clone, Debug, PartialEq, Eq)]
pub struct SubtitleTrack {
    pub label: String,
    pub url: String,
    pub default: bool,
}

/// Extra HTTP headers a stream needs to play.
#[derive(Clone, Debug, PartialEq, Eq)]
pub struct RequestHeaders {
    pub referer: Option<String>,
    pub origin: Option<String>,
    pub extra: BTreeMap<String, String>,
}

impl Default for RequestHeaders {
    fn default() -> (h: Self)
        ensures
            h.referer is None,
            h.origin is None,
            h.extra@ == Map::<String, String>::empty(),
    {
        RequestHeaders { referer: None, origin: None, extra: BTreeMap::new() }
    }
}

/// A playable stream of an episode.
#[derive(Clone, Debug, PartialEq, Eq)]
pub struct StreamLink {
    pub url: String,
    pub resolution: String,
    pub hls: bool,
    pub provider: String,
    pub downloadable: bool,
    pub headers: RequestHeaders,
    pub subtitles: Vec<SubtitleTrack>,
}

// ---------- merging the Spanish catalogs ----------

pub open spec fn results_view(r: Result<Vec<SearchResult>>) -> core::result::Result<
    Seq<SearchResult>,
    AniError,
> {
    match r {
        Ok(v) => Ok(v@),
        Err(e) => Err(e),
    }
}

/// The results a search contributed: its values, or nothing when it failed.
pub open spec fn contributed(r: core::result::Result<Seq<SearchResult>, AniError>) -> Seq<
    SearchResult,
> {
    match r {
        Ok(v) => v,
        Err(_) => seq![],
    }
}

pub open spec fn fails_hard(r: core::result::Result<Seq<SearchResult>, AniError>) -> bool {
    r matches Err(e) && !is_provider_side(e)
}

/// The merge of the JKAnime search `jk` and the TioAnime search `tio`: a
/// failure that is not provider-side wins (JKAnime's first); otherwise the
/// results in JKAnime-then-TioAnime order when there are any; otherwise the
/// last provider-side failure; otherwise no results.
pub open spec fn spec_merge(
    jk: core::result::Result<Seq<SearchResult>, AniError>,
    tio: core::result::Result<Seq<SearchResult>, AniError>,
) -> core::result::Result<Seq<SearchResult>, AniError> {
    if fails_hard(jk) {
        jk
    } else if fails_hard(tio) {
        tio
    } else if contributed(jk).len() + contributed(tio).len() > 0 {
        Ok(contributed(jk) + contributed(tio))
    } else if tio is Err {
        tio
    } else if jk is Err {
        jk
    } else {
        Ok(seq![])
    }
}

/// Merges the JKAnime and TioAnime searches (see [`spec_merge`]).
pub fn merge_spanish_search(jk: Result<Vec<SearchResult>>, tio: Result<Vec<SearchResult>>) -> (r:
    Result<Vec<SearchResult>>)
    ensures
        results_view(r) == spec_merge(results_view(jk), results_view(tio)),
{
    let ghost jk_view = results_view(jk);
    let ghost tio_view = results_view(tio);
    let mut merged: Vec<SearchResult> = Vec::new();
    let mut trigger_error: Option<AniError> = None;
    match jk {
        Ok(mut values) => {
            merged.append(&mut values);
        },
        Err(error) => {
            if is_fallback_error(&error) {
                trigger_error = Some(error);
            } else {
                return Err(error);
            }
        },
    }
    assert(merged@ =~= contributed(jk_view));
    match tio {
        Ok(mut values) => {
            merged.append(&mut values);
        },
        Err(error) => {
            if is_fallback_error(&error) {
                trigger_error = Some(error);
            } else {
                return Err(error);
            }
        },
    }
    assert(merged@ =~= contributed(jk_view) + contributed(tio_view));
    if !merged.is_empty() {
        return Ok(merged);
    }
    if let Some(error) = trigger_error {
        return Err(error);
    }
    Ok(merged)
}

/// A provider-side failure of one catalog is isolated: the other
/// catalog's results are returned unchanged.
pub proof fn merge_isolates_provider_failures(
    v: Seq<SearchResult>,
    e: AniError,
)
    requires
        is_provider_side(e),
        v.len() > 0,
    ensures
        spec_merge(Ok(v), Err(e)) == Ok::<Seq<SearchResult>, AniError>(v),
        spec_merge(Err(e), Ok(v)) == Ok::<Seq<SearchResult>, AniError>(v),
{
    assert(v + Seq::<SearchResult>::empty() =~= v);
    assert(Seq::<SearchResult>::empty() + v =~= v);
}

/// Two successful searches merge JKAnime first, then TioAnime.
pub proof fn merge_keeps_jkanime_first(jk: Seq<SearchResult>, tio: Seq<SearchResult>)
    ensures
        spec_merge(Ok(jk), Ok(tio)) == Ok::<Seq<SearchResult>, AniError>(jk + tio),
{
    if jk.len() + tio.len() == 0 {
        assert(jk + tio =~= Seq::<SearchResult>::empty());
    }
}

/// A failure that is not provider-side is returned as it is, JKAnime's
/// first, whatever the other search gave.
pub proof fn merge_fails_fast(
    e: AniError,
    other: core::result::Result<Seq<SearchResult>, AniError>,
)
    requires
        !is_provider_side(e),
    ensures
        spec_merge(Err(e), other) == Err::<Seq<SearchResult>, AniError>(e),
        !fails_hard(other) ==> spec_merge(other, Err(e)) == Err::<Seq<SearchResult>, AniError>(
            e,
        ),
{
}

/// When both catalogs fail provider-side, the TioAnime (last) failure is
/// returned, and it still triggers the explicit fallback.
pub proof fn merge_all_failed_keeps_last(jk_error: AniError, tio_error: AniError)
    requires
        is_provider_side(jk_error),
        is_provider_side(tio_error),
    ensures
        spec_merge(Err(jk_error), Err(tio_error)) == Err::<Seq<SearchResult>, AniError>(
            tio_error,
        ),
        spec_is_fallback_trigger::<Seq<SearchResult>>(
            spec_merge(Err(jk_error), Err(tio_error)),
        ),
{
}

// ---------- quality selection ----------

/// Rank of a resolution label: its leading decimal number when that fits an
/// `i32`; otherwise -1 for `auto` (any ASCII case) and 0 for anything else.
pub open spec fn spec_resolution_weight(s: Seq<char>) -> int {
    let d = s.take(digit_run(s) as int);
    if d.len() > 0 && decimal_value(d) <= i32::MAX {
        decimal_value(d) as int
    } else if lower(s) == "auto"@ {
        -1
    } else {
        0
    }
}

/// Rank of a stream host label: `s-mp4` 3000, `mp4` 2000, `default` 1000,
/// others 0 (any ASCII case, as substrings).
pub open spec fn spec_provider_weight(s: Seq<char>) -> int {
    let l = lower(s);
    if has_sub(l, "s-mp4"@) {
        3000
    } else if has_sub(l, "mp4"@) {
        2000
    } else if has_sub(l, "default"@) {
        1000
    } else {
        0
    }
}

const WEIGHT_CAP: u64 = 2147483648;

pub fn resolution_weight(value: &[char]) -> (w: i32)
    ensures
        w == spec_resolution_weight(value@),
{
    let n = value.len();
    let mut i: usize = 0;
    let mut acc: u64 = 0;
    while i < n && value[i] >= '0' && value[i] <= '9'
        invariant
            n == value@.len(),
            i <= n,
            forall|k: int| 0 <= k < i ==> is_ascii_digit(#[trigger] value@[k]),
            decimal_value(value@.take(i as int)) < WEIGHT_CAP ==> acc == decimal_value(
                value@.take(i as int),
            ),
            decimal_value(value@.take(i as int)) >= WEIGHT_CAP ==> acc == WEIGHT_CAP,
        decreases n - i,
    {
        let ghost prev = value@.take(i as int);
        let digit: u64 = (value[i] as u32 - '0' as u32) as u64;
        assert(value@.take(i + 1).drop_last() =~= prev);
        assert(value@.take(i + 1).last() == value@[i as int]);
        if acc < WEIGHT_CAP {
            let next = acc * 10 + digit;
            acc = if next < WEIGHT_CAP {
                next
            } else {
                WEIGHT_CAP
            };
        }
        i = i + 1;
    }
    proof {
        lemma_digit_run_exact(value@, i as int);
    }
    if i > 0 && acc < WEIGHT_CAP {
        return acc as i32;
    }
    let l = lower_chars(value);
    if is_literal(&l, "auto") {
        -1
    } else {
        0
    }
}

pub fn provider_weight(value: &[char]) -> (w: i32)
    ensures
        w == spec_provider_weight(value@),
{
    let l = lower_chars(value);
    if contains_chars(&l, &chars_of("s-mp4")) {
        3000
    } else if contains_chars(&l, &chars_of("mp4")) {
        2000
    } else if contains_chars(&l, &chars_of("default")) {
        1000
    } else {
        0
    }
}

pub open spec fn res_weight(s: StreamLink) -> int {
    spec_resolution_weight(s.resolution@)
}

pub open spec fn res_mentions(s: StreamLink, q: Seq<char>) -> bool {
    has_sub(lower(s.resolution@), q)
}

/// Whether `streams[i]` is the stream a quality request picks:
/// `best` (any ASCII case) the first stream; `worst` the first of the
/// lowest positive resolution rank, or the last stream when no rank is
/// positive; any other request the first stream whose lower-cased
/// resolution contains the lower-cased request, or the first stream.
pub open spec fn is_quality_pick(streams: Seq<StreamLink>, quality: Seq<char>, i: int) -> bool {
    let q = lower(quality);
    &&& 0 <= i < streams.len()
    &&& if q == "best"@ {
        i == 0
    } else if q == "worst"@ {
        if exists|j: int| 0 <= j < streams.len() && res_weight(#[trigger] streams[j]) > 0 {
            &&& res_weight(streams[i]) > 0
            &&& forall|j: int|
                0 <= j < streams.len() && res_weight(#[trigger] streams[j]) > 0 ==> res_weight(
                    streams[i],
                ) < res_weight(streams[j]) || (res_weight(streams[i]) == res_weight(streams[j])
                    && i <= j)
        } else {
            i == streams.len() - 1
        }
    } else {
        if exists|j: int| 0 <= j < streams.len() && res_mentions(#[trigger] streams[j], q) {
            &&& res_mentions(streams[i], q)
            &&& forall|j: int| 0 <= j < i ==> !res_mentions(#[trigger] streams[j], q)
        } else {
            i == 0
        }
    }
}

/// The quality choice is deterministic: at most one stream is picked.
pub proof fn quality_pick_is_unique(streams: Seq<StreamLink>, quality: Seq<char>, i: int, j: int)
    requires
        is_quality_pick(streams, quality, i),
        is_quality_pick(streams, quality, j),
    ensures
        i == j,
{
    let q = lower(quality);
    if q != "best"@ && q == "worst"@ {
        if exists|k: int| 0 <= k < streams.len() && res_weight(#[trigger] streams[k]) > 0 {
            assert(res_weight(streams[i]) > 0 && res_weight(streams[j]) > 0);
        }
    } else if q != "best"@ {
        if exists|k: int| 0 <= k < streams.len() && res_mentions(#[trigger] streams[k], q) {
            assert(res_mentions(streams[i], q) && res_mentions(streams[j], q));
        }
    }
}

fn choose_quality_index(streams: &[StreamLink], quality: &str) -> (r: Option<usize>)
    ensures
        match r {
            None => streams@.len() == 0,
            Some(i) => is_quality_pick(streams@, quality@, i as int),
        },
{
    let n = streams.len();
    if n == 0 {
        return None;
    }
    let q = lower_chars(&chars_of(quality));
    if is_literal(&q, "best") {
        return Some(0);
    }
    if is_literal(&q, "worst") {
        let mut found: Option<usize> = None;
        let mut i: usize = 0;
        while i < n
            invariant
                n == streams@.len(),
                i <= n,
                match found {
                    Some(b) => b < i && res_weight(streams@[b as int]) > 0 && forall|j: int|
                        0 <= j < i && res_weight(#[trigger] streams@[j]) > 0 ==> res_weight(
                            streams@[b as int],
                        ) < res_weight(streams@[j]) || (res_weight(streams@[b as int])
                            == res_weight(streams@[j]) && b <= j),
                    None => forall|j: int| 0 <= j < i ==> res_weight(#[trigger] streams@[j]) <= 0,
                },
            decreases n - i,
        {
            let w = resolution_weight(&chars_of(streams[i].resolution.as_str()));
            if w > 0 {
                match found {
                    None => {
                        found = Some(i);
                    },
                    Some(b) => {
                        let wb = resolution_weight(&chars_of(streams[b].resolution.as_str()));
                        if w < wb {
                            found = Some(i);
                        }
                    },
                }
            }
            i = i + 1;
        }
        match found {
            Some(b) => {
                return Some(b);
            },
            None => {
                return Some(n - 1);
            },
        }
    }
    let mut i: usize = 0;
    while i < n
        invariant
            n == streams@.len(),
            i <= n,
            forall|j: int| 0 <= j < i ==> !res_mentions(#[trigger] streams@[j], q@),
            q@ == lower(quality@),
            q@ != "best"@,
            q@ != "worst"@,
        decreases n - i,
    {
        let r = lower_chars(&chars_of(streams[i].resolution.as_str()));
        if contains_chars(&r, &q) {
            assert(res_mentions(streams@[i as int], q@));
            return Some(i);
        }
        i = i + 1;
    }
    Some(0)
}

/// Picks the stream for a quality request (`best`, `worst`, or a text the
/// resolution should contain); see [`is_quality_pick`]. `None` only when
/// there are no streams.
pub fn choose_quality<'a>(streams: &'a [StreamLink], quality: &str) -> (r: Option<&'a StreamLink>)
    ensures
        match r {
            None => streams@.len() == 0,
            Some(s) => exists|i: int| is_quality_pick(streams@, quality@, i) && *s == streams@[i],
        },
{
    match choose_quality_index(streams, quality) {
        None => None,
        Some(i) => Some(&streams[i]),
    }
}

// ---------- stream ranking ----------

/// Whether stream `a` ranks strictly before stream `b`: higher host rank
/// first, then higher resolution rank, then HLS before non-HLS, then host
/// labels in ascending order.
pub open spec fn ranks_before(a: StreamLink, b: StreamLink) -> bool {
    let pa = spec_provider_weight(a.provider@);
    let pb = spec_provider_weight(b.provider@);
    if pa != pb {
        pa > pb
    } else if res_weight(a) != res_weight(b) {
        res_weight(a) > res_weight(b)
    } else if a.hls != b.hls {
        a.hls
    } else {
        lex_lt(a.provider@, b.provider@)
    }
}

pub proof fn lemma_ranks_irreflexive(a: StreamLink)
    ensures
        !ranks_before(a, a),
{
    lemma_lex_irreflexive(a.provider@);
}

pub proof fn lemma_ranks_asymmetric(a: StreamLink, b: StreamLink)
    ensures
        !(ranks_before(a, b) && ranks_before(b, a)),
{
    lemma_lex_asymmetric(a.provider@, b.provider@);
}

/// "Not after" is transitive, so the ranking is a total preorder.
pub proof fn lemma_ranks_not_after_transitive(a: StreamLink, b: StreamLink, c: StreamLink)
    requires
        !ranks_before(b, a),
        !ranks_before(c, b),
    ensures
        !ranks_before(c, a),
{
    lemma_lex_total(a.provider@, b.provider@);
    lemma_lex_total(b.provider@, c.provider@);
    lemma_lex_total(a.provider@, c.provider@);
    if ranks_before(c, a) {
        let pa = spec_provider_weight(a.provider@);
        let pb = spec_provider_weight(b.provider@);
        let pc = spec_provider_weight(c.provider@);
        if pa == pb && pb == pc && res_weight(a) == res_weight(b) && res_weight(b) == res_weight(c)
            && a.hls == b.hls && b.hls == c.hls {
            lemma_lex_asymmetric(a.provider@, b.provider@);
            lemma_lex_asymmetric(b.provider@, c.provider@);
            if a.provider@ != b.provider@ && b.provider@ != c.provider@ {
                lemma_lex_transitive(a.provider@, b.provider@, c.provider@);
            }
            lemma_lex_asymmetric(a.provider@, c.provider@);
        }
    }
}

/// Whether `a` ranks strictly before `b` (see [`ranks_before`]).
pub fn stream_ranks_before(a: &StreamLink, b: &StreamLink) -> (r: bool)
    ensures
        r == ranks_before(*a, *b),
{
    let ap = chars_of(a.provider.as_str());
    let bp = chars_of(b.provider.as_str());
    let pa = provider_weight(&ap);
    let pb = provider_weight(&bp);
    if pa != pb {
        return pa > pb;
    }
    let ra = resolution_weight(&chars_of(a.resolution.as_str()));
    let rb = resolution_weight(&chars_of(b.resolution.as_str()));
    if ra != rb {
        return ra > rb;
    }
    if a.hls != b.hls {
        return a.hls;
    }
    lex_less(&ap, &bp)
}

/// `r` is `orig` reordered through `p` (`r[k] == orig[p[k]]`), sorted by
/// rank, with streams of equal rank kept in their original order.
pub open spec fn is_stable_ranking(orig: Seq<StreamLink>, r: Seq<StreamLink>, p: Seq<int>) -> bool {
    &&& r.len() == orig.len()
    &&& p.len() == orig.len()
    &&& forall|k: int| 0 <= k < r.len() ==> 0 <= #[trigger] p[k] < r.len() && r[k] == orig[p[k]]
    &&& forall|a: int, b: int| 0 <= a < b < r.len() ==> #[trigger] p[a] != #[trigger] p[b]
    &&& forall|a: int, b: int|
        0 <= a < b < r.len() ==> !ranks_before(#[trigger] r[b], #[trigger] r[a])
    &&& forall|a: int, b: int|
        0 <= a < b < r.len() && !ranks_before(#[trigger] r[a], #[trigger] r[b]) ==> p[a] < p[b]
}

/// The stable sort of `orig` by rank.
pub open spec fn is_stable_sort_of(orig: Seq<StreamLink>, r: Seq<StreamLink>) -> bool {
    exists|p: Seq<int>| is_stable_ranking(orig, r, p)
}

/// Moves the element at `i` to position `j` (`j <= i`).
pub open spec fn move_back<T>(s: Seq<T>, i: int, j: int) -> Seq<T> {
    s.take(j) + seq![s[i]] + s.subrange(j, i) + s.skip(i + 1)
}

pub open spec fn insertion_invariant(
    orig: Seq<StreamLink>,
    v: Seq<StreamLink>,
    p: Seq<int>,
    i: int,
) -> bool {
    &&& v.len() == orig.len()
    &&& p.len() == orig.len()
    &&& 0 <= i <= v.len()
    &&& forall|k: int| 0 <= k < v.len() ==> 0 <= #[trigger] p[k] < v.len() && v[k] == orig[p[k]]
    &&& forall|k: int| i <= k < v.len() ==> #[trigger] p[k] == k
    &&& forall|k: int| 0 <= k < i ==> #[trigger] p[k] < i
    &&& forall|a: int, b: int| 0 <= a < b < v.len() ==> #[trigger] p[a] != #[trigger] p[b]
    &&& forall|a: int, b: int| 0 <= a < b < i ==> !ranks_before(#[trigger] v[b], #[trigger] v[a])
    &&& forall|a: int, b: int|
        0 <= a < b < i && !ranks_before(#[trigger] v[a], #[trigger] v[b]) ==> p[a] < p[b]
}

#[verifier::rlimit(60)]
proof fn lemma_insertion_step(orig: Seq<StreamLink>, v: Seq<StreamLink>, p: Seq<int>, i: int, j: int)
    requires
        insertion_invariant(orig, v, p, i),
        0 <= j <= i < v.len(),
        forall|k: int| j <= k < i ==> ranks_before(v[i], #[trigger] v[k]),
        j > 0 ==> !ranks_before(v[i], v[j - 1]),
    ensures
        insertion_invariant(orig, move_back(v, i, j), move_back(p, i, j), i + 1),
{
    let v2 = move_back(v, i, j);
    let p2 = move_back(p, i, j);
    assert(v2.len() == v.len());
    assert(p2.len() == p.len());
    assert forall|k: int| 0 <= k < v2.len() implies (k < j ==> v2[k] == v[k] && p2[k] == p[k]) && (
    k == j ==> v2[k] == v[i] && p2[k] == p[i]) && (j < k <= i ==> v2[k] == v[k - 1] && p2[k] == p[k
        - 1]) && (i < k ==> v2[k] == v[k] && p2[k] == p[k]) by {}
    assert forall|k: int| 0 <= k < v2.len() implies 0 <= #[trigger] p2[k] < v2.len() && v2[k]
        == orig[p2[k]] by {
        if k < j {
        } else if k == j {
        } else if k <= i {
            assert(p[k - 1] < v.len());
        } else {
        }
    }
    assert forall|k: int| 0 <= k <= i implies #[trigger] p2[k] < i + 1 by {
        if k < j {
        } else if k == j {
            assert(p[i] == i);
        } else {
            assert(p[k - 1] < i);
        }
    }
    assert forall|a: int, b: int| 0 <= a < b < v2.len() implies #[trigger] p2[a]
        != #[trigger] p2[b] by {
        let oa = if a < j { a } else if a == j { i } else if a <= i { a - 1 } else { a };
        let ob = if b < j { b } else if b == j { i } else if b <= i { b - 1 } else { b };
        assert(p2[a] == p[oa]);
        assert(p2[b] == p[ob]);
        assert(oa != ob);
        if oa < ob {
            assert(p[oa] != p[ob]);
        } else {
            assert(p[ob] != p[oa]);
        }
    }
    assert forall|a: int, b: int| 0 <= a < b < i + 1 implies !ranks_before(
        #[trigger] v2[b],
        #[trigger] v2[a],
    ) by {
        if b < j {
        } else if b == j {
            if j > 0 {
                if a < j - 1 {
                    assert(!ranks_before(v[j - 1], v[a]));
                } else {
                    lemma_ranks_irreflexive(v[a]);
                }
                lemma_ranks_not_after_transitive(v[a], v[j - 1], v[i]);
            }
        } else if a < j {
            assert(!ranks_before(v[b - 1], v[a]));
        } else if a == j {
            assert(ranks_before(v[i], v[b - 1]));
            lemma_ranks_asymmetric(v[i], v[b - 1]);
        } else {
            assert(!ranks_before(v[b - 1], v[a - 1]));
        }
    }
    assert forall|a: int, b: int|
        0 <= a < b < i + 1 && !ranks_before(#[trigger] v2[a], #[trigger] v2[b]) implies p2[a]
        < p2[b] by {
        if b < j {
        } else if b == j {
            assert(p[a] < i);
            assert(p[i] == i);
        } else if a < j {
            assert(!ranks_before(v[a], v[b - 1]) ==> p[a] < p[b - 1]);
        } else if a == j {
            assert(ranks_before(v[i], v[b - 1]));
        } else {
            assert(!ranks_before(v[a - 1], v[b - 1]) ==> p[a - 1] < p[b - 1]);
        }
    }
}

// ---------- one stream per URL ----------

/// Whether the stream at `k` is the first with its URL.
pub open spec fn first_with_url(v: Seq<StreamLink>, k: int) -> bool {
    forall|j: int| 0 <= j < k ==> #[trigger] v[j].url@ != v[k].url@
}

/// The streams that are the first with their URL, in order.
pub open spec fn distinct_urls(v: Seq<StreamLink>) -> Seq<StreamLink>
    decreases v.len(),
{
    if v.len() == 0 {
        seq![]
    } else {
        let prev = distinct_urls(v.drop_last());
        if first_with_url(v, v.len() - 1) {
            prev.push(v.last())
        } else {
            prev
        }
    }
}

/// Drops every stream whose URL an earlier stream already has.
pub fn dedup_streams(streams: Vec<StreamLink>) -> (r: Vec<StreamLink>)
    ensures
        r@ == distinct_urls(streams@),
{
    let ghost orig = streams@;
    let mut rest = streams;
    let mut out: Vec<StreamLink> = Vec::new();
    let mut seen: Vec<Vec<char>> = Vec::new();
    let ghost mut k: int = 0;
    while rest.len() > 0
        invariant
            0 <= k <= orig.len(),
            rest@ == orig.skip(k),
            out@ == distinct_urls(orig.take(k)),
            seen@.len() == k,
            forall|j: int| 0 <= j < k ==> #[trigger] seen@[j]@ == orig[j].url@,
        decreases rest@.len(),
    {
        let s = rest.remove(0);
        assert(s == orig[k]);
        let url = chars_of(s.url.as_str());
        let mut j: usize = 0;
        let mut dup = false;
        while j < seen.len()
            invariant
                j <= seen@.len(),
                seen@.len() == k,
                forall|m: int| 0 <= m < k ==> #[trigger] seen@[m]@ == orig[m].url@,
                url@ == orig[k].url@,
                dup <==> exists|m: int| 0 <= m < j && orig[m].url@ == orig[k].url@,
            decreases seen@.len() - j,
        {
            if crate::text::chars_eq(&seen[j], &url) {
                dup = true;
            }
            j = j + 1;
        }
        proof {
            let t = orig.take(k + 1);
            assert(t.drop_last() =~= orig.take(k));
            assert(t.last() == orig[k]);
            assert(first_with_url(t, k) <==> !dup) by {
                if dup {
                    let m = choose|m: int| 0 <= m < k && orig[m].url@ == orig[k].url@;
                    assert(t[m].url@ == t[k].url@);
                } else {
                    assert forall|m: int| 0 <= m < k implies #[trigger] t[m].url@ != t[k].url@ by {
                        assert(t[m] == orig[m]);
                    }
                }
            }
        }
        if !dup {
            out.push(s);
        }
        seen.push(url);
        proof {
            k = k + 1;
            assert(rest@ =~= orig.skip(k));
        }
    }
    assert(orig.take(k) =~= orig);
    out
}

/// No two kept streams share a URL, and every URL of the input is kept.
pub proof fn dedup_keeps_each_url_once(v: Seq<StreamLink>)
    ensures
        forall|i: int, j: int|
            0 <= i < j < distinct_urls(v).len() ==> #[trigger] distinct_urls(v)[i].url@
                != #[trigger] distinct_urls(v)[j].url@,
        forall|k: int|
            0 <= k < v.len() ==> exists|j: int|
                0 <= j < distinct_urls(v).len() && #[trigger] distinct_urls(v)[j].url@
                    == #[trigger] v[k].url@,
    decreases v.len(),
{
    if v.len() > 0 {
        let init = v.drop_last();
        dedup_keeps_each_url_once(init);
        lemma_distinct_urls_from(init);
        let d = distinct_urls(v);
        let p = distinct_urls(init);
        let n = v.len() - 1;
        if first_with_url(v, n) {
            assert(d == p.push(v[n]));
            assert forall|i: int, j: int| 0 <= i < j < d.len() implies #[trigger] d[i].url@
                != #[trigger] d[j].url@ by {
                if j == d.len() - 1 {
                    let m = choose|m: int| 0 <= m < init.len() && init[m] == p[i];
                    assert(v[m] == init[m]);
                } else {
                    assert(d[i] == p[i] && d[j] == p[j]);
                }
            }
        } else {
            assert(d == p);
        }
        assert forall|k: int| 0 <= k < v.len() implies exists|j: int|
            0 <= j < d.len() && #[trigger] d[j].url@ == #[trigger] v[k].url@ by {
            if k < n {
                assert(v[k] == init[k]);
                let j = choose|j: int| 0 <= j < p.len() && #[trigger] p[j].url@ == init[k].url@;
                assert(d[j] == p[j]);
            } else if first_with_url(v, n) {
                assert(d[d.len() - 1] == v[n]);
            } else {
                let m = choose|m: int| 0 <= m < n && #[trigger] v[m].url@ == v[n].url@;
                assert(v[m] == init[m]);
                let j = choose|j: int| 0 <= j < p.len() && #[trigger] p[j].url@ == init[m].url@;
                assert(d[j] == p[j]);
            }
        }
    }
}

/// Every kept stream is a stream of the input.
pub proof fn lemma_distinct_urls_from(v: Seq<StreamLink>)
    ensures
        forall|i: int|
            0 <= i < distinct_urls(v).len() ==> exists|m: int|
                0 <= m < v.len() && #[trigger] v[m] == #[trigger] distinct_urls(v)[i],
    decreases v.len(),
{
    if v.len() > 0 {
        let init = v.drop_last();
        lemma_distinct_urls_from(init);
        let d = distinct_urls(v);
        let p = distinct_urls(init);
        assert forall|i: int| 0 <= i < d.len() implies exists|m: int|
            0 <= m < v.len() && #[trigger] v[m] == #[trigger] d[i] by {
            if i < p.len() {
                assert(d[i] == p[i]);
                let m = choose|m: int| 0 <= m < init.len() && init[m] == p[i];
                assert(v[m] == init[m]);
            } else {
                assert(d[i] == v[v.len() - 1]);
            }
        }
    }
}

/// Sorts streams best-first by rank (see [`ranks_before`]); streams of equal
/// rank keep their order.
pub fn sort_streams(streams: &mut Vec<StreamLink>)
    ensures
        is_stable_sort_of(old(streams)@, final(streams)@),
{
    let n = streams.len();
    let ghost orig = streams@;
    let ghost mut p: Seq<int> = Seq::new(n as nat, |k: int| k);
    if n == 0 {
        assert(is_stable_ranking(orig, streams@, p));
        return;
    }
    let mut i: usize = 0;
    while i < n
        invariant
            n == streams@.len(),
            insertion_invariant(orig, streams@, p, i as int),
        decreases n - i,
    {
        let mut j = i;
        while j > 0 && stream_ranks_before(&streams[i], &streams[j - 1])
            invariant
                n == streams@.len(),
                i < n,
                j <= i,
                forall|k: int| j <= k < i ==> ranks_before(streams@[i as int], #[trigger] streams@[k]),
            decreases j,
        {
            j = j - 1;
        }
        proof {
            lemma_insertion_step(orig, streams@, p, i as int, j as int);
        }
        let ghost before = streams@;
        let x = streams.remove(i);
        streams.insert(j, x);
        assert(streams@ =~= move_back(before, i as int, j as int));
        proof {
            p = move_back(p, i as int, j as int);
        }
        i = i + 1;
    }
    assert(is_stable_ranking(orig, streams@, p));
}

// ---------- episode selection ----------

pub open spec fn str_views(v: Seq<String>) -> Seq<Seq<char>> {
    Seq::new(v.len(), |i: int| v[i]@)
}

/// Index of the first occurrence of `x` in `s`.
pub open spec fn first_pos(s: Seq<Seq<char>>, x: Seq<char>) -> Option<int>
    decreases s.len(),
{
    if s.len() == 0 {
        None
    } else if s[0] == x {
        Some(0)
    } else {
        match first_pos(s.drop_first(), x) {
            Some(k) => Some(k + 1),
            None => None,
        }
    }
}

pub proof fn lemma_first_pos(s: Seq<Seq<char>>, x: Seq<char>)
    ensures
        match first_pos(s, x) {
            Some(k) => 0 <= k < s.len() && s[k] == x && forall|j: int| 0 <= j < k ==> s[j] != x,
            None => !s.contains(x),
        },
    decreases s.len(),
{
    if s.len() > 0 && s[0] != x {
        lemma_first_pos(s.drop_first(), x);
        match first_pos(s.drop_first(), x) {
            Some(k) => {
                assert forall|j: int| 0 <= j < k + 1 implies s[j] != x by {
                    if j > 0 {
                        assert(s[j] == s.drop_first()[j - 1]);
                    }
                }
            },
            None => {
                assert forall|j: int| 0 <= j < s.len() implies s[j] != x by {
                    if j > 0 {
                        assert(s[j] == s.drop_first()[j - 1]);
                    }
                }
            },
        }
    }
}

pub proof fn lemma_first_pos_exact(s: Seq<Seq<char>>, x: Seq<char>, k: int)
    requires
        0 <= k <= s.len(),
        forall|j: int| 0 <= j < k ==> s[j] != x,
        k < s.len() ==> s[k] == x,
    ensures
        first_pos(s, x) == (if k < s.len() { Some(k) } else { None::<int> }),
    decreases k,
{
    if k > 0 {
        assert forall|j: int| 0 <= j < k - 1 implies s.drop_first()[j] != x by {
            assert(s.drop_first()[j] == s[j + 1]);
        }
        lemma_first_pos_exact(s.drop_first(), x, k - 1);
    }
}

/// The end of a range `start-end`: the last available episode when the end
/// is empty or `-1` (nothing when none is available), else the text itself.
pub open spec fn range_end(tail: Seq<char>, avail: Seq<Seq<char>>) -> Seq<char> {
    if tail == "-1"@ || tail.len() == 0 {
        if avail.len() == 0 {
            seq![]
        } else {
            avail.last()
        }
    } else {
        tail
    }
}

/// The episodes a selection names, among the available ones (in order):
/// `-1` is the latest episode; whitespace-separated episodes must all
/// exist; `start-end` is the inclusive range between the first occurrences
/// of both ends (split at the first `-`); anything else is one episode.
pub open spec fn spec_expand(sel: Seq<char>, avail: Seq<Seq<char>>) -> core::result::Result<
    Seq<Seq<char>>,
    AniError,
> {
    let t = trim(sel);
    if t == "-1"@ {
        if avail.len() == 0 {
            Err(AniError::UnavailableNoEpisodes)
        } else {
            Ok(seq![avail.last()])
        }
    } else if exists|k: int| 0 <= k < t.len() && is_ws(#[trigger] t[k]) {
        let req = words(t);
        if forall|k: int| 0 <= k < req.len() ==> avail.contains(#[trigger] req[k]) {
            Ok(req)
        } else {
            Err(AniError::InputInvalidEpisode)
        }
    } else if exists|k: int| 0 <= k < t.len() && #[trigger] t[k] == '-' {
        let d = run_until(t, '-');
        let start = t.take(d as int);
        let end = range_end(t.skip(d + 1int), avail);
        match (first_pos(avail, start), first_pos(avail, end)) {
            (Some(a), Some(b)) => if a > b {
                Err(AniError::InputInvalidEpisode)
            } else {
                Ok(avail.subrange(a, b + 1))
            },
            _ => Err(AniError::InputInvalidEpisode),
        }
    } else if avail.contains(t) {
        Ok(seq![t])
    } else {
        Err(AniError::InputInvalidEpisode)
    }
}

pub open spec fn episodes_view(r: Result<Vec<String>>) -> core::result::Result<
    Seq<Seq<char>>,
    AniError,
> {
    match r {
        Ok(v) => Ok(str_views(v@)),
        Err(e) => Err(e),
    }
}

fn position_of(avail: &Vec<Vec<char>>, x: &[char]) -> (r: Option<usize>)
    ensures
        match r {
            Some(k) => Some(k as int) == first_pos(views(avail@), x@),
            None => first_pos(views(avail@), x@) is None,
        },
{
    let mut k: usize = 0;
    while k < avail.len()
        invariant
            k <= avail@.len(),
            forall|j: int| 0 <= j < k ==> views(avail@)[j] != x@,
        decreases avail@.len() - k,
    {
        if chars_eq(&avail[k], x) {
            proof {
                lemma_first_pos_exact(views(avail@), x@, k as int);
            }
            return Some(k);
        }
        k = k + 1;
    }
    proof {
        lemma_first_pos_exact(views(avail@), x@, k as int);
    }
    None
}

/// Expands an episode selection against the available episodes (see
/// [`spec_expand`]).
#[verifier::loop_isolation(false)]
pub fn expand_episode_selection(selection: &str, available: &[String]) -> (r: Result<Vec<String>>)
    ensures
        episodes_view(r) == spec_expand(selection@, str_views(available@)),
{
    let ghost avail = str_views(available@);
    let mut av: Vec<Vec<char>> = Vec::new();
    let mut k: usize = 0;
    while k < available.len()
        invariant
            k <= available@.len(),
            avail == str_views(available@),
            views(av@) =~= avail.take(k as int),
        decreases available@.len() - k,
    {
        let c = chars_of(available[k].as_str());
        assert(c@ == avail[k as int]);
        let ghost prev = av@;
        av.push(c);
        assert(views(av@) =~= views(prev).push(c@));
        k = k + 1;
        assert(avail.take(k as int) =~= avail.take(k - 1).push(avail[k - 1]));
        assert(views(av@) =~= avail.take(k as int));
    }
    assert(avail.take(k as int) =~= avail);
    assert(views(av@) == avail);
    let v = chars_of(selection);
    let t = trim_chars(&v);
    let n = t.len();
    if is_literal(&t, "-1") {
        if available.len() == 0 {
            return Err(AniError::UnavailableNoEpisodes);
        }
        let mut out: Vec<String> = Vec::new();
        out.push(available[available.len() - 1].clone());
        assert(str_views(out@) =~= seq![avail.last()]);
        return Ok(out);
    }
    let mut has_ws = false;
    let mut i: usize = 0;
    while i < n
        invariant
            n == t@.len(),
            i <= n,
            has_ws == exists|k: int| 0 <= k < i && is_ws(#[trigger] t@[k]),
        decreases n - i,
    {
        if is_whitespace(t[i]) {
            has_ws = true;
        }
        i = i + 1;
    }
    if has_ws {
        let req = words_of(&t);
        let mut out: Vec<String> = Vec::new();
        let mut w: usize = 0;
        while w < req.len()
            invariant
                w <= req@.len(),
                views(req@) == words(t@),
                views(av@) == avail,
                str_views(out@) =~= views(req@).take(w as int),
                forall|k: int| 0 <= k < w ==> avail.contains(#[trigger] views(req@)[k]),
            decreases req@.len() - w,
        {
            match position_of(&av, &req[w]) {
                Some(pos) => {
                    proof {
                        lemma_first_pos(avail, views(req@)[w as int]);
                    }
                },
                None => {
                    proof {
                        lemma_first_pos(avail, views(req@)[w as int]);
                        assert(!(forall|k: int|
                            0 <= k < views(req@).len() ==> avail.contains(
                                #[trigger] views(req@)[k],
                            )));
                    }
                    return Err(AniError::InputInvalidEpisode);
                },
            }
            let sw = string_of(&req[w]);
            let ghost prev = out@;
            out.push(sw);
            assert(str_views(out@) =~= str_views(prev).push(sw@));
            w = w + 1;
            assert(views(req@).take(w as int) =~= views(req@).take(w - 1).push(views(req@)[w - 1]));
            assert(str_views(out@) =~= views(req@).take(w as int));
        }
        assert(views(req@).take(w as int) =~= views(req@));
        return Ok(out);
    }
    let d = index_of_char(&t, '-', 0);
    assert(t@.skip(0) =~= t@);
    if d < n {
        let start = subrange_vec(&t, 0, d);
        let tail = subrange_vec(&t, d + 1, n);
        assert(start@ =~= t@.take(d as int));
        assert(tail@ =~= t@.skip(d + 1));
        let end: Vec<char> = if is_literal(&tail, "-1") || tail.len() == 0 {
            if av.len() == 0 {
                Vec::new()
            } else {
                subrange_vec(&av[av.len() - 1], 0, av[av.len() - 1].len())
            }
        } else {
            tail
        };
        assert(end@ =~= range_end(t@.skip(d + 1), avail));
        let a = match position_of(&av, &start) {
            Some(a) => a,
            None => {
                return Err(AniError::InputInvalidEpisode);
            },
        };
        let b = match position_of(&av, &end) {
            Some(b) => b,
            None => {
                return Err(AniError::InputInvalidEpisode);
            },
        };
        proof {
            lemma_first_pos(avail, start@);
            lemma_first_pos(avail, end@);
        }
        if a > b {
            return Err(AniError::InputInvalidEpisode);
        }
        let mut out: Vec<String> = Vec::new();
        let mut k: usize = a;
        while k <= b
            invariant
                a <= k <= b + 1,
                b < available@.len(),
                avail == str_views(available@),
                str_views(out@) =~= avail.subrange(a as int, k as int),
            decreases b + 1 - k,
        {
            let c = available[k].clone();
            let ghost prev = out@;
            out.push(c);
            assert(str_views(out@) =~= str_views(prev).push(c@));
            k = k + 1;
            assert(avail.subrange(a as int, k as int) =~= avail.subrange(a as int, k - 1).push(
                avail[k - 1],
            ));
            assert(str_views(out@) =~= avail.subrange(a as int, k as int));
        }
        return Ok(out);
    }
    proof {
        lemma_run_until(t@, '-');
    }
    match position_of(&av, &t) {
        Some(_) => {
            proof {
                lemma_first_pos(avail, t@);
            }
            let mut out: Vec<String> = Vec::new();
            out.push(string_of(&t));
            assert(str_views(out@) =~= seq![t@]);
            Ok(out)
        },
        None => {
            proof {
                lemma_first_pos(avail, t@);
            }
            Err(AniError::InputInvalidEpisode)
        },
    }
}

/// A range selection `start-end` (after trimming; neither end holding a
/// space or a further `-` before the end, the end not `-1`) whose ends are
/// both available, the start's first occurrence at `i` no later than the
/// end's first occurrence at `j`, expands to exactly the available
/// episodes from `i` through `j`, both included.
pub proof fn range_selection_is_inclusive(
    sel: Seq<char>,
    start: Seq<char>,
    end: Seq<char>,
    avail: Seq<Seq<char>>,
    i: int,
    j: int,
)
    requires
        trim(sel) == start + "-"@ + end,
        start.len() > 0,
        end.len() > 0,
        end != "-1"@,
        forall|k: int| 0 <= k < start.len() ==> #[trigger] start[k] != '-' && !is_ws(start[k]),
        forall|k: int| 0 <= k < end.len() ==> !is_ws(#[trigger] end[k]),
        0 <= i <= j < avail.len(),
        avail[i] == start,
        avail[j] == end,
        forall|k: int| 0 <= k < i ==> avail[k] != start,
        forall|k: int| 0 <= k < j ==> avail[k] != end,
    ensures
        spec_expand(sel, avail) == Ok::<Seq<Seq<char>>, AniError>(avail.subrange(i, j + 1)),
        avail.subrange(i, j + 1)[0] == start,
        avail.subrange(i, j + 1).last() == end,
        avail.subrange(i, j + 1).len() == j - i + 1,
{
    reveal_strlit("-");
    let t = trim(sel);
    let n = start.len();
    assert(t.len() == n + 1 + end.len());
    assert(t[n as int] == '-');
    assert forall|k: int| 0 <= k < t.len() implies !is_ws(#[trigger] t[k]) by {
        if k < n {
            assert(t[k] == start[k]);
        } else if k > n {
            assert(t[k] == end[k - n - 1]);
        }
    }
    assert(t != "-1"@) by {
        reveal_strlit("-1");
        if t == "-1"@ {
            assert(t[0] == '-');
            assert(t[0] == start[0]);
        }
    }
    assert forall|k: int| 0 <= k < n implies #[trigger] t[k] != '-' by {
        assert(t[k] == start[k]);
    }
    lemma_run_until_exact(t, '-', n as int);
    assert(t.take(n as int) =~= start);
    assert(t.skip(n + 1int) =~= end);
    assert(range_end(end, avail) == end);
    lemma_first_pos_exact(avail, start, i);
    lemma_first_pos_exact(avail, end, j);
}

} // verus!
