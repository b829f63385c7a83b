//! JKAnime: client settings, the page markers the client reads (the numeric
//! show id, the CSRF token, the base64 media payload, episode links and
//! player embeds), its search listings, and the JKPlayer media URL.

use std::time::Duration;

use vstd::prelude::*;

use crate::error::{AniError, Result};
use crate::history::opt_seq;
use crate::providers::{
    after_prefix, base64_decoded, dashes_to_spaces, decode_base64, host_matches, is_valid_slug,
    catalog_url, escaped_path, form_escaped, opt_bytes, opt_string_view, settle_show_id, settled, slug_is_valid, spec_host_matches,
    strip_prefix_text, ShowIdPayload, ShowIdReading,
};
use crate::scan::{
    digit_pred, digit_run, lemma_leftmost_step, lemma_run_of_exact, leftmost_from, literal_at, not_char_count,
    not_char_run, run_of, ws_count, ws_run,
};
use crate::models::{RequestHeaders, StreamLink};
use crate::remote::{
    is_remote_url_ok, join_remote, parse_remote, url_join, url_parse, validate_remote_url,
    validated, ParsedUrl, UrlView,
};
use crate::text::{
    chars_eq, chars_of, collapse_whitespace, collapse_ws, decimal_digits, index_of_char, occurs_at,
    parse_u64, push_decimal, spec_parse_u64, string_of, subrange_vec, trim, trim_chars, views,
};

verus! {

/// Default catalog base.
pub const DEFAULT_BASE: &'static str = "https://jkanime.net";

/// Default browser user agent.
pub const DEFAULT_AGENT: &'static str = "Mozilla/5.0 (Windows NT 10.0; Win64; x64) AppleWebKit/537.36 (KHTML, like Gecko) Chrome/138.0.0.0 Safari/537.36";

/// The duration of `secs` whole seconds.
pub uninterp spec fn seconds(secs: u64) -> Duration;

/// `Duration::from_secs`: the duration of `secs` whole seconds.
#[verifier::external_body]
pub(crate) fn duration_from_secs(secs: u64) -> (d: Duration)
    ensures
        d == seconds(secs),
{
    Duration::from_secs(secs)
}

/// The text without its trailing slashes.
pub open spec fn trim_end_slashes(s: Seq<char>) -> Seq<char>
    decreases s.len(),
{
    if s.len() > 0 && s.last() == '/' {
        trim_end_slashes(s.drop_last())
    } else {
        s
    }
}

pub fn without_trailing_slashes(s: &str) -> (r: String)
    ensures
        r@ == trim_end_slashes(s@),
{
    let h = chars_of(s);
    let mut end = h.len();
    assert(h@.take(h@.len() as int) =~= h@);
    while end > 0 && h[end - 1] == '/'
        invariant
            end <= h@.len(),
            trim_end_slashes(h@) == trim_end_slashes(h@.take(end as int)),
        decreases end,
    {
        assert(h@.take(end as int).drop_last() =~= h@.take(end - 1));
        end = end - 1;
    }
    assert(trim_end_slashes(h@.take(end as int)) == h@.take(end as int));
    let t = subrange_vec(&h, 0, end);
    assert(t@ =~= h@.take(end as int));
    string_of(&t)
}

/// Settings of a JKAnime client: catalog base, user agent and timeout.
#[derive(Debug)]
pub struct JkAnimeClientBuilder {
    base: String,
    user_agent: String,
    timeout: Duration,
}

impl Clone for JkAnimeClientBuilder {
    fn clone(&self) -> (b: Self)
        ensures
            b == *self,
    {
        JkAnimeClientBuilder {
            base: self.base.clone(),
            user_agent: self.user_agent.clone(),
            timeout: self.timeout,
        }
    }
}

impl Default for JkAnimeClientBuilder {
    fn default() -> (b: Self)
        ensures
            b.spec_base() == DEFAULT_BASE@,
            b.spec_user_agent() == DEFAULT_AGENT@,
            b.spec_timeout() == seconds(15),
    {
        JkAnimeClientBuilder {
            base: DEFAULT_BASE.to_owned(),
            user_agent: DEFAULT_AGENT.to_owned(),
            timeout: duration_from_secs(15),
        }
    }
}

impl JkAnimeClientBuilder {
    pub closed spec fn spec_base(self) -> Seq<char> {
        self.base@
    }

    pub closed spec fn spec_user_agent(self) -> Seq<char> {
        self.user_agent@
    }

    pub closed spec fn spec_timeout(self) -> Duration {
        self.timeout
    }

    /// Replaces the catalog base URL.
    pub fn base_url(self, value: &str) -> (b: Self)
        ensures
            b.spec_base() == value@,
            b.spec_user_agent() == self.spec_user_agent(),
            b.spec_timeout() == self.spec_timeout(),
    {
        JkAnimeClientBuilder { base: value.to_owned(), ..self }
    }

    /// Replaces the request timeout.
    pub fn timeout(self, value: Duration) -> (b: Self)
        ensures
            b.spec_base() == self.spec_base(),
            b.spec_user_agent() == self.spec_user_agent(),
            b.spec_timeout() == value,
    {
        JkAnimeClientBuilder { timeout: value, ..self }
    }

    /// The base the client requests, without trailing slashes.
    pub fn client_base(&self) -> (r: String)
        ensures
            r@ == trim_end_slashes(self.spec_base()),
    {
        without_trailing_slashes(self.base.as_str())
    }

    pub fn user_agent(&self) -> (r: &str)
        ensures
            r@ == self.spec_user_agent(),
    {
        self.user_agent.as_str()
    }

    pub fn request_timeout(&self) -> (r: Duration)
        ensures
            r == self.spec_timeout(),
    {
        self.timeout
    }
}

/// Refuses a text that is not a show slug.
pub fn validate_slug(value: &str) -> (r: Result<()>)
    ensures
        is_valid_slug(value@) ==> r is Ok,
        !is_valid_slug(value@) ==> (r matches Err(AniError::Input(m)) && m@
            == "invalid JKAnime show slug"@),
{
    if slug_is_valid(&chars_of(value)) {
        Ok(())
    } else {
        Err(AniError::Input("invalid JKAnime show slug".to_owned()))
    }
}

// ---------- show ids ----------

/// Whether a payload holds a character that only base64 uses: `=`, `+`
/// or `/`.
pub open spec fn has_encoding_marks(p: Seq<char>) -> bool {
    exists|i: int| 0 <= i < p.len() && (p[i] == '=' || p[i] == '+' || p[i] == '/')
}

/// The bare-slug reading of a JKAnime payload `p`: `p` itself where it
/// holds no base64 mark and is a valid slug; else the error for a payload
/// that is no base64, or for base64 that holds no valid metadata.
pub open spec fn jk_bare_reading(p: Seq<char>, f: Result<String>) -> bool {
    if !has_encoding_marks(p) && is_valid_slug(p) {
        f matches Ok(s) && s@ == p
    } else {
        match base64_decoded(p) {
            None => f matches Err(AniError::Input(m)) && m@ == "invalid JKAnime show ID encoding"@,
            Some(_) => f matches Err(AniError::Input(m)) && m@ == "invalid JKAnime show metadata"@,
        }
    }
}

/// What a JKAnime show id offers. Without the `jkanime:` prefix it is read
/// as a bare slug only. With it, an empty payload is refused; otherwise the
/// payload's base64 bytes (if it decodes) come first, its bare-slug reading
/// ([`jk_bare_reading`]) second.
pub open spec fn show_id_outcome(value: Seq<char>, r: Result<ShowIdPayload>) -> bool {
    match after_prefix(value, "jkanime:"@) {
        None => r matches Ok(x) && x.metadata is None && if is_valid_slug(value) {
            x.fallback matches Ok(s) && s@ == value
        } else {
            x.fallback matches Err(AniError::Input(m)) && m@ == "invalid JKAnime show slug"@
        },
        Some(p) => if p.len() == 0 {
            r matches Err(AniError::Input(m)) && m@ == "invalid JKAnime show ID"@
        } else {
            r matches Ok(x) && opt_bytes(x.metadata) == base64_decoded(p) && jk_bare_reading(
                p,
                x.fallback,
            )
        },
    }
}

fn encoding_marks(p: &[char]) -> (b: bool)
    ensures
        b == has_encoding_marks(p@),
{
    let mut i: usize = 0;
    while i < p.len()
        invariant
            i <= p@.len(),
            forall|k: int| 0 <= k < i ==> !(p@[k] == '=' || p@[k] == '+' || p@[k] == '/'),
        decreases p@.len() - i,
    {
        if p[i] == '=' || p[i] == '+' || p[i] == '/' {
            return true;
        }
        i = i + 1;
    }
    false
}

/// Reads a JKAnime show id (see [`show_id_outcome`]).
pub fn show_id_payload(value: &str) -> (r: Result<ShowIdPayload>)
    ensures
        show_id_outcome(value@, r),
{
    match strip_prefix_text(value, "jkanime:") {
        None => {
            let fallback = match validate_slug(value) {
                Ok(()) => Ok(value.to_owned()),
                Err(e) => Err(e),
            };
            Ok(ShowIdPayload { metadata: None, fallback })
        },
        Some(payload) => {
            let p = chars_of(payload.as_str());
            if p.len() == 0 {
                return Err(AniError::Input("invalid JKAnime show ID".to_owned()));
            }
            let metadata = decode_base64(payload.as_str());
            let fallback = if !encoding_marks(&p) && slug_is_valid(&p) {
                Ok(payload)
            } else if metadata.is_none() {
                Err(AniError::Input("invalid JKAnime show ID encoding".to_owned()))
            } else {
                Err(AniError::Input("invalid JKAnime show metadata".to_owned()))
            };
            Ok(ShowIdPayload { metadata, fallback })
        },
    }
}

/// Settles a JKAnime show id once its metadata bytes have been read:
/// `parsed_slug` is the slug the metadata names, where they held metadata
/// (see [`settled`]).
pub fn settle_id(payload: ShowIdPayload, parsed_slug: Option<String>) -> (r: Result<ShowIdReading>)
    ensures
        settled(payload, opt_string_view(parsed_slug), "invalid JKAnime show slug"@, r),
{
    settle_show_id(payload, parsed_slug, "invalid JKAnime show slug")
}

/// A prefixed id whose payload is base64 offers the bytes it encodes as
/// metadata, before any bare-slug reading, and metadata that names a valid
/// slug settles the id: an id made by
/// [`crate::providers::encoded_show_id`] reads back as its metadata, padded
/// or not.
pub proof fn encoded_ids_read_as_metadata(
    t: Seq<char>,
    b: Seq<u8>,
    r: Result<ShowIdPayload>,
    slug: Seq<char>,
    s: Result<ShowIdReading>,
)
    requires
        t.len() > 0,
        base64_decoded(t) == Some(b),
        show_id_outcome("jkanime:"@ + t, r),
        is_valid_slug(slug),
        r is Ok ==> settled(r->Ok_0, Some(slug), "invalid JKAnime show slug"@, s),
    ensures
        r matches Ok(p) && p.metadata matches Some(m) && m@ == b,
        s == Ok::<ShowIdReading, AniError>(ShowIdReading::Metadata),
{
    let v = "jkanime:"@ + t;
    assert(v.take("jkanime:"@.len() as int) =~= "jkanime:"@);
    assert(v.skip("jkanime:"@.len() as int) =~= t);
}

// ---------- page markers ----------

/// `data-anime="(\d+)"` at `i`: the digits.
pub open spec fn anime_id_at(s: Seq<char>, i: int) -> Option<Seq<char>> {
    let lit = "data-anime=\""@;
    if occurs_at(s, lit, i) {
        let j = i + lit.len();
        let n = run_of(s, j, digit_pred());
        if n > 0 && j + n < s.len() && s[j + n] == '"' {
            Some(s.subrange(j, j + n))
        } else {
            None
        }
    } else {
        None
    }
}

pub open spec fn anime_id_finder(s: Seq<char>) -> spec_fn(int) -> Option<Seq<char>> {
    |i: int| anime_id_at(s, i)
}

/// The numeric show id of the leftmost `data-anime="<digits>"`.
pub open spec fn spec_parse_anime_id(s: Seq<char>) -> Option<Seq<char>> {
    leftmost_from(anime_id_finder(s), 0, s.len() as int)
}

fn anime_id_exec(s: &[char], lit: &[char], i: usize) -> (r: Option<Vec<char>>)
    requires
        lit@ == "data-anime=\""@,
    ensures
        match (r, anime_id_at(s@, i as int)) {
            (Some(c), Some(d)) => c@ == d,
            (None, None) => true,
            _ => false,
        },
{
    let j = match literal_at(s, lit, i) {
        Some(j) => j,
        None => {
            return None;
        },
    };
    let e = digit_run(s, j);
    if e > j && e < s.len() && s[e] == '"' {
        let r = subrange_vec(s, j, e);
        assert(anime_id_at(s@, i as int) == Some(s@.subrange(j as int, e as int)));
        Some(r)
    } else {
        assert(anime_id_at(s@, i as int) is None);
        None
    }
}

/// The show id in an anime page (see [`spec_parse_anime_id`]).
pub fn parse_anime_id(html: &str) -> (r: Option<String>)
    ensures
        opt_string_view(r) == spec_parse_anime_id(html@),
{
    let s = chars_of(html);
    let lit = chars_of("data-anime=\"");
    let n = s.len();
    let mut i: usize = 0;
    while i < n
        invariant
            n == s@.len(),
            s@ == html@,
            i <= n,
            lit@ == "data-anime=\""@,
            spec_parse_anime_id(s@) == leftmost_from(anime_id_finder(s@), i as int, n as int),
        decreases n - i,
    {
        proof {
            assert(anime_id_finder(s@)(i as int) == anime_id_at(s@, i as int));
            lemma_leftmost_step(anime_id_finder(s@), i as int, n as int);
        }
        match anime_id_exec(&s, &lit, i) {
            Some(c) => {
                return Some(string_of(&c));
            },
            None => {},
        }
        i = i + 1;
    }
    proof {
        assert(anime_id_finder(s@)(i as int) == anime_id_at(s@, i as int));
        lemma_leftmost_step(anime_id_finder(s@), i + 1, n as int);
        lemma_leftmost_step(anime_id_finder(s@), i as int, n as int);
    }
    match anime_id_exec(&s, &lit, i) {
        Some(c) => Some(string_of(&c)),
        None => None,
    }
}

/// `<meta\s+name="csrf-token"\s+content="([^"]+)"` at `i`: the token.
pub open spec fn csrf_at(s: Seq<char>, i: int) -> Option<Seq<char>> {
    let a = "<meta"@;
    let b = "name=\"csrf-token\""@;
    let c = "content=\""@;
    if !occurs_at(s, a, i) {
        None
    } else {
        let j = i + a.len();
        let w1 = ws_count(s, j);
        let k = j + w1;
        if w1 == 0 || !occurs_at(s, b, k) {
            None
        } else {
            let m = k + b.len();
            let w2 = ws_count(s, m);
            let p = m + w2;
            if w2 == 0 || !occurs_at(s, c, p) {
                None
            } else {
                let q = p + c.len();
                let t = not_char_count(s, q, '"');
                if t > 0 && q + t < s.len() {
                    Some(s.subrange(q, q + t))
                } else {
                    None
                }
            }
        }
    }
}

pub open spec fn csrf_finder(s: Seq<char>) -> spec_fn(int) -> Option<Seq<char>> {
    |i: int| csrf_at(s, i)
}

/// The CSRF token of the leftmost csrf-token meta tag.
pub open spec fn spec_parse_csrf_token(s: Seq<char>) -> Option<Seq<char>> {
    leftmost_from(csrf_finder(s), 0, s.len() as int)
}

fn csrf_exec(s: &[char], a: &[char], b: &[char], c: &[char], i: usize) -> (r: Option<Vec<char>>)
    requires
        a@ == "<meta"@,
        b@ == "name=\"csrf-token\""@,
        c@ == "content=\""@,
    ensures
        match (r, csrf_at(s@, i as int)) {
            (Some(x), Some(y)) => x@ == y,
            (None, None) => true,
            _ => false,
        },
{
    let j = match literal_at(s, a, i) {
        Some(j) => j,
        None => {
            return None;
        },
    };
    let k = ws_run(s, j);
    if k == j {
        return None;
    }
    let m = match literal_at(s, b, k) {
        Some(m) => m,
        None => {
            return None;
        },
    };
    let p = ws_run(s, m);
    if p == m {
        return None;
    }
    let q = match literal_at(s, c, p) {
        Some(q) => q,
        None => {
            return None;
        },
    };
    let t = not_char_run(s, q, '"');
    if t > q && t < s.len() {
        Some(subrange_vec(s, q, t))
    } else {
        None
    }
}

/// The CSRF token of an anime page (see [`spec_parse_csrf_token`]).
pub fn parse_csrf_token(html: &str) -> (r: Option<String>)
    ensures
        opt_string_view(r) == spec_parse_csrf_token(html@),
{
    let s = chars_of(html);
    let a = chars_of("<meta");
    let b = chars_of("name=\"csrf-token\"");
    let c = chars_of("content=\"");
    let n = s.len();
    let mut i: usize = 0;
    while i < n
        invariant
            n == s@.len(),
            s@ == html@,
            i <= n,
            a@ == "<meta"@,
            b@ == "name=\"csrf-token\""@,
            c@ == "content=\""@,
            spec_parse_csrf_token(s@) == leftmost_from(csrf_finder(s@), i as int, n as int),
        decreases n - i,
    {
        proof {
            assert(csrf_finder(s@)(i as int) == csrf_at(s@, i as int));
            lemma_leftmost_step(csrf_finder(s@), i as int, n as int);
        }
        match csrf_exec(&s, &a, &b, &c, i) {
            Some(x) => {
                return Some(string_of(&x));
            },
            None => {},
        }
        i = i + 1;
    }
    proof {
        assert(csrf_finder(s@)(i as int) == csrf_at(s@, i as int));
        lemma_leftmost_step(csrf_finder(s@), i + 1, n as int);
        lemma_leftmost_step(csrf_finder(s@), i as int, n as int);
    }
    match csrf_exec(&s, &a, &b, &c, i) {
        Some(x) => Some(string_of(&x)),
        None => None,
    }
}

/// A character of the base64 alphabet `[A-Za-z0-9+/=]`.
pub open spec fn base64_char(c: char) -> bool {
    ('A' <= c && c <= 'Z') || ('a' <= c && c <= 'z') || ('0' <= c && c <= '9') || c == '+' || c
        == '/' || c == '='
}

pub open spec fn base64_pred() -> spec_fn(char) -> bool {
    |c: char| base64_char(c)
}

fn base64_run(s: &[char], i: usize) -> (r: usize)
    requires
        i <= s@.len(),
    ensures
        i <= r <= s@.len(),
        r - i == run_of(s@, i as int, base64_pred()),
{
    let mut j = i;
    while j < s.len() && ((s[j] >= 'A' && s[j] <= 'Z') || (s[j] >= 'a' && s[j] <= 'z') || (s[j]
        >= '0' && s[j] <= '9') || s[j] == '+' || s[j] == '/' || s[j] == '=')
        invariant
            i <= j <= s@.len(),
            forall|k: int| i <= k < j ==> base64_char(#[trigger] s@[k]),
        decreases s@.len() - j,
    {
        j = j + 1;
    }
    proof {
        lemma_run_of_exact(s@, i as int, base64_pred(), j - i);
    }
    j
}

/// `atob\('([A-Za-z0-9+/=]{32,})'\)` at `i`: the base64 payload.
pub open spec fn media_at(s: Seq<char>, i: int) -> Option<Seq<char>> {
    let a = "atob('"@;
    let b = "')"@;
    if occurs_at(s, a, i) {
        let j = i + a.len();
        let n = run_of(s, j, base64_pred());
        if n >= 32 && occurs_at(s, b, j + n) {
            Some(s.subrange(j, j + n))
        } else {
            None
        }
    } else {
        None
    }
}

pub open spec fn media_finder(s: Seq<char>) -> spec_fn(int) -> Option<Seq<char>> {
    |i: int| media_at(s, i)
}

/// The payload of the leftmost `atob('...')` holding 32 or more base64
/// characters.
pub open spec fn spec_parse_embedded_media(s: Seq<char>) -> Option<Seq<char>> {
    leftmost_from(media_finder(s), 0, s.len() as int)
}

fn media_exec(s: &[char], a: &[char], b: &[char], i: usize) -> (r: Option<Vec<char>>)
    requires
        a@ == "atob('"@,
        b@ == "')"@,
    ensures
        match (r, media_at(s@, i as int)) {
            (Some(x), Some(y)) => x@ == y,
            (None, None) => true,
            _ => false,
        },
{
    let j = match literal_at(s, a, i) {
        Some(j) => j,
        None => {
            return None;
        },
    };
    let e = base64_run(s, j);
    if e - j >= 32 && literal_at(s, b, e).is_some() {
        Some(subrange_vec(s, j, e))
    } else {
        None
    }
}

/// The base64 media payload of a player page (see
/// [`spec_parse_embedded_media`]).
pub fn parse_embedded_media(html: &str) -> (r: Option<String>)
    ensures
        opt_string_view(r) == spec_parse_embedded_media(html@),
{
    let s = chars_of(html);
    let a = chars_of("atob('");
    let b = chars_of("')");
    let n = s.len();
    let mut i: usize = 0;
    while i < n
        invariant
            n == s@.len(),
            s@ == html@,
            i <= n,
            a@ == "atob('"@,
            b@ == "')"@,
            spec_parse_embedded_media(s@) == leftmost_from(media_finder(s@), i as int, n as int),
        decreases n - i,
    {
        proof {
            assert(media_finder(s@)(i as int) == media_at(s@, i as int));
            lemma_leftmost_step(media_finder(s@), i as int, n as int);
        }
        match media_exec(&s, &a, &b, i) {
            Some(x) => {
                return Some(string_of(&x));
            },
            None => {},
        }
        i = i + 1;
    }
    proof {
        assert(media_finder(s@)(i as int) == media_at(s@, i as int));
        lemma_leftmost_step(media_finder(s@), i + 1, n as int);
        lemma_leftmost_step(media_finder(s@), i as int, n as int);
    }
    match media_exec(&s, &a, &b, i) {
        Some(x) => Some(string_of(&x)),
        None => None,
    }
}

// ---------- episode links ----------

pub open spec fn host_char_pred() -> spec_fn(char) -> bool {
    |c: char| c != '"' && c != '/'
}

/// `href="https?://[^"/]+/<slug>/(\d+)/?"` at `i`: where the match ends
/// and the episode digits.
pub open spec fn episode_link_at(s: Seq<char>, slug: Seq<char>, i: int) -> Option<(int, Seq<char>)> {
    let a = "href=\"http"@;
    if !occurs_at(s, a, i) {
        None
    } else {
        let j0 = i + a.len();
        let j = if j0 < s.len() && s[j0] == 's' {
            j0 + 1
        } else {
            j0
        };
        if !occurs_at(s, "://"@, j) {
            None
        } else {
            let h = j + "://"@.len();
            let k = h + run_of(s, h, host_char_pred());
            if k == h || !(k < s.len() && s[k] == '/') || !occurs_at(s, slug, k + 1) {
                None
            } else {
                let m = k + 1 + slug.len();
                if !(m < s.len() && s[m] == '/') {
                    None
                } else {
                    let d = m + 1;
                    let e = d + run_of(s, d, digit_pred());
                    if e == d {
                        None
                    } else if e + 1 < s.len() && s[e] == '/' && s[e + 1] == '"' {
                        Some((e + 2, s.subrange(d, e)))
                    } else if e < s.len() && s[e] == '"' {
                        Some((e + 1, s.subrange(d, e)))
                    } else {
                        None
                    }
                }
            }
        }
    }
}

pub proof fn lemma_episode_link_end(s: Seq<char>, slug: Seq<char>, i: int)
    ensures
        episode_link_at(s, slug, i) matches Some((e, d)) ==> i < e <= s.len(),
{
}

/// The episode digits of every link to the show, left to right, each
/// search resuming after the previous match (as `captures_iter` does).
pub open spec fn episode_links_from(s: Seq<char>, slug: Seq<char>, i: int) -> Seq<Seq<char>>
    decreases s.len() + 1 - i,
{
    if i < 0 || i > s.len() {
        seq![]
    } else {
        match episode_link_at(s, slug, i) {
            Some((e, d)) => {
                proof {
                    lemma_episode_link_end(s, slug, i);
                }
                seq![d] + episode_links_from(s, slug, e)
            },
            None => episode_links_from(s, slug, i + 1),
        }
    }
}

/// The number an episode link names; `0` when it does not parse as a
/// `u64`.
pub open spec fn episode_key(d: Seq<char>) -> nat {
    match spec_parse_u64(d) {
        Some(v) => v as nat,
        None => 0,
    }
}

/// The larger of the best so far and `d`, `d` on a tie.
pub open spec fn later_max(best: Option<Seq<char>>, d: Seq<char>) -> Option<Seq<char>> {
    match best {
        None => Some(d),
        Some(b) => if episode_key(d) >= episode_key(b) {
            Some(d)
        } else {
            Some(b)
        },
    }
}

pub open spec fn max_fold(best: Option<Seq<char>>, ls: Seq<Seq<char>>) -> Option<Seq<char>>
    decreases ls.len(),
{
    if ls.len() == 0 {
        best
    } else {
        max_fold(later_max(best, ls[0]), ls.drop_first())
    }
}

/// The latest episode a show page links to: of all the links' numbers, the
/// last one with the greatest value (`max_by_key`).
pub open spec fn spec_parse_latest_episode(slug: Seq<char>, s: Seq<char>) -> Option<Seq<char>> {
    max_fold(None, episode_links_from(s, slug, 0))
}

/// Folding the links `ls` after a best-so-far `best`: the result is one of
/// `best` and the links, numbered at least as high as each of them, and no
/// later one has the same number; nothing only when there is nothing.
proof fn lemma_max_fold(best: Option<Seq<char>>, ls: Seq<Seq<char>>)
    ensures
        ({
            let all = opt_seq(best) + ls;
            let r = max_fold(best, ls);
            &&& (r is None <==> all.len() == 0)
            &&& (r matches Some(d) ==> exists|j: int|
                0 <= j < all.len() && all[j] == d && (forall|k: int|
                    0 <= k < all.len() ==> episode_key(#[trigger] all[k]) <= episode_key(d)) && (
                forall|k: int| j < k < all.len() ==> episode_key(#[trigger] all[k]) < episode_key(d)))
        }),
    decreases ls.len(),
{
    let all = opt_seq(best) + ls;
    if ls.len() == 0 {
        assert(all =~= opt_seq(best));
        if let Some(b) = best {
            assert(all[0] == b);
            assert(all.len() == 1);
        }
    } else {
        let m = later_max(best, ls[0]);
        let rest = ls.drop_first();
        lemma_max_fold(m, rest);
        let all2 = opt_seq(m) + rest;
        let d = max_fold(m, rest)->Some_0;
        assert(max_fold(best, ls) == max_fold(m, rest));
        assert(all2[0] == m->Some_0);
        let j2 = choose|j: int|
            0 <= j < all2.len() && all2[j] == d && (forall|k: int|
                0 <= k < all2.len() ==> episode_key(#[trigger] all2[k]) <= episode_key(d)) && (
            forall|k: int| j < k < all2.len() ==> episode_key(#[trigger] all2[k]) < episode_key(d));
        match best {
            None => {
                assert(all =~= all2);
            },
            Some(b) => {
                assert(all.len() == all2.len() + 1);
                assert(all[0] == b);
                assert(all[1] == ls[0]);
                assert forall|k: int| 2 <= k < all.len() implies #[trigger] all[k] == all2[k - 1] by {}
                let j = if j2 == 0 {
                    if episode_key(ls[0]) >= episode_key(b) {
                        1int
                    } else {
                        0int
                    }
                } else {
                    j2 + 1
                };
                assert(all[j] == d);
                assert(episode_key(all2[0]) <= episode_key(d));
                assert forall|k: int| 0 <= k < all.len() implies episode_key(#[trigger] all[k])
                    <= episode_key(d) by {
                    if k >= 2 {
                        assert(all[k] == all2[k - 1]);
                    }
                }
                assert forall|k: int| j < k < all.len() implies episode_key(#[trigger] all[k])
                    < episode_key(d) by {
                    if k >= 2 {
                        assert(all[k] == all2[k - 1]);
                    }
                }
            },
        }
    }
}

/// The latest episode a show page names, whatever order its links come
/// in: one of its links to the show, numbered at least as high as every
/// such link, with no later link of the same number (`max_by_key` keeps the
/// last of equal maxima); nothing only when the page has no such link.
pub proof fn latest_episode_is_highest_link(slug: Seq<char>, html: Seq<char>)
    ensures
        ({
            let ls = episode_links_from(html, slug, 0);
            let r = spec_parse_latest_episode(slug, html);
            &&& (r is None <==> ls.len() == 0)
            &&& (r matches Some(d) ==> exists|j: int|
                0 <= j < ls.len() && ls[j] == d && (forall|k: int|
                    0 <= k < ls.len() ==> episode_key(#[trigger] ls[k]) <= episode_key(d)) && (
                forall|k: int| j < k < ls.len() ==> episode_key(#[trigger] ls[k]) < episode_key(d)))
        }),
{
    let ls = episode_links_from(html, slug, 0);
    lemma_max_fold(None, ls);
    assert(opt_seq::<Seq<char>>(None) + ls =~= ls);
}

fn host_run(s: &[char], i: usize) -> (r: usize)
    requires
        i <= s@.len(),
    ensures
        i <= r <= s@.len(),
        r - i == run_of(s@, i as int, host_char_pred()),
{
    let mut j = i;
    while j < s.len() && s[j] != '"' && s[j] != '/'
        invariant
            i <= j <= s@.len(),
            forall|k: int| i <= k < j ==> #[trigger] s@[k] != '"' && s@[k] != '/',
        decreases s@.len() - j,
    {
        j = j + 1;
    }
    proof {
        lemma_run_of_exact(s@, i as int, host_char_pred(), j - i);
    }
    j
}

fn episode_link_exec(s: &[char], a: &[char], sep: &[char], slug: &[char], i: usize) -> (r: Option<
    (usize, Vec<char>),
>)
    requires
        a@ == "href=\"http"@,
        sep@ == "://"@,
    ensures
        match (r, episode_link_at(s@, slug@, i as int)) {
            (Some((x, dx)), Some((y, dy))) => x == y && dx@ == dy,
            (None, None) => true,
            _ => false,
        },
{
    let n = s.len();
    let j0 = match literal_at(s, a, i) {
        Some(j) => j,
        None => {
            return None;
        },
    };
    let j = if j0 < n && s[j0] == 's' {
        j0 + 1
    } else {
        j0
    };
    let h = match literal_at(s, sep, j) {
        Some(h) => h,
        None => {
            return None;
        },
    };
    let k = host_run(s, h);
    if k == h || !(k < n && s[k] == '/') {
        return None;
    }
    let m = match literal_at(s, slug, k + 1) {
        Some(m) => m,
        None => {
            return None;
        },
    };
    if !(m < n && s[m] == '/') {
        return None;
    }
    let d = m + 1;
    let e = digit_run(s, d);
    if e == d {
        return None;
    }
    if e < n && e + 1 < n && s[e] == '/' && s[e + 1] == '"' {
        Some((e + 2, subrange_vec(s, d, e)))
    } else if e < n && s[e] == '"' {
        Some((e + 1, subrange_vec(s, d, e)))
    } else {
        None
    }
}

/// The latest episode number a show page links to (see
/// [`spec_parse_latest_episode`]).
pub fn parse_latest_episode(slug: &str, html: &str) -> (r: Option<String>)
    ensures
        opt_string_view(r) == spec_parse_latest_episode(slug@, html@),
{
    let s = chars_of(html);
    let slug_chars = chars_of(slug);
    let a = chars_of("href=\"http");
    let sep = chars_of("://");
    let n = s.len();
    let mut best: Option<Vec<char>> = None;
    let mut best_key: u64 = 0;
    let mut i: usize = 0;
    loop
        invariant
            n == s@.len(),
            s@ == html@,
            slug_chars@ == slug@,
            a@ == "href=\"http"@,
            sep@ == "://"@,
            i <= n,
            spec_parse_latest_episode(slug@, html@) == max_fold(
                opt_vec_view(best),
                episode_links_from(s@, slug@, i as int),
            ),
            best matches Some(b) ==> best_key == episode_key(b@),
        decreases n - i,
    {
        match episode_link_exec(&s, &a, &sep, &slug_chars, i) {
            Some((e, d)) => {
                let ghost rest = episode_links_from(s@, slug@, e as int);
                assert(episode_links_from(s@, slug@, i as int) == seq![d@] + rest);
                assert((seq![d@] + rest).drop_first() =~= rest);
                assert((seq![d@] + rest)[0] == d@);
                let key: u64 = match parse_u64(&d) {
                    Some(v) => v,
                    None => 0,
                };
                let replace = match &best {
                    None => true,
                    Some(_) => key >= best_key,
                };
                if replace {
                    best = Some(d);
                    best_key = key;
                }
                i = e;
            },
            None => {
                if i == n {
                    assert(episode_links_from(s@, slug@, (n + 1) as int) == Seq::<Seq<char>>::empty());
                    return match best {
                        Some(b) => Some(string_of(&b)),
                        None => None,
                    };
                }
                i = i + 1;
            },
        }
    }
}

pub open spec fn opt_vec_view(o: Option<Vec<char>>) -> Option<Seq<char>> {
    match o {
        Some(v) => Some(v@),
        None => None,
    }
}

// ---------- episode pages ----------

/// How many pages of the episode endpoint a listing reads at most.
pub const MAX_EPISODE_PAGES: usize = 25;

/// Whether the episode listing stops after a page: the page was empty, the
/// catalog gave no total, or the episodes collected so far (counted as a
/// `u32`, the catalog's type) reach its total.
pub fn episode_list_complete(page_entries: usize, collected: usize, total: u32) -> (b: bool)
    ensures
        b == (page_entries == 0 || total == 0 || (collected as u32) >= total),
{
    page_entries == 0 || total == 0 || (collected as u32) >= total
}

/// An episode list as the client answers it: an empty list is
/// [`AniError::UnavailableNoEpisodes`]; any other is given back as it is.
/// The client also reads this answer on the endpoint's listing, where an
/// empty list sends it to the latest-episode link instead.
pub fn episodes_found(episodes: Vec<String>) -> (r: Result<Vec<String>>)
    ensures
        episodes@.len() == 0 ==> r matches Err(AniError::UnavailableNoEpisodes),
        episodes@.len() > 0 ==> (r matches Ok(v) && v@ == episodes@),
{
    if episodes.len() == 0 {
        Err(AniError::UnavailableNoEpisodes)
    } else {
        Ok(episodes)
    }
}

/// The episode labels `1` to `count` of a show whose latest linked episode
/// is `latest`; a label that is not a `usize` is a provider error.
pub open spec fn spec_episode_range(latest: Seq<char>) -> Option<Seq<Seq<char>>> {
    match spec_parse_u64(latest) {
        Some(n) => if n <= usize::MAX {
            Some(Seq::new(n as nat, |k: int| decimal_digits((k + 1) as nat)))
        } else {
            None
        },
        None => None,
    }
}

/// The episode list implied by the latest episode link (see
/// [`spec_episode_range`]).
pub fn episode_range(latest: &str) -> (r: Result<Vec<String>>)
    ensures
        match spec_episode_range(latest@) {
            Some(ls) => r matches Ok(v) && strings_view(v@) == ls,
            None => r matches Err(AniError::Provider(m)) && m@
                == "JKAnime latest episode number was not numeric"@,
        },
{
    let count: u64 = match parse_u64(&chars_of(latest)) {
        Some(n) => n,
        None => {
            return Err(AniError::Provider("JKAnime latest episode number was not numeric".to_owned()));
        },
    };
    if count > usize::MAX as u64 {
        return Err(AniError::Provider("JKAnime latest episode number was not numeric".to_owned()));
    }
    let mut out: Vec<String> = Vec::new();
    let mut k: u64 = 0;
    while k < count
        invariant
            k <= count,
            strings_view(out@) =~= Seq::new(k as nat, |m: int| decimal_digits((m + 1) as nat)),
        decreases count - k,
    {
        let ghost before = strings_view(out@);
        let mut digits: Vec<char> = Vec::new();
        push_decimal(&mut digits, k + 1);
        assert(digits@ =~= decimal_digits((k + 1) as nat));
        let label = string_of(&digits);
        out.push(label);
        assert(strings_view(out@) =~= before.push(label@));
        k = k + 1;
    }
    Ok(out)
}

// ---------- player embeds ----------

pub open spec fn src_marker() -> Seq<char> {
    "src=\""@
}

/// `src="([^"]+)"` at `x`: where the match ends and the quoted URL.
pub open spec fn src_tail(s: Seq<char>, x: int) -> Option<(int, Seq<char>)> {
    if !occurs_at(s, src_marker(), x) {
        None
    } else {
        let c = x + src_marker().len();
        let n = not_char_count(s, c, '"');
        if n > 0 && c + n < s.len() {
            Some((c + n + 1, s.subrange(c, c + n)))
        } else {
            None
        }
    }
}

/// The greedy `[^>]+` before `src="`: the last position `x` in
/// `lo + 1 ..= hi` where the `src` attribute matches.
pub open spec fn src_from_back(s: Seq<char>, lo: int, x: int) -> Option<(int, Seq<char>)>
    decreases x - lo,
{
    if x <= lo {
        None
    } else {
        match src_tail(s, x) {
            Some(t) => Some(t),
            None => src_from_back(s, lo, x - 1),
        }
    }
}

/// `video\[\d+\]\s*=\s*'<iframe[^>]+src="([^"]+)"` at `i`: where the match
/// ends and the iframe source.
pub open spec fn iframe_src_at(s: Seq<char>, i: int) -> Option<(int, Seq<char>)> {
    let a = "video["@;
    let b = "'<iframe"@;
    if !occurs_at(s, a, i) {
        None
    } else {
        let j = i + a.len();
        let k = j + run_of(s, j, digit_pred());
        if k == j || !(k < s.len() && s[k] == ']') {
            None
        } else {
            let p = k + 1 + ws_count(s, k + 1);
            if !(p < s.len() && s[p] == '=') {
                None
            } else {
                let q = p + 1 + ws_count(s, p + 1);
                if !occurs_at(s, b, q) {
                    None
                } else {
                    let r = q + b.len();
                    src_from_back(s, r, r + not_char_count(s, r, '>'))
                }
            }
        }
    }
}

pub proof fn lemma_src_from_back_end(s: Seq<char>, lo: int, x: int)
    requires
        0 <= lo,
    ensures
        src_from_back(s, lo, x) matches Some((e, u)) ==> lo < e <= s.len(),
    decreases x - lo,
{
    if x > lo {
        lemma_src_from_back_end(s, lo, x - 1);
    }
}

pub proof fn lemma_iframe_src_end(s: Seq<char>, i: int)
    ensures
        iframe_src_at(s, i) matches Some((e, u)) ==> i < e <= s.len(),
{
    if occurs_at(s, "video["@, i) {
        let j = i + "video["@.len();
        let k = j + run_of(s, j, digit_pred());
        let p = k + 1 + ws_count(s, k + 1);
        let q = p + 1 + ws_count(s, p + 1);
        let r = q + "'<iframe"@.len();
        if k != j && k < s.len() && p < s.len() && q >= 0 {
            lemma_src_from_back_end(s, r, r + not_char_count(s, r, '>'));
        }
    }
}

/// The iframe sources of the player script, left to right, each search
/// resuming after the previous match.
pub open spec fn iframe_srcs_from(s: Seq<char>, i: int) -> Seq<Seq<char>>
    decreases s.len() + 1 - i,
{
    if i < 0 || i > s.len() {
        seq![]
    } else {
        match iframe_src_at(s, i) {
            Some((e, u)) => {
                proof {
                    lemma_iframe_src_end(s, i);
                }
                seq![u] + iframe_srcs_from(s, e)
            },
            None => iframe_srcs_from(s, i + 1),
        }
    }
}

/// The text of each `a.servers.btn-show` element of an HTML document, in
/// document order.
pub uninterp spec fn server_button_texts(html: Seq<char>) -> Seq<Seq<char>>;

pub open spec fn strings_view(v: Seq<String>) -> Seq<Seq<char>> {
    Seq::new(v.len(), |i: int| v[i]@)
}

/// `scraper::Html::parse_document`, then `select` with the selector
/// `a.servers.btn-show`: the text of each selected element, in document
/// order. The contract only names the result ([`server_button_texts`]); how
/// HTML is parsed is not described.
#[verifier::external_body]
fn select_server_buttons(html: &str) -> (r: Vec<String>)
    ensures
        strings_view(r@) == server_button_texts(html@),
{
    let selector = scraper::Selector::parse("a.servers.btn-show").expect("static selector");
    scraper::Html::parse_document(html).select(&selector).map(
        |element| element.text().collect::<String>(),
    ).collect()
}

/// A JKPlayer embed of an episode page: its server label and URL.
#[derive(Clone, Debug, PartialEq, Eq)]
pub struct PlayerEmbed {
    pub label: String,
    pub url: String,
}

pub open spec fn embeds_view(v: Seq<PlayerEmbed>) -> Seq<(Seq<char>, Seq<char>)> {
    Seq::new(v.len(), |i: int| (v[i].label@, v[i].url@))
}

/// The label of the `k`-th embed: its server button's text, or
/// `Player <k + 1>` when that is missing or blank.
pub open spec fn embed_label(labels: Seq<Seq<char>>, k: int) -> Seq<char> {
    "JKAnime "@ + if 0 <= k < labels.len() && labels[k].len() > 0 {
        labels[k]
    } else {
        "Player "@ + decimal_digits((k + 1) as nat)
    }
}

/// The embeds of the first `n` sources that resolve against `base`.
pub open spec fn embeds_of(
    base: Seq<char>,
    labels: Seq<Seq<char>>,
    srcs: Seq<Seq<char>>,
    n: int,
) -> Seq<(Seq<char>, Seq<char>)>
    decreases n,
{
    if n <= 0 {
        seq![]
    } else {
        let prev = embeds_of(base, labels, srcs, n - 1);
        match url_join(base, srcs[n - 1]) {
            Ok(u) => prev.push((embed_label(labels, n - 1), u.serialization)),
            Err(_) => prev,
        }
    }
}

pub open spec fn button_labels(html: Seq<char>) -> Seq<Seq<char>> {
    collapsed_labels(server_button_texts(html))
}

/// Server button texts with their whitespace runs collapsed.
pub open spec fn collapsed_labels(texts: Seq<Seq<char>>) -> Seq<Seq<char>> {
    Seq::new(texts.len(), |i: int| collapse_ws(texts[i]))
}

/// The embeds of an episode page whose server buttons read `texts` (see
/// [`spec_player_embeds`]).
pub open spec fn embeds_with_texts(base: Seq<char>, html: Seq<char>, texts: Seq<Seq<char>>) -> Seq<
    (Seq<char>, Seq<char>),
> {
    match url_parse(base) {
        Err(_) => seq![],
        Ok(b) => {
            let srcs = iframe_srcs_from(html, 0);
            embeds_of(b.serialization, collapsed_labels(texts), srcs, srcs.len() as int)
        },
    }
}

/// The JKPlayer embeds of an episode page: each iframe source of the
/// player script resolved against the catalog base, labelled by the server
/// button at the same index; none when the base does not parse.
pub open spec fn spec_player_embeds(base: Seq<char>, html: Seq<char>) -> Seq<
    (Seq<char>, Seq<char>),
> {
    match url_parse(base) {
        Err(_) => seq![],
        Ok(b) => {
            let srcs = iframe_srcs_from(html, 0);
            embeds_of(b.serialization, button_labels(html), srcs, srcs.len() as int)
        },
    }
}

fn src_tail_exec(s: &[char], m: &[char], x: usize) -> (r: Option<(usize, Vec<char>)>)
    requires
        m@ == src_marker(),
    ensures
        match (r, src_tail(s@, x as int)) {
            (Some((e, u)), Some((f, v))) => e == f && u@ == v,
            (None, None) => true,
            _ => false,
        },
{
    let n = s.len();
    let c = match literal_at(s, m, x) {
        Some(c) => c,
        None => {
            return None;
        },
    };
    let t = not_char_run(s, c, '"');
    if t > c && t < n {
        Some((t + 1, subrange_vec(s, c, t)))
    } else {
        None
    }
}

fn iframe_src_exec(s: &[char], a: &[char], b: &[char], m: &[char], i: usize) -> (r: Option<
    (usize, Vec<char>),
>)
    requires
        a@ == "video["@,
        b@ == "'<iframe"@,
        m@ == src_marker(),
    ensures
        match (r, iframe_src_at(s@, i as int)) {
            (Some((e, u)), Some((f, v))) => e == f && u@ == v,
            (None, None) => true,
            _ => false,
        },
{
    let n = s.len();
    let j = match literal_at(s, a, i) {
        Some(j) => j,
        None => {
            return None;
        },
    };
    let k = digit_run(s, j);
    if k == j || !(k < n && s[k] == ']') {
        return None;
    }
    let p = ws_run(s, k + 1);
    if !(p < n && s[p] == '=') {
        return None;
    }
    let q = ws_run(s, p + 1);
    let r = match literal_at(s, b, q) {
        Some(r) => r,
        None => {
            return None;
        },
    };
    let hi = not_char_run(s, r, '>');
    let mut x = hi;
    while x > r
        invariant
            n == s@.len(),
            r <= x <= hi <= n,
            m@ == src_marker(),
            iframe_src_at(s@, i as int) == src_from_back(s@, r as int, x as int),
        decreases x - r,
    {
        match src_tail_exec(s, m, x) {
            Some(t) => {
                return Some(t);
            },
            None => {},
        }
        x = x - 1;
    }
    None
}

fn iframe_srcs(s: &Vec<char>) -> (r: Vec<Vec<char>>)
    ensures
        views(r@) == iframe_srcs_from(s@, 0),
{
    let a = chars_of("video[");
    let b = chars_of("'<iframe");
    let m = chars_of("src=\"");
    let n = s.len();
    let mut out: Vec<Vec<char>> = Vec::new();
    let mut i: usize = 0;
    loop
        invariant
            n == s@.len(),
            a@ == "video["@,
            b@ == "'<iframe"@,
            m@ == src_marker(),
            i <= n,
            iframe_srcs_from(s@, 0) == views(out@) + iframe_srcs_from(s@, i as int),
        decreases n - i,
    {
        match iframe_src_exec(s, &a, &b, &m, i) {
            Some((e, u)) => {
                proof {
                    lemma_iframe_src_end(s@, i as int);
                }
                let ghost before = views(out@);
                let ghost rest = iframe_srcs_from(s@, e as int);
                assert(iframe_srcs_from(s@, i as int) == seq![u@] + rest);
                out.push(u);
                assert(views(out@) =~= before.push(u@));
                assert(before + (seq![u@] + rest) =~= views(out@) + rest);
                i = e;
            },
            None => {
                if i == n {
                    assert(iframe_srcs_from(s@, (n + 1) as int) == Seq::<Seq<char>>::empty());
                    assert(views(out@) + Seq::<Seq<char>>::empty() =~= views(out@));
                    return out;
                }
                i = i + 1;
            },
        }
    }
}

fn embed_label_exec(labels: &Vec<Vec<char>>, k: usize) -> (r: String)
    requires
        k < usize::MAX,
    ensures
        r@ == embed_label(views(labels@), k as int),
{
    let mut out = chars_of("JKAnime ");
    if k < labels.len() && labels[k].len() > 0 {
        let mut i: usize = 0;
        let ghost start = out@;
        let l = &labels[k];
        while i < l.len()
            invariant
                i <= l@.len(),
                out@ == start + l@.take(i as int),
            decreases l@.len() - i,
        {
            out.push(l[i]);
            i = i + 1;
            assert(out@ =~= start + l@.take(i as int));
        }
        assert(l@.take(i as int) =~= l@);
        assert(views(labels@)[k as int] == l@);
    } else {
        let ghost start = out@;
        let p = chars_of("Player ");
        let mut i: usize = 0;
        while i < p.len()
            invariant
                i <= p@.len(),
                out@ == start + p@.take(i as int),
            decreases p@.len() - i,
        {
            out.push(p[i]);
            i = i + 1;
            assert(out@ =~= start + p@.take(i as int));
        }
        assert(p@.take(i as int) =~= p@);
        let idx: usize = k + 1;
        push_decimal(&mut out, idx as u64);
        assert(out@ =~= start + ("Player "@ + decimal_digits((k + 1) as nat)));
    }
    string_of(&out)
}

/// The JKPlayer embeds of an episode page (see [`spec_player_embeds`]).
pub fn parse_player_embeds(base: &str, html: &str) -> (r: Vec<PlayerEmbed>)
    ensures
        embeds_view(r@) == spec_player_embeds(base@, html@),
{
    let texts = select_server_buttons(html);
    embeds_of_buttons(base, html, &texts)
}

/// The JKPlayer embeds of an episode page whose server buttons read
/// `texts` (see [`embeds_with_texts`]).
pub fn embeds_of_buttons(base: &str, html: &str, texts: &Vec<String>) -> (r: Vec<PlayerEmbed>)
    ensures
        embeds_view(r@) == embeds_with_texts(base@, html@, strings_view(texts@)),
{
    let mut labels: Vec<Vec<char>> = Vec::new();
    let mut t: usize = 0;
    while t < texts.len()
        invariant
            t <= texts@.len(),
            views(labels@) =~= collapsed_labels(strings_view(texts@)).take(t as int),
        decreases texts@.len() - t,
    {
        assert(strings_view(texts@)[t as int] == texts@[t as int]@);
        let ghost before = views(labels@);
        let label = collapse_whitespace(&chars_of(texts[t].as_str()));
        assert(label@ == collapsed_labels(strings_view(texts@))[t as int]);
        labels.push(label);
        assert(views(labels@) =~= before.push(label@));
        assert(collapsed_labels(strings_view(texts@)).take(t + 1) =~= collapsed_labels(strings_view(texts@)).take(t as int).push(label@));
        t = t + 1;
    }
    assert(collapsed_labels(strings_view(texts@)).take(t as int) =~= collapsed_labels(strings_view(texts@)));
    let parsed = match parse_remote(base) {
        Ok(u) => u,
        Err(_) => {
            let none: Vec<PlayerEmbed> = Vec::new();
            assert(embeds_view(none@) =~= seq![]);
            return none;
        },
    };
    let s = chars_of(html);
    let srcs = iframe_srcs(&s);
    let ghost bs = parsed@.serialization;
    let ghost sv = views(srcs@);
    let mut out: Vec<PlayerEmbed> = Vec::new();
    let mut k: usize = 0;
    assert(embeds_view(out@) =~= embeds_of(bs, views(labels@), sv, 0));
    while k < srcs.len()
        invariant
            k <= srcs@.len(),
            sv == views(srcs@),
            sv == iframe_srcs_from(html@, 0),
            bs == parsed@.serialization,
            url_parse(base@) == Ok::<UrlView, Seq<char>>(parsed@),
            views(labels@) == collapsed_labels(strings_view(texts@)),
            embeds_view(out@) == embeds_of(bs, views(labels@), sv, k as int),
        decreases srcs@.len() - k,
    {
        let reference = string_of(&srcs[k]);
        assert(sv[k as int] == srcs@[k as int]@);
        match join_remote(&parsed, reference.as_str()) {
            Ok(u) => {
                let ghost before = embeds_view(out@);
                let label = embed_label_exec(&labels, k);
                out.push(PlayerEmbed { label, url: u.as_str().to_owned() });
                assert(embeds_view(out@) =~= before.push((label@, u@.serialization)));
            },
            Err(_) => {},
        }
        k = k + 1;
    }
    out
}

// ---------- search listings ----------

/// What the search page says of one show card (`div[data-g]`): its
/// `data-g` attribute, the `href` of each link inside it, and the text of
/// its first `h5` heading.
#[derive(Clone, Debug, PartialEq, Eq)]
pub struct SearchCard {
    pub data_g: Option<String>,
    pub hrefs: Vec<String>,
    pub heading: Option<String>,
}

pub ghost struct CardView {
    pub data_g: Option<Seq<char>>,
    pub hrefs: Seq<Seq<char>>,
    pub heading: Option<Seq<char>>,
}

impl View for SearchCard {
    type V = CardView;

    open spec fn view(&self) -> CardView {
        CardView {
            data_g: opt_string_view(self.data_g),
            hrefs: strings_view(self.hrefs@),
            heading: opt_string_view(self.heading),
        }
    }
}

/// The show cards of a search page, in document order.
pub uninterp spec fn search_cards(html: Seq<char>) -> Seq<CardView>;

/// `scraper::Html::parse_document`, then `select` with `div[data-g]`: for
/// each card, its `data-g` attribute, the `href` of each `a[href]` inside
/// it, and the text of its first `h5`. The contract only names the result
/// ([`search_cards`]).
#[verifier::external_body]
fn select_search_cards(html: &str) -> (r: Vec<SearchCard>)
    ensures
        r@.len() == search_cards(html@).len(),
        forall|k: int| 0 <= k < r@.len() ==> #[trigger] r@[k]@ == search_cards(html@)[k],
{
    let cards = scraper::Selector::parse("div[data-g]").expect("static selector");
    let links = scraper::Selector::parse("a[href]").expect("static selector");
    let titles = scraper::Selector::parse("h5").expect("static selector");
    scraper::Html::parse_document(html).select(&cards).map(|card| SearchCard {
        data_g: card.value().attr("data-g").map(str::to_owned),
        hrefs: card.select(&links).filter_map(|link| link.value().attr("href")).map(str::to_owned).collect(),
        heading: card.select(&titles).next().map(|title| title.text().collect::<String>()),
    }).collect()
}

/// The numeric show id a card carries: its `data-g` decoded from base64,
/// when that is a non-empty run of ASCII digits.
pub open spec fn card_anime_id(c: CardView) -> Option<Seq<char>> {
    match c.data_g {
        None => None,
        Some(v) => match base64_decoded(v) {
            None => None,
            Some(b) => digits_id(b),
        },
    }
}

/// Decoded bytes as a numeric show id: a non-empty run of ASCII digits.
pub open spec fn digits_id(b: Seq<u8>) -> Option<Seq<char>> {
    if b.len() > 0 && forall|k: int| 0 <= k < b.len() ==> 48 <= #[trigger] b[k] <= 57 {
        Some(Seq::new(b.len(), |k: int| (b[k] as u32) as char))
    } else {
        None
    }
}

/// `trim_matches('/')`.
pub open spec fn trim_slashes(s: Seq<char>) -> Seq<char>
    decreases s.len(),
{
    if s.len() > 0 && s[0] == '/' {
        trim_slashes(s.drop_first())
    } else if s.len() > 0 && s.last() == '/' {
        trim_slashes(s.drop_last())
    } else {
        s
    }
}

/// The host a link must have: the catalog base's, or empty.
pub open spec fn base_host(base: UrlView) -> Seq<char> {
    match base.host {
        Some(h) => h,
        None => seq![],
    }
}

/// The show slug a link names: resolved against the base, an `https` URL
/// on the base's host whose path, without its slashes, is one valid slug.
pub open spec fn href_slug(base: UrlView, href: Seq<char>) -> Option<Seq<char>> {
    match url_join(base.serialization, href) {
        Err(_) => None,
        Ok(u) => {
            let p = trim_slashes(u.path);
            if u.scheme != "https"@ || u.host != Some(base_host(base)) {
                None
            } else if p.len() == 0 || p.contains('/') || !is_valid_slug(p) {
                None
            } else {
                Some(p)
            }
        },
    }
}

/// The slug of the first link, from index `i` on, that names one.
pub open spec fn card_slug(base: UrlView, hrefs: Seq<Seq<char>>, i: int) -> Option<Seq<char>>
    decreases hrefs.len() - i,
{
    if i < 0 || i >= hrefs.len() {
        None
    } else {
        match href_slug(base, hrefs[i]) {
            Some(p) => Some(p),
            None => card_slug(base, hrefs, i + 1),
        }
    }
}

/// A card's display title: its heading with whitespace collapsed, or the
/// slug with spaces for dashes when that is blank or missing.
pub open spec fn card_title(c: CardView, slug: Seq<char>) -> Seq<char> {
    match c.heading {
        Some(h) => if collapse_ws(h).len() > 0 {
            collapse_ws(h)
        } else {
            dashes_to_spaces(slug)
        },
        None => dashes_to_spaces(slug),
    }
}

/// The shows listed by the cards from index `i` on, given the slugs
/// already listed: `(slug, anime id, title)`, one per slug, cards without
/// a slug skipped.
pub open spec fn card_listing(base: UrlView, cards: Seq<CardView>, i: int, seen: Seq<Seq<char>>) -> Seq<
    (Seq<char>, Option<Seq<char>>, Seq<char>),
>
    decreases cards.len() - i,
{
    if i < 0 || i >= cards.len() {
        seq![]
    } else {
        match card_slug(base, cards[i].hrefs, 0) {
            None => card_listing(base, cards, i + 1, seen),
            Some(slug) => if seen.contains(slug) {
                card_listing(base, cards, i + 1, seen)
            } else {
                seq![(slug, card_anime_id(cards[i]), card_title(cards[i], slug))] + card_listing(
                    base,
                    cards,
                    i + 1,
                    seen.push(slug),
                )
            },
        }
    }
}

pub proof fn lemma_card_slug_valid(base: UrlView, hrefs: Seq<Seq<char>>, i: int)
    ensures
        card_slug(base, hrefs, i) matches Some(p) ==> is_valid_slug(p),
    decreases hrefs.len() - i,
{
    if 0 <= i < hrefs.len() {
        lemma_card_slug_valid(base, hrefs, i + 1);
    }
}

pub proof fn lemma_card_listing_fresh(
    base: UrlView,
    cards: Seq<CardView>,
    i: int,
    seen: Seq<Seq<char>>,
)
    ensures
        forall|k: int|
            0 <= k < card_listing(base, cards, i, seen).len() ==> !seen.contains(
                #[trigger] card_listing(base, cards, i, seen)[k].0,
            ) && is_valid_slug(card_listing(base, cards, i, seen)[k].0),
        forall|a: int, b: int|
            0 <= a < b < card_listing(base, cards, i, seen).len() ==> #[trigger] card_listing(
                base,
                cards,
                i,
                seen,
            )[a].0 != #[trigger] card_listing(base, cards, i, seen)[b].0,
    decreases cards.len() - i,
{
    if 0 <= i < cards.len() {
        lemma_card_listing_fresh(base, cards, i + 1, seen);
        lemma_card_slug_valid(base, cards[i].hrefs, 0);
        match card_slug(base, cards[i].hrefs, 0) {
            None => {
                assert(card_listing(base, cards, i, seen) == card_listing(base, cards, i + 1, seen));
            },
            Some(slug) => if seen.contains(slug) {
                assert(card_listing(base, cards, i, seen) == card_listing(base, cards, i + 1, seen));
            } else {
                let r = card_listing(base, cards, i + 1, seen.push(slug));
                lemma_card_listing_fresh(base, cards, i + 1, seen.push(slug));
                let l = card_listing(base, cards, i, seen);
                assert(l == seq![(slug, card_anime_id(cards[i]), card_title(cards[i], slug))] + r);
                assert forall|k: int| 0 <= k < l.len() implies !seen.contains(#[trigger] l[k].0)
                    && is_valid_slug(l[k].0) by {
                    if k > 0 {
                        assert(l[k] == r[k - 1]);
                        if seen.contains(l[k].0) {
                            let j = choose|j: int| 0 <= j < seen.len() && seen[j] == l[k].0;
                            assert(seen.push(slug)[j] == seen[j]);
                        }
                    }
                }
                assert forall|a: int, b: int| 0 <= a < b < l.len() implies #[trigger] l[a].0
                    != #[trigger] l[b].0 by {
                    assert(l[b] == r[b - 1]);
                    if a == 0 {
                        assert(seen.push(slug)[seen.len() as int] == slug);
                    } else {
                        assert(l[a] == r[a - 1]);
                    }
                }
            },
        }
    }
}

/// A search page lists each show slug once, and only valid slugs.
pub proof fn cards_list_each_slug_once(base: UrlView, html: Seq<char>)
    ensures
        forall|k: int|
            0 <= k < card_listing(base, search_cards(html), 0, seq![]).len() ==> is_valid_slug(
                #[trigger] card_listing(base, search_cards(html), 0, seq![])[k].0,
            ),
        forall|a: int, b: int|
            0 <= a < b < card_listing(base, search_cards(html), 0, seq![]).len()
                ==> #[trigger] card_listing(base, search_cards(html), 0, seq![])[a].0
                != #[trigger] card_listing(base, search_cards(html), 0, seq![])[b].0,
{
    lemma_card_listing_fresh(base, search_cards(html), 0, seq![]);
}

/// A show listed by a search page.
#[derive(Clone, Debug, PartialEq, Eq)]
pub struct ListedShow {
    pub slug: String,
    pub anime_id: Option<String>,
    pub title: String,
}

pub open spec fn listed_view(v: Seq<ListedShow>) -> Seq<(Seq<char>, Option<Seq<char>>, Seq<char>)> {
    Seq::new(v.len(), |i: int| (v[i].slug@, opt_string_view(v[i].anime_id), v[i].title@))
}

fn anime_id_of(c: &SearchCard) -> (r: Option<String>)
    ensures
        opt_string_view(r) == card_anime_id(c@),
{
    let text = match &c.data_g {
        Some(t) => t,
        None => {
            return None;
        },
    };
    match decode_base64(text.as_str()) {
        Some(b) => anime_id_of_bytes(&b),
        None => None,
    }
}

/// The numeric show id held by the decoded `data-g` bytes of a card (see
/// [`digits_id`]).
pub fn anime_id_of_bytes(bytes: &[u8]) -> (r: Option<String>)
    ensures
        opt_string_view(r) == digits_id(bytes@),
{
    if bytes.len() == 0 {
        return None;
    }
    let mut out: Vec<char> = Vec::new();
    let mut k: usize = 0;
    while k < bytes.len()
        invariant
            k <= bytes@.len(),
            out@.len() == k,
            forall|m: int| 0 <= m < k ==> 48 <= #[trigger] bytes@[m] <= 57,
            forall|m: int| 0 <= m < k ==> #[trigger] out@[m] == (bytes@[m] as u32) as char,
        decreases bytes@.len() - k,
    {
        let b = bytes[k];
        if b < 48 || b > 57 {
            proof {
                let bs = bytes@;
                assert(bs[k as int] < 48 || bs[k as int] > 57);
                assert(!(forall|m: int| 0 <= m < bs.len() ==> 48 <= #[trigger] bs[m] <= 57));
            }
            return None;
        }
        out.push(b as char);
        k = k + 1;
    }
    let ghost b = bytes@;
    assert(out@ =~= Seq::new(b.len(), |m: int| (b[m] as u32) as char));
    Some(string_of(&out))
}

fn trim_slashes_exec(s: &[char]) -> (r: Vec<char>)
    ensures
        r@ == trim_slashes(s@),
{
    let n = s.len();
    let mut i: usize = 0;
    let mut j: usize = n;
    assert(s@.subrange(0, n as int) =~= s@);
    while i < j && s[i] == '/'
        invariant
            n == s@.len(),
            i <= j <= n,
            j == n,
            trim_slashes(s@) == trim_slashes(s@.subrange(i as int, j as int)),
        decreases j - i,
    {
        assert(s@.subrange(i as int, j as int).drop_first() =~= s@.subrange(i + 1, j as int));
        i = i + 1;
    }
    while j > i && s[j - 1] == '/'
        invariant
            n == s@.len(),
            i <= j <= n,
            i < j ==> s@[i as int] != '/',
            trim_slashes(s@) == trim_slashes(s@.subrange(i as int, j as int)),
        decreases j - i,
    {
        proof {
            let t = s@.subrange(i as int, j as int);
            assert(t.drop_last() =~= s@.subrange(i as int, j - 1));
            assert(t[0] == s@[i as int]);
        }
        j = j - 1;
    }
    proof {
        let t = s@.subrange(i as int, j as int);
        if t.len() > 0 {
            assert(t[0] == s@[i as int]);
            assert(t.last() == s@[j - 1]);
        }
    }
    subrange_vec(s, i, j)
}

fn href_slug_exec(base: &ParsedUrl, host: &[char], href: &str) -> (r: Option<Vec<char>>)
    requires
        host@ == base_host(base@),
    ensures
        match (r, href_slug(base@, href@)) {
            (Some(x), Some(y)) => x@ == y,
            (None, None) => true,
            _ => false,
        },
{
    let u = match join_remote(base, href) {
        Ok(u) => u,
        Err(_) => {
            return None;
        },
    };
    let https = chars_eq(&chars_of(u.scheme()), &chars_of("https"));
    let same_host = match u.host() {
        Some(h) => chars_eq(&chars_of(h), host),
        None => false,
    };
    if !https || !same_host {
        return None;
    }
    let p = trim_slashes_exec(&chars_of(u.path()));
    let n = p.len();
    let slash = index_of_char(&p, '/', 0);
    proof {
        assert(p@.skip(0) =~= p@);
        if slash < n {
            assert(p@.contains('/'));
        } else {
            assert(!p@.contains('/'));
        }
    }
    if n == 0 || slash < n || !slug_is_valid(&p) {
        return None;
    }
    Some(p)
}

fn contains_seen(seen: &Vec<Vec<char>>, t: &[char]) -> (b: bool)
    ensures
        b == views(seen@).contains(t@),
{
    let mut k: usize = 0;
    while k < seen.len()
        invariant
            k <= seen@.len(),
            forall|m: int| 0 <= m < k ==> views(seen@)[m] != t@,
        decreases seen@.len() - k,
    {
        if crate::text::chars_eq(&seen[k], t) {
            assert(views(seen@)[k as int] == t@);
            return true;
        }
        k = k + 1;
    }
    false
}

fn card_slug_exec(base: &ParsedUrl, host: &[char], hrefs: &Vec<String>) -> (r: Option<Vec<char>>)
    requires
        host@ == base_host(base@),
    ensures
        match (r, card_slug(base@, strings_view(hrefs@), 0)) {
            (Some(x), Some(y)) => x@ == y,
            (None, None) => true,
            _ => false,
        },
{
    let ghost hs = strings_view(hrefs@);
    let mut k: usize = 0;
    while k < hrefs.len()
        invariant
            k <= hrefs@.len(),
            hs == strings_view(hrefs@),
            host@ == base_host(base@),
            card_slug(base@, hs, 0) == card_slug(base@, hs, k as int),
        decreases hrefs@.len() - k,
    {
        assert(hs[k as int] == hrefs@[k as int]@);
        match href_slug_exec(base, host, hrefs[k].as_str()) {
            Some(p) => {
                return Some(p);
            },
            None => {},
        }
        k = k + 1;
    }
    None
}

pub open spec fn cards_view(cards: Seq<SearchCard>) -> Seq<CardView> {
    Seq::new(cards.len(), |k: int| cards[k]@)
}

/// The shows a search page lists (see [`card_listing`]), or the parse
/// error of the catalog base.
pub fn search_listing(base: &str, html: &str) -> (r: Result<Vec<ListedShow>>)
    ensures
        match url_parse(base@) {
            Err(m) => r matches Err(AniError::Url(e)) && e@ == m,
            Ok(b) => r matches Ok(v) && listed_view(v@) == card_listing(
                b,
                search_cards(html@),
                0,
                seq![],
            ),
        },
{
    let cards = select_search_cards(html);
    assert(cards_view(cards@) =~= search_cards(html@));
    listing_of_cards(base, &cards)
}

/// The shows listed by the cards of a search page (see [`card_listing`]),
/// or the parse error of the catalog base.
pub fn listing_of_cards(base: &str, cards: &Vec<SearchCard>) -> (r: Result<Vec<ListedShow>>)
    ensures
        match url_parse(base@) {
            Err(m) => r matches Err(AniError::Url(e)) && e@ == m,
            Ok(b) => r matches Ok(v) && listed_view(v@) == card_listing(
                b,
                cards_view(cards@),
                0,
                seq![],
            ),
        },
{
    let parsed = parse_remote(base)?;
    let host = match parsed.host() {
        Some(h) => chars_of(h),
        None => Vec::new(),
    };
    let ghost cs = cards_view(cards@);
    let ghost b = parsed@;
    let mut seen: Vec<Vec<char>> = Vec::new();
    let mut out: Vec<ListedShow> = Vec::new();
    let mut i: usize = 0;
    assert(views(seen@) =~= Seq::<Seq<char>>::empty());
    assert(listed_view(out@) =~= seq![]);
    while i < cards.len()
        invariant
            i <= cards@.len(),
            cards@.len() == cs.len(),
            forall|k: int| 0 <= k < cards@.len() ==> #[trigger] cards@[k]@ == cs[k],
            b == parsed@,
            host@ == base_host(b),
            card_listing(b, cs, 0, seq![]) == listed_view(out@) + card_listing(
                b,
                cs,
                i as int,
                views(seen@),
            ),
        decreases cards@.len() - i,
    {
        let card = &cards[i];
        assert(card@ == cs[i as int]);
        let slug = card_slug_exec(&parsed, &host, &card.hrefs);
        let ghost before = listed_view(out@);
        let ghost before_seen = views(seen@);
        assert(strings_view(card.hrefs@) == cs[i as int].hrefs);
        match slug {
            None => {
                assert(card_listing(b, cs, i as int, before_seen) == card_listing(b, cs, i + 1, before_seen));
            },
            Some(p) => {
                if contains_seen(&seen, &p) {
                    assert(card_listing(b, cs, i as int, before_seen) == card_listing(b, cs, i + 1, before_seen));
                } else {
                    let heading = match &card.heading {
                        Some(h) => {
                            let c = collapse_whitespace(&chars_of(h.as_str()));
                            if c.len() > 0 {
                                Some(c)
                            } else {
                                None
                            }
                        },
                        None => None,
                    };
                    let slug_text = string_of(&p);
                    let title = match heading {
                        Some(c) => string_of(&c),
                        None => crate::providers::slug_title(slug_text.as_str()),
                    };
                    let anime_id = anime_id_of(card);
                    let ghost pv = p@;
                    assert(title@ == card_title(cs[i as int], pv));
                    let entry = ListedShow { slug: slug_text, anime_id, title };
                    out.push(entry);
                    seen.push(p);
                    proof {
                        let x = (pv, card_anime_id(cs[i as int]), card_title(cs[i as int], pv));
                        assert(views(seen@) =~= before_seen.push(pv));
                        assert(card_listing(b, cs, i as int, before_seen) == seq![x] + card_listing(
                            b,
                            cs,
                            i + 1,
                            before_seen.push(pv),
                        ));
                        assert(listed_view(out@) =~= before.push(x));
                        assert(before + (seq![x] + card_listing(b, cs, i + 1, views(seen@)))
                            =~= listed_view(out@) + card_listing(b, cs, i + 1, views(seen@)));
                    }
                }
            },
        }
        i = i + 1;
    }
    assert(listed_view(out@) + Seq::<(Seq<char>, Option<Seq<char>>, Seq<char>)>::empty()
        =~= listed_view(out@));
    Ok(out)
}

// ---------- player pages ----------

/// A safe remote URL on `domain`'s hosts: the URL; a URL that is not safe
/// is refused as [`validate_remote_url`] refuses it; one on another host
/// is refused with `message` followed by that host.
pub open spec fn on_domain(value: Seq<char>, domain: Seq<char>, message: Seq<char>, r: Result<
    ParsedUrl,
>) -> bool {
    if !is_remote_url_ok(value) {
        validated(value, r)
    } else {
        let p = url_parse(value)->Ok_0;
        if spec_host_matches(p.host->0, domain) {
            r matches Ok(u) && u@ == p
        } else {
            r matches Err(AniError::Provider(m)) && m@ == message + p.host->0
        }
    }
}

/// Checks a URL against a provider's domain (see [`on_domain`]).
pub fn url_on_domain(value: &str, domain: &str, message: &str) -> (r: Result<ParsedUrl>)
    ensures
        on_domain(value@, domain@, message@, r),
{
    let u = validate_remote_url(value)?;
    let host = match u.host() {
        Some(h) => h,
        None => "",
    };
    if host_matches(host, domain) {
        Ok(u)
    } else {
        let mut m = message.to_owned();
        m.append(host);
        Err(AniError::Provider(m))
    }
}

// ---------- request URLs ----------

/// The page of show `slug`: `<base>/<slug>/`, the slug escaped as a form
/// value ([`form_escaped`]).
pub fn show_page(base: &str, slug: &str) -> (r: String)
    ensures
        r@ == base@ + "/"@ + form_escaped(slug@) + "/"@,
{
    let parts = [("/", slug)];
    let r = catalog_url(base, &parts, "/");
    proof {
        let ps = Seq::new(parts@.len(), |k: int| (parts@[k].0@, parts@[k].1@));
        assert(ps.drop_last() =~= Seq::<(Seq<char>, Seq<char>)>::empty());
        assert(escaped_path(base@, ps.drop_last()) == base@);
    }
    r
}

/// The page of episode `episode` of show `slug`:
/// `<base>/<slug>/<episode>/`, both escaped as form values.
pub fn episode_page(base: &str, slug: &str, episode: &str) -> (r: String)
    ensures
        r@ == base@ + "/"@ + form_escaped(slug@) + "/"@ + form_escaped(episode@) + "/"@,
{
    let parts = [("/", slug), ("/", episode)];
    let r = catalog_url(base, &parts, "/");
    proof {
        let ps = Seq::new(parts@.len(), |k: int| (parts@[k].0@, parts@[k].1@));
        let one = ps.drop_last();
        assert(one.drop_last() =~= Seq::<(Seq<char>, Seq<char>)>::empty());
        assert(escaped_path(base@, one.drop_last()) == base@);
        assert(escaped_path(base@, one) == base@ + "/"@ + form_escaped(slug@));
    }
    r
}

/// Page `page` of the episode endpoint of the show with numeric id
/// `anime_id`: `<base>/ajax/episodes/<anime_id>/<page>`, the id escaped as
/// a form value.
pub fn episode_list_url(base: &str, anime_id: &str, page: u64) -> (r: String)
    ensures
        r@ == base@ + "/ajax/episodes/"@ + form_escaped(anime_id@) + "/"@ + decimal_digits(
            page as nat,
        ),
{
    let parts = [("/ajax/episodes/", anime_id)];
    let mut r = catalog_url(base, &parts, "/");
    proof {
        let ps = Seq::new(parts@.len(), |k: int| (parts@[k].0@, parts@[k].1@));
        assert(ps.drop_last() =~= Seq::<(Seq<char>, Seq<char>)>::empty());
        assert(escaped_path(base@, ps.drop_last()) == base@);
    }
    let mut digits: Vec<char> = Vec::new();
    push_decimal(&mut digits, page);
    assert(digits@ =~= decimal_digits(page as nat));
    r.append(string_of(&digits).as_str());
    r
}

/// A JKPlayer page URL: a safe URL on JKAnime's own hosts.
pub fn player_page_url(url: &str) -> (r: Result<ParsedUrl>)
    ensures
        on_domain(url@, "jkanime.net"@, "unsupported JKAnime embed host "@, r),
{
    url_on_domain(url, "jkanime.net", "unsupported JKAnime embed host ")
}

/// What `String::from_utf8` makes of a byte string: its text, or `None`
/// for bytes that are not UTF-8.
pub uninterp spec fn utf8_text(b: Seq<u8>) -> Option<Seq<char>>;

/// `String::from_utf8`: the text the bytes encode, `None` when they are not
/// UTF-8. The result is named ([`utf8_text`]), not described.
#[verifier::external_body]
fn decode_utf8(bytes: Vec<u8>) -> (r: Option<String>)
    ensures
        opt_string_view(r) == utf8_text(bytes@),
{
    String::from_utf8(bytes).ok()
}

/// The media URL a JKPlayer page plays: its base64 payload decoded as UTF-8
/// text, trimmed, and checked as [`validate_remote_url`] checks it.
pub open spec fn player_media_outcome(html: Seq<char>, r: Result<ParsedUrl>) -> bool {
    match spec_parse_embedded_media(html) {
        None => r matches Err(AniError::Provider(m)) && m@
            == "JKPlayer page exposed no playable media URL"@,
        Some(encoded) => match base64_decoded(encoded) {
            None => r matches Err(AniError::Provider(m)) && m@
                == "JKPlayer media payload was not valid base64"@,
            Some(bytes) => match utf8_text(bytes) {
                None => r matches Err(AniError::Provider(m)) && m@
                    == "JKPlayer media payload was not UTF-8"@,
                Some(text) => validated(trim(text), r),
            },
        },
    }
}

/// The media URL of a JKPlayer page (see [`player_media_outcome`]).
pub fn player_media(html: &str) -> (r: Result<ParsedUrl>)
    ensures
        player_media_outcome(html@, r),
{
    let encoded = match parse_embedded_media(html) {
        Some(e) => e,
        None => {
            return Err(AniError::Provider("JKPlayer page exposed no playable media URL".to_owned()));
        },
    };
    let bytes = match decode_base64(encoded.as_str()) {
        Some(b) => b,
        None => {
            return Err(AniError::Provider("JKPlayer media payload was not valid base64".to_owned()));
        },
    };
    media_of_bytes(bytes)
}

/// The media URL held by the decoded bytes of a JKPlayer payload: the bytes
/// read as UTF-8 text, then as [`media_of_text`] reads it.
pub fn media_of_bytes(bytes: Vec<u8>) -> (r: Result<ParsedUrl>)
    ensures
        match utf8_text(bytes@) {
            None => r matches Err(AniError::Provider(m)) && m@
                == "JKPlayer media payload was not UTF-8"@,
            Some(text) => validated(trim(text), r),
        },
{
    let text = match decode_utf8(bytes) {
        Some(t) => t,
        None => {
            return Err(AniError::Provider("JKPlayer media payload was not UTF-8".to_owned()));
        },
    };
    media_of_text(text.as_str())
}

/// The media URL a decoded JKPlayer payload names: the text trimmed and
/// checked as [`validate_remote_url`] checks it.
pub fn media_of_text(text: &str) -> (r: Result<ParsedUrl>)
    ensures
        validated(trim(text@), r),
{
    let trimmed = string_of(&trim_chars(&chars_of(text)));
    validate_remote_url(trimmed.as_str())
}

/// A direct (not HLS) link of `provider` to `url`, at quality `Auto`, with
/// no headers and no subtitles, not offered for download.
pub fn direct_link(url: &ParsedUrl, provider: &str) -> (l: StreamLink)
    ensures
        l.url@ == url@.serialization,
        l.resolution@ == "Auto"@,
        !l.hls,
        l.provider@ == provider@,
        !l.downloadable,
        l.headers.referer is None,
        l.headers.origin is None,
        l.headers.extra@ == Map::<String, String>::empty(),
        l.subtitles@.len() == 0,
{
    StreamLink {
        url: url.as_str().to_owned(),
        resolution: "Auto".to_owned(),
        hls: false,
        provider: provider.to_owned(),
        downloadable: false,
        headers: RequestHeaders::default(),
        subtitles: Vec::new(),
    }
}

} // verus!
