//! TioAnime: client settings, the arrays its pages embed (episodes and
//! video servers), its search listings, YourUpload streams, and the hint
//! that lists browser-only servers when no stream resolves.

use std::collections::BTreeMap;
use std::time::Duration;

use vstd::prelude::*;

use crate::error::{AniError, Result};
use crate::jkanime::{duration_from_secs, seconds, trim_end_slashes, without_trailing_slashes};
use crate::providers::{
    after_prefix, base64_decoded, decode_base64, entry_title, entry_title_of, is_valid_slug,
    catalog_url, escaped_path, form_escaped, join_with, opt_bytes, opt_string_view, settle_show_id, settled, slug_is_valid,
    strip_prefix_text, ShowIdPayload, ShowIdReading,
};
use crate::scan::{
    lemma_leftmost_step, leftmost_from, literal_at, not_char_count, not_char_run, ws_count, ws_run,
};
use crate::jkanime::{on_domain, url_on_domain};
use crate::models::{RequestHeaders, StreamLink};
use crate::remote::{is_remote_url_ok, url_parse, validate_remote_url, ParsedUrl, UrlView};
use crate::text::{
    chars_eq, chars_of, contains_chars, has_sub, lower, lower_chars, occurs_at, string_of,
    subrange_vec, trim, trim_chars, views,
};

verus! {

/// Default catalog base.
pub const DEFAULT_BASE: &'static str = "https://tioanime.com";

/// Default browser user agent.
pub const DEFAULT_AGENT: &'static str = "Mozilla/5.0 (Windows NT 10.0; Win64; x64) AppleWebKit/537.36 (KHTML, like Gecko) Chrome/138.0.0.0 Safari/537.36";

/// Settings of a TioAnime client: catalog base, user agent and timeout.
#[derive(Debug)]
pub struct TioAnimeClientBuilder {
    base: String,
    user_agent: String,
    timeout: Duration,
}

impl Clone for TioAnimeClientBuilder {
    fn clone(&self) -> (b: Self)
        ensures
            b == *self,
    {
        TioAnimeClientBuilder {
            base: self.base.clone(),
            user_agent: self.user_agent.clone(),
            timeout: self.timeout,
        }
    }
}

impl Default for TioAnimeClientBuilder {
    fn default() -> (b: Self)
        ensures
            b.spec_base() == DEFAULT_BASE@,
            b.spec_user_agent() == DEFAULT_AGENT@,
            b.spec_timeout() == seconds(15),
    {
        TioAnimeClientBuilder {
            base: DEFAULT_BASE.to_owned(),
            user_agent: DEFAULT_AGENT.to_owned(),
            timeout: duration_from_secs(15),
        }
    }
}

impl TioAnimeClientBuilder {
    pub closed spec fn spec_base(self) -> Seq<char> {
        self.base@
    }

    pub closed spec fn spec_user_agent(self) -> Seq<char> {
        self.user_agent@
    }

    pub closed spec fn spec_timeout(self) -> Duration {
        self.timeout
    }

    /// Replaces the catalog base URL.
    pub fn base_url(self, value: &str) -> (b: Self)
        ensures
            b.spec_base() == value@,
            b.spec_user_agent() == self.spec_user_agent(),
            b.spec_timeout() == self.spec_timeout(),
    {
        TioAnimeClientBuilder { base: value.to_owned(), ..self }
    }

    /// Replaces the request timeout.
    pub fn timeout(self, value: Duration) -> (b: Self)
        ensures
            b.spec_base() == self.spec_base(),
            b.spec_user_agent() == self.spec_user_agent(),
            b.spec_timeout() == value,
    {
        TioAnimeClientBuilder { timeout: value, ..self }
    }

    /// The base the client requests, without trailing slashes.
    pub fn client_base(&self) -> (r: String)
        ensures
            r@ == trim_end_slashes(self.spec_base()),
    {
        without_trailing_slashes(self.base.as_str())
    }

    pub fn user_agent(&self) -> (r: &str)
        ensures
            r@ == self.spec_user_agent(),
    {
        self.user_agent.as_str()
    }

    pub fn request_timeout(&self) -> (r: Duration)
        ensures
            r == self.spec_timeout(),
    {
        self.timeout
    }
}

/// Refuses a text that is not a show slug.
pub fn validate_slug(value: &str) -> (r: Result<()>)
    ensures
        is_valid_slug(value@) ==> r is Ok,
        !is_valid_slug(value@) ==> (r matches Err(AniError::Input(m)) && m@
            == "invalid TioAnime show slug"@),
{
    if slug_is_valid(&chars_of(value)) {
        Ok(())
    } else {
        Err(AniError::Input("invalid TioAnime show slug".to_owned()))
    }
}

// ---------- show ids ----------

/// The bare-slug reading of `t`: the slug, or the slug error.
pub open spec fn bare_reading(t: Seq<char>, f: Result<String>) -> bool {
    if is_valid_slug(t) {
        f matches Ok(s) && s@ == t
    } else {
        f matches Err(AniError::Input(m)) && m@ == "invalid TioAnime show slug"@
    }
}

/// What a TioAnime show id holds. Without the `tioanime:` prefix it is read
/// as a bare slug only. With it, an empty payload is refused; otherwise the
/// payload's base64 bytes (if it decodes) come first, the payload as a bare
/// slug second.
pub open spec fn tio_id_outcome(value: Seq<char>, r: Result<ShowIdPayload>) -> bool {
    match after_prefix(value, "tioanime:"@) {
        None => r matches Ok(p) && p.metadata is None && bare_reading(value, p.fallback),
        Some(t) => if t.len() == 0 {
            r matches Err(AniError::Input(m)) && m@ == "invalid TioAnime show ID"@
        } else {
            r matches Ok(p) && opt_bytes(p.metadata) == base64_decoded(t) && bare_reading(
                t,
                p.fallback,
            )
        },
    }
}

fn bare_slug(t: &str) -> (f: Result<String>)
    ensures
        bare_reading(t@, f),
{
    validate_slug(t)?;
    Ok(t.to_owned())
}

/// Reads a TioAnime show id (see [`tio_id_outcome`]).
pub fn show_id_payload(value: &str) -> (r: Result<ShowIdPayload>)
    ensures
        tio_id_outcome(value@, r),
{
    match strip_prefix_text(value, "tioanime:") {
        None => Ok(ShowIdPayload { metadata: None, fallback: bare_slug(value) }),
        Some(payload) => {
            if chars_of(payload.as_str()).len() == 0 {
                return Err(AniError::Input("invalid TioAnime show ID".to_owned()));
            }
            let metadata = decode_base64(payload.as_str());
            Ok(ShowIdPayload { metadata, fallback: bare_slug(payload.as_str()) })
        },
    }
}

/// Settles a TioAnime show id once its metadata bytes have been read:
/// `parsed_slug` is the slug the metadata names, where they held metadata
/// (see [`settled`]).
pub fn settle_id(payload: ShowIdPayload, parsed_slug: Option<String>) -> (r: Result<ShowIdReading>)
    ensures
        settled(payload, opt_string_view(parsed_slug), "invalid TioAnime show slug"@, r),
{
    settle_show_id(payload, parsed_slug, "invalid TioAnime show slug")
}

/// A prefixed id whose payload is base64 offers the bytes it encodes as
/// metadata, before any bare-slug reading, and metadata that names a valid
/// slug settles the id: an unpadded encoded id is not mistaken for a slug.
pub proof fn encoded_ids_offer_metadata_first(
    t: Seq<char>,
    b: Seq<u8>,
    r: Result<ShowIdPayload>,
    slug: Seq<char>,
    s: Result<ShowIdReading>,
)
    requires
        t.len() > 0,
        base64_decoded(t) == Some(b),
        tio_id_outcome("tioanime:"@ + t, r),
        is_valid_slug(slug),
        r is Ok ==> settled(r->Ok_0, Some(slug), "invalid TioAnime show slug"@, s),
    ensures
        r matches Ok(p) && p.metadata matches Some(m) && m@ == b,
        s == Ok::<ShowIdReading, AniError>(ShowIdReading::Metadata),
{
    let v = "tioanime:"@ + t;
    assert(v.take("tioanime:"@.len() as int) =~= "tioanime:"@);
    assert(v.skip("tioanime:"@.len() as int) =~= t);
}

// ---------- request URLs ----------

/// The page of show `slug`: `<base>/anime/<slug>`, the slug escaped as a
/// form value ([`form_escaped`]). The page answers 404 with a trailing
/// slash.
pub fn anime_page(base: &str, slug: &str) -> (r: String)
    ensures
        r@ == base@ + "/anime/"@ + form_escaped(slug@),
{
    let parts = [("/anime/", slug)];
    let r = catalog_url(base, &parts, "");
    proof {
        reveal_strlit("");
        let ps = Seq::new(parts@.len(), |k: int| (parts@[k].0@, parts@[k].1@));
        assert(ps.drop_last() =~= Seq::<(Seq<char>, Seq<char>)>::empty());
        assert(escaped_path(base@, ps.drop_last()) == base@);
        assert(r@ =~= base@ + "/anime/"@ + form_escaped(slug@));
    }
    r
}

/// The page of episode `episode` of show `slug`:
/// `<base>/ver/<slug>-<episode>`, both escaped as form values.
pub fn episode_page(base: &str, slug: &str, episode: &str) -> (r: String)
    ensures
        r@ == base@ + "/ver/"@ + form_escaped(slug@) + "-"@ + form_escaped(episode@),
{
    let parts = [("/ver/", slug), ("-", episode)];
    let r = catalog_url(base, &parts, "");
    proof {
        reveal_strlit("");
        let ps = Seq::new(parts@.len(), |k: int| (parts@[k].0@, parts@[k].1@));
        let one = ps.drop_last();
        assert(one.drop_last() =~= Seq::<(Seq<char>, Seq<char>)>::empty());
        assert(escaped_path(base@, one.drop_last()) == base@);
        assert(escaped_path(base@, one) == base@ + "/ver/"@ + form_escaped(slug@));
        assert(r@ =~= base@ + "/ver/"@ + form_escaped(slug@) + "-"@ + form_escaped(episode@));
    }
    r
}

// ---------- YourUpload media ----------

/// `<meta\s+property="og:video"\s+content="([^"]+)"` at `i`: the URL.
pub open spec fn og_video_at(s: Seq<char>, i: int) -> Option<Seq<char>> {
    let a = "<meta"@;
    let b = "property=\"og:video\""@;
    let c = "content=\""@;
    if !occurs_at(s, a, i) {
        None
    } else {
        let j = i + a.len();
        let w1 = ws_count(s, j);
        let k = j + w1;
        if w1 == 0 || !occurs_at(s, b, k) {
            None
        } else {
            let m = k + b.len();
            let w2 = ws_count(s, m);
            let p = m + w2;
            if w2 == 0 || !occurs_at(s, c, p) {
                None
            } else {
                let q = p + c.len();
                let t = not_char_count(s, q, '"');
                if t > 0 && q + t < s.len() {
                    Some(s.subrange(q, q + t))
                } else {
                    None
                }
            }
        }
    }
}

pub open spec fn og_video_finder(s: Seq<char>) -> spec_fn(int) -> Option<Seq<char>> {
    |i: int| og_video_at(s, i)
}

/// `file:\s*'([^']+)'` at `i`: the URL.
pub open spec fn player_file_at(s: Seq<char>, i: int) -> Option<Seq<char>> {
    let a = "file:"@;
    if !occurs_at(s, a, i) {
        None
    } else {
        let j = i + a.len();
        let k = j + ws_count(s, j);
        if !(k < s.len() && s[k] == '\'') {
            None
        } else {
            let q = k + 1;
            let t = not_char_count(s, q, '\'');
            if t > 0 && q + t < s.len() {
                Some(s.subrange(q, q + t))
            } else {
                None
            }
        }
    }
}

pub open spec fn player_file_finder(s: Seq<char>) -> spec_fn(int) -> Option<Seq<char>> {
    |i: int| player_file_at(s, i)
}

/// The direct media URL of a YourUpload page: the leftmost `og:video` meta
/// tag's content, else the leftmost player `file: '...'` entry.
pub open spec fn spec_parse_yourupload_media(s: Seq<char>) -> Option<Seq<char>> {
    match leftmost_from(og_video_finder(s), 0, s.len() as int) {
        Some(u) => Some(u),
        None => leftmost_from(player_file_finder(s), 0, s.len() as int),
    }
}

fn og_video_exec(s: &[char], a: &[char], b: &[char], c: &[char], i: usize) -> (r: Option<Vec<char>>)
    requires
        a@ == "<meta"@,
        b@ == "property=\"og:video\""@,
        c@ == "content=\""@,
    ensures
        match (r, og_video_at(s@, i as int)) {
            (Some(x), Some(y)) => x@ == y,
            (None, None) => true,
            _ => false,
        },
{
    let j = match literal_at(s, a, i) {
        Some(j) => j,
        None => {
            return None;
        },
    };
    let k = ws_run(s, j);
    if k == j {
        return None;
    }
    let m = match literal_at(s, b, k) {
        Some(m) => m,
        None => {
            return None;
        },
    };
    let p = ws_run(s, m);
    if p == m {
        return None;
    }
    let q = match literal_at(s, c, p) {
        Some(q) => q,
        None => {
            return None;
        },
    };
    let t = not_char_run(s, q, '"');
    if t > q && t < s.len() {
        Some(subrange_vec(s, q, t))
    } else {
        None
    }
}

fn player_file_exec(s: &[char], a: &[char], i: usize) -> (r: Option<Vec<char>>)
    requires
        a@ == "file:"@,
    ensures
        match (r, player_file_at(s@, i as int)) {
            (Some(x), Some(y)) => x@ == y,
            (None, None) => true,
            _ => false,
        },
{
    let j = match literal_at(s, a, i) {
        Some(j) => j,
        None => {
            return None;
        },
    };
    let k = ws_run(s, j);
    if !(k < s.len() && s[k] == '\'') {
        return None;
    }
    let q = k + 1;
    let t = not_char_run(s, q, '\'');
    if t > q && t < s.len() {
        Some(subrange_vec(s, q, t))
    } else {
        None
    }
}

fn first_og_video(s: &Vec<char>) -> (r: Option<Vec<char>>)
    ensures
        match (r, leftmost_from(og_video_finder(s@), 0, s@.len() as int)) {
            (Some(x), Some(y)) => x@ == y,
            (None, None) => true,
            _ => false,
        },
{
    let a = chars_of("<meta");
    let b = chars_of("property=\"og:video\"");
    let c = chars_of("content=\"");
    let n = s.len();
    let mut i: usize = 0;
    while i < n
        invariant
            n == s@.len(),
            i <= n,
            a@ == "<meta"@,
            b@ == "property=\"og:video\""@,
            c@ == "content=\""@,
            leftmost_from(og_video_finder(s@), 0, n as int) == leftmost_from(
                og_video_finder(s@),
                i as int,
                n as int,
            ),
        decreases n - i,
    {
        proof {
            assert(og_video_finder(s@)(i as int) == og_video_at(s@, i as int));
            lemma_leftmost_step(og_video_finder(s@), i as int, n as int);
        }
        match og_video_exec(s, &a, &b, &c, i) {
            Some(x) => {
                return Some(x);
            },
            None => {},
        }
        i = i + 1;
    }
    proof {
        assert(og_video_finder(s@)(i as int) == og_video_at(s@, i as int));
        lemma_leftmost_step(og_video_finder(s@), i + 1, n as int);
        lemma_leftmost_step(og_video_finder(s@), i as int, n as int);
    }
    og_video_exec(s, &a, &b, &c, i)
}

fn first_player_file(s: &Vec<char>) -> (r: Option<Vec<char>>)
    ensures
        match (r, leftmost_from(player_file_finder(s@), 0, s@.len() as int)) {
            (Some(x), Some(y)) => x@ == y,
            (None, None) => true,
            _ => false,
        },
{
    let a = chars_of("file:");
    let n = s.len();
    let mut i: usize = 0;
    while i < n
        invariant
            n == s@.len(),
            i <= n,
            a@ == "file:"@,
            leftmost_from(player_file_finder(s@), 0, n as int) == leftmost_from(
                player_file_finder(s@),
                i as int,
                n as int,
            ),
        decreases n - i,
    {
        proof {
            assert(player_file_finder(s@)(i as int) == player_file_at(s@, i as int));
            lemma_leftmost_step(player_file_finder(s@), i as int, n as int);
        }
        match player_file_exec(s, &a, i) {
            Some(x) => {
                return Some(x);
            },
            None => {},
        }
        i = i + 1;
    }
    proof {
        assert(player_file_finder(s@)(i as int) == player_file_at(s@, i as int));
        lemma_leftmost_step(player_file_finder(s@), i + 1, n as int);
        lemma_leftmost_step(player_file_finder(s@), i as int, n as int);
    }
    player_file_exec(s, &a, i)
}

/// The direct media URL of a YourUpload embed page (see
/// [`spec_parse_yourupload_media`]).
pub fn parse_yourupload_media(html: &str) -> (r: Option<String>)
    ensures
        opt_string_view(r) == spec_parse_yourupload_media(html@),
{
    let s = chars_of(html);
    match first_og_video(&s) {
        Some(x) => Some(string_of(&x)),
        None => match first_player_file(&s) {
            Some(x) => Some(string_of(&x)),
            None => None,
        },
    }
}

// ---------- page script arrays ----------

/// The lazy end of `\[.*?\]` (and, with `semi`, of a following `\s*;`):
/// the first `]` at `c` or later, before any line break, that closes the
/// match.
pub open spec fn array_close(s: Seq<char>, c: int, semi: bool) -> Option<int>
    decreases s.len() - c,
{
    if c < 0 || c >= s.len() {
        None
    } else if s[c] == ']' && (!semi || ({
        let e = c + 1 + ws_count(s, c + 1);
        e < s.len() && s[e] == ';'
    })) {
        Some(c)
    } else if s[c] == '\n' {
        None
    } else {
        array_close(s, c + 1, semi)
    }
}

/// `var\s+<name>\s*=\s*(\[.*?\])` (with `semi`, followed by `\s*;`) at
/// `i`: the bracketed array text.
pub open spec fn script_array_at(s: Seq<char>, i: int, name: Seq<char>, semi: bool) -> Option<
    Seq<char>,
> {
    let v = "var"@;
    if !occurs_at(s, v, i) {
        None
    } else {
        let j = i + v.len();
        let w = ws_count(s, j);
        let k = j + w;
        if w == 0 || !occurs_at(s, name, k) {
            None
        } else {
            let m = k + name.len();
            let p = m + ws_count(s, m);
            if !(p < s.len() && s[p] == '=') {
                None
            } else {
                let q = p + 1 + ws_count(s, p + 1);
                if !(q < s.len() && s[q] == '[') {
                    None
                } else {
                    match array_close(s, q + 1, semi) {
                        Some(c) => Some(s.subrange(q, c + 1)),
                        None => None,
                    }
                }
            }
        }
    }
}

pub open spec fn script_array_finder(s: Seq<char>, name: Seq<char>, semi: bool) -> spec_fn(
    int,
) -> Option<Seq<char>> {
    |i: int| script_array_at(s, i, name, semi)
}

/// The leftmost such array in a page.
pub open spec fn spec_script_array(s: Seq<char>, name: Seq<char>, semi: bool) -> Option<Seq<char>> {
    leftmost_from(script_array_finder(s, name, semi), 0, s.len() as int)
}

fn array_close_exec(s: &[char], c: usize, semi: bool) -> (r: Option<usize>)
    requires
        c <= s@.len(),
    ensures
        match (r, array_close(s@, c as int, semi)) {
            (Some(x), Some(y)) => x == y && c <= x < s@.len(),
            (None, None) => true,
            _ => false,
        },
{
    let n = s.len();
    let mut k = c;
    while k < n
        invariant
            n == s@.len(),
            c <= k <= n,
            array_close(s@, c as int, semi) == array_close(s@, k as int, semi),
        decreases n - k,
    {
        if s[k] == ']' {
            let closes = if semi {
                let e = ws_run(s, k + 1);
                e < n && s[e] == ';'
            } else {
                true
            };
            if closes {
                return Some(k);
            }
        }
        if s[k] == '\n' {
            return None;
        }
        k = k + 1;
    }
    None
}

fn script_array_exec(s: &[char], v: &[char], name: &[char], semi: bool, i: usize) -> (r: Option<
    Vec<char>,
>)
    requires
        v@ == "var"@,
    ensures
        match (r, script_array_at(s@, i as int, name@, semi)) {
            (Some(x), Some(y)) => x@ == y,
            (None, None) => true,
            _ => false,
        },
{
    let n = s.len();
    let j = match literal_at(s, v, i) {
        Some(j) => j,
        None => {
            return None;
        },
    };
    let k = ws_run(s, j);
    if k == j {
        return None;
    }
    let m = match literal_at(s, name, k) {
        Some(m) => m,
        None => {
            return None;
        },
    };
    let p = ws_run(s, m);
    if !(p < n && s[p] == '=') {
        return None;
    }
    let q = ws_run(s, p + 1);
    if !(q < n && s[q] == '[') {
        return None;
    }
    match array_close_exec(s, q + 1, semi) {
        Some(c) => Some(subrange_vec(s, q, c + 1)),
        None => None,
    }
}

/// The leftmost `var <name> = [...]` array of a page (see
/// [`spec_script_array`]).
pub fn script_array(s: &Vec<char>, name: &[char], semi: bool) -> (r: Option<Vec<char>>)
    ensures
        match (r, spec_script_array(s@, name@, semi)) {
            (Some(x), Some(y)) => x@ == y,
            (None, None) => true,
            _ => false,
        },
{
    let v = chars_of("var");
    let n = s.len();
    let mut i: usize = 0;
    loop
        invariant
            n == s@.len(),
            i <= n,
            v@ == "var"@,
            spec_script_array(s@, name@, semi) == leftmost_from(
                script_array_finder(s@, name@, semi),
                i as int,
                n as int,
            ),
        decreases n - i,
    {
        proof {
            assert(script_array_finder(s@, name@, semi)(i as int) == script_array_at(
                s@,
                i as int,
                name@,
                semi,
            ));
            lemma_leftmost_step(script_array_finder(s@, name@, semi), i as int, n as int);
        }
        match script_array_exec(s, &v, name, semi, i) {
            Some(x) => {
                return Some(x);
            },
            None => {},
        }
        if i == n {
            proof {
                lemma_leftmost_step(script_array_finder(s@, name@, semi), i + 1, n as int);
            }
            return None;
        }
        i = i + 1;
    }
}

/// `replace("\\/", "/")`: every escaped slash, left to right, unescaped.
pub open spec fn unescape_slashes(s: Seq<char>) -> Seq<char>
    decreases s.len(),
{
    if s.len() == 0 {
        seq![]
    } else if s.len() >= 2 && s[0] == '\\' && s[1] == '/' {
        seq!['/'] + unescape_slashes(s.skip(2))
    } else {
        seq![s[0]] + unescape_slashes(s.skip(1))
    }
}

pub fn unescape_slashes_exec(s: &[char]) -> (r: Vec<char>)
    ensures
        r@ == unescape_slashes(s@),
{
    let n = s.len();
    let mut r: Vec<char> = Vec::new();
    let mut i: usize = 0;
    assert(s@.skip(0) =~= s@);
    while i < n
        invariant
            n == s@.len(),
            i <= n,
            r@ + unescape_slashes(s@.skip(i as int)) == unescape_slashes(s@),
        decreases n - i,
    {
        let ghost t = s@.skip(i as int);
        let ghost before = r@;
        if i + 1 < n && s[i] == '\\' && s[i + 1] == '/' {
            r.push('/');
            assert(t.skip(2) =~= s@.skip(i + 2));
            assert(r@ + unescape_slashes(s@.skip(i + 2)) =~= before + unescape_slashes(t));
            i = i + 2;
        } else {
            r.push(s[i]);
            assert(t.skip(1) =~= s@.skip(i + 1));
            assert(r@ + unescape_slashes(s@.skip(i + 1)) =~= before + unescape_slashes(t));
            i = i + 1;
        }
    }
    assert(s@.skip(i as int) =~= Seq::<char>::empty());
    assert(r@ + Seq::<char>::empty() =~= r@);
    r
}

/// What is read of one element of a JSON array: its text when it is a
/// number (as rendered) or a string (its contents), and the strings at its
/// positions 0 and 1 when it is an array holding strings there.
#[derive(Clone, Debug, PartialEq, Eq)]
pub struct JsonElement {
    pub scalar: Option<String>,
    pub first: Option<String>,
    pub second: Option<String>,
}

pub ghost struct JsonElementView {
    pub scalar: Option<Seq<char>>,
    pub first: Option<Seq<char>>,
    pub second: Option<Seq<char>>,
}

impl View for JsonElement {
    type V = JsonElementView;

    open spec fn view(&self) -> JsonElementView {
        JsonElementView {
            scalar: opt_string_view(self.scalar),
            first: opt_string_view(self.first),
            second: opt_string_view(self.second),
        }
    }
}

pub open spec fn elements_view(r: Option<Vec<JsonElement>>) -> Option<Seq<JsonElementView>> {
    match r {
        Some(v) => Some(Seq::new(v@.len(), |i: int| v@[i]@)),
        None => None,
    }
}

/// What `serde_json::from_str::<Vec<serde_json::Value>>` reads from a
/// text: its elements, or `None` for a text that is not a JSON array.
pub uninterp spec fn json_array(s: Seq<char>) -> Option<Seq<JsonElementView>>;

/// `serde_json::from_str::<Vec<serde_json::Value>>`, each element read as
/// [`JsonElement`] says; `None` when the text is not a JSON array. The result
/// is named ([`json_array`]), not described.
#[verifier::external_body]
fn read_json_array(text: &str) -> (r: Option<Vec<JsonElement>>)
    ensures
        elements_view(r) == json_array(text@),
{
    let values = serde_json::from_str::<Vec<serde_json::Value>>(text).ok()?;
    let text_at = |value: &serde_json::Value| value.as_str().map(str::to_owned);
    Some(values.iter().map(|value| JsonElement {
        scalar: match value {
            serde_json::Value::Number(number) => Some(number.to_string()),
            serde_json::Value::String(text) => Some(text.clone()),
            _ => None,
        },
        first: value.get(0).and_then(text_at),
        second: value.get(1).and_then(text_at),
    }).collect())
}

// ---------- video servers ----------

/// A video server an episode page offers: its label and embed URL.
#[derive(Clone, Debug, PartialEq, Eq)]
pub struct Server {
    pub label: String,
    pub embed: String,
}

pub open spec fn server_view(v: Seq<Server>) -> Seq<(Seq<char>, Seq<char>)> {
    Seq::new(v.len(), |i: int| (v[i].label@, v[i].embed@))
}

/// The server an element describes: trimmed label and embed, both
/// non-empty, the embed a safe remote URL.
pub open spec fn element_server(e: JsonElementView) -> Option<(Seq<char>, Seq<char>)> {
    match (e.first, e.second) {
        (Some(a), Some(b)) => {
            let label = trim(a);
            let embed = trim(b);
            if label.len() > 0 && embed.len() > 0 && is_remote_url_ok(embed) {
                Some((label, embed))
            } else {
                None
            }
        },
        _ => None,
    }
}

pub open spec fn servers_of(es: Seq<JsonElementView>) -> Seq<(Seq<char>, Seq<char>)>
    decreases es.len(),
{
    if es.len() == 0 {
        seq![]
    } else {
        let prev = servers_of(es.drop_last());
        match element_server(es.last()) {
            Some(x) => prev.push(x),
            None => prev,
        }
    }
}

/// The servers of an episode page: the leftmost `var videos = [...];`
/// array, slashes unescaped, read as JSON; nothing when it is missing or
/// not a JSON array.
pub open spec fn spec_parse_servers(s: Seq<char>) -> Seq<(Seq<char>, Seq<char>)> {
    match spec_script_array(s, "videos"@, true) {
        None => seq![],
        Some(a) => match json_array(unescape_slashes(a)) {
            None => seq![],
            Some(es) => servers_of(es),
        },
    }
}

pub proof fn lemma_servers_of(es: Seq<JsonElementView>)
    ensures
        forall|k: int|
            0 <= k < servers_of(es).len() ==> #[trigger] servers_of(es)[k].0.len() > 0
                && servers_of(es)[k].1.len() > 0 && is_remote_url_ok(servers_of(es)[k].1),
    decreases es.len(),
{
    if es.len() > 0 {
        let prev = servers_of(es.drop_last());
        lemma_servers_of(es.drop_last());
        let all = servers_of(es);
        assert forall|k: int| 0 <= k < all.len() implies #[trigger] all[k].0.len() > 0
            && all[k].1.len() > 0 && is_remote_url_ok(all[k].1) by {
            if k < prev.len() {
                assert(all[k] == prev[k]);
            } else {
                assert(element_server(es.last()) == Some(all[k]));
            }
        }
    }
}

/// Every server an episode page yields has a label and an embed URL that
/// passes [`validate_remote_url`].
pub proof fn servers_have_safe_embeds(s: Seq<char>)
    ensures
        forall|k: int|
            0 <= k < spec_parse_servers(s).len() ==> #[trigger] spec_parse_servers(s)[k].0.len()
                > 0 && is_remote_url_ok(spec_parse_servers(s)[k].1),
{
    match spec_script_array(s, "videos"@, true) {
        None => {},
        Some(a) => match json_array(unescape_slashes(a)) {
            None => {},
            Some(es) => lemma_servers_of(es),
        },
    }
}

/// The video servers of an episode page (see [`spec_parse_servers`]).
pub fn parse_servers(html: &str) -> (r: Vec<Server>)
    ensures
        server_view(r@) == spec_parse_servers(html@),
{
    let s = chars_of(html);
    let array = match script_array(&s, &chars_of("videos"), true) {
        Some(a) => a,
        None => {
            let none: Vec<Server> = Vec::new();
            assert(server_view(none@) =~= seq![]);
            return none;
        },
    };
    let unescaped = string_of(&unescape_slashes_exec(&array));
    match read_json_array(unescaped.as_str()) {
        Some(es) => servers_of_elements(&es),
        None => {
            let none: Vec<Server> = Vec::new();
            assert(server_view(none@) =~= seq![]);
            none
        },
    }
}

pub open spec fn elements_seq(v: Seq<JsonElement>) -> Seq<JsonElementView> {
    Seq::new(v.len(), |i: int| v[i]@)
}

/// The video servers listed by the elements of an episode page's `videos`
/// array (see [`servers_of`]).
pub fn servers_of_elements(elements: &Vec<JsonElement>) -> (r: Vec<Server>)
    ensures
        server_view(r@) == servers_of(elements_seq(elements@)),
{
    let ghost es = Seq::new(elements@.len(), |i: int| elements@[i]@);
    let mut out: Vec<Server> = Vec::new();
    let mut i: usize = 0;
    while i < elements.len()
        invariant
            i <= elements@.len(),
            es == Seq::new(elements@.len(), |i: int| elements@[i]@),
            server_view(out@) == servers_of(es.take(i as int)),
        decreases elements@.len() - i,
    {
        let ghost before = out@;
        assert(es.take(i + 1).drop_last() =~= es.take(i as int));
        assert(es.take(i + 1).last() == elements@[i as int]@);
        let e = &elements[i];
        match (&e.first, &e.second) {
            (Some(a), Some(b)) => {
                let label = trim_chars(&chars_of(a.as_str()));
                let embed = trim_chars(&chars_of(b.as_str()));
                if label.len() > 0 && embed.len() > 0 {
                    let embed_text = string_of(&embed);
                    if validate_remote_url(embed_text.as_str()).is_ok() {
                        out.push(Server { label: string_of(&label), embed: embed_text });
                        assert(server_view(out@) =~= server_view(before).push((label@, embed@)));
                    }
                }
            },
            _ => {},
        }
        i = i + 1;
    }
    assert(es.take(i as int) =~= es);
    out
}

// ---------- episode lists ----------

pub open spec fn scalars_of(es: Seq<JsonElementView>) -> Seq<Seq<char>>
    decreases es.len(),
{
    if es.len() == 0 {
        seq![]
    } else {
        let prev = scalars_of(es.drop_last());
        match es.last().scalar {
            Some(t) => prev.push(t),
            None => prev,
        }
    }
}

/// The episode labels of an anime page, as written: the numbers and
/// strings of the leftmost `var episodes = [...]` array.
pub open spec fn spec_episode_labels(s: Seq<char>) -> Option<Option<Seq<Seq<char>>>> {
    match spec_script_array(s, "episodes"@, false) {
        None => None,
        Some(a) => Some(
            match json_array(a) {
                None => None,
                Some(es) => Some(scalars_of(es)),
            },
        ),
    }
}

/// The episode labels of an anime page (see [`spec_episode_labels`]): a
/// page without the array, or with one that is not JSON, is a provider
/// error.
pub fn episode_labels(html: &str) -> (r: Result<Vec<String>>)
    ensures
        match spec_episode_labels(html@) {
            None => r matches Err(AniError::Provider(m)) && m@
                == "TioAnime page exposed no episode list"@,
            Some(None) => r matches Err(AniError::Provider(m)) && m@
                == "TioAnime episode list was not valid JSON"@,
            Some(Some(ls)) => r matches Ok(v) && v@.len() == ls.len() && forall|k: int|
                0 <= k < ls.len() ==> #[trigger] v@[k]@ == ls[k],
        },
{
    let s = chars_of(html);
    let array = match script_array(&s, &chars_of("episodes"), false) {
        Some(a) => a,
        None => {
            return Err(AniError::Provider("TioAnime page exposed no episode list".to_owned()));
        },
    };
    let array_text = string_of(&array);
    match read_json_array(array_text.as_str()) {
        Some(es) => Ok(labels_of_elements(&es)),
        None => Err(AniError::Provider("TioAnime episode list was not valid JSON".to_owned())),
    }
}

/// The episode labels listed by the elements of an anime page's `episodes`
/// array: its numbers and strings, as written (see [`scalars_of`]).
pub fn labels_of_elements(elements: &Vec<JsonElement>) -> (r: Vec<String>)
    ensures
        r@.len() == scalars_of(elements_seq(elements@)).len(),
        forall|k: int| 0 <= k < r@.len() ==> #[trigger] r@[k]@ == scalars_of(elements_seq(elements@))[k],
{
    let ghost es = Seq::new(elements@.len(), |i: int| elements@[i]@);
    let mut out: Vec<String> = Vec::new();
    let mut i: usize = 0;
    while i < elements.len()
        invariant
            i <= elements@.len(),
            es == Seq::new(elements@.len(), |i: int| elements@[i]@),
            out@.len() == scalars_of(es.take(i as int)).len(),
            forall|k: int|
                0 <= k < out@.len() ==> #[trigger] out@[k]@ == scalars_of(es.take(i as int))[k],
        decreases elements@.len() - i,
    {
        assert(es.take(i + 1).drop_last() =~= es.take(i as int));
        assert(es.take(i + 1).last() == elements@[i as int]@);
        match &elements[i].scalar {
            Some(t) => {
                out.push(t.clone());
            },
            None => {},
        }
        i = i + 1;
    }
    assert(es.take(i as int) =~= es);
    out
}

// ---------- search listings ----------

/// The catalog entries a search answer lists, from the `(title, slug)`
/// pairs at index `i` on, given the slugs already listed: entries with an
/// empty or already listed slug are skipped, an invalid slug fails the
/// whole listing (`None`), and each listed entry gets its display title.
pub open spec fn listing_from(
    es: Seq<(Seq<char>, Seq<char>)>,
    i: int,
    seen: Seq<Seq<char>>,
) -> Option<Seq<(Seq<char>, Seq<char>)>>
    decreases es.len() - i,
{
    if i < 0 || i >= es.len() {
        Some(seq![])
    } else {
        let title = es[i].0;
        let slug = es[i].1;
        if slug.len() == 0 || seen.contains(slug) {
            listing_from(es, i + 1, seen)
        } else if !is_valid_slug(slug) {
            None
        } else {
            match listing_from(es, i + 1, seen.push(slug)) {
                Some(r) => Some(seq![(slug, entry_title(title, slug))] + r),
                None => None,
            }
        }
    }
}

pub proof fn lemma_listing_fresh(es: Seq<(Seq<char>, Seq<char>)>, i: int, seen: Seq<Seq<char>>)
    ensures
        listing_from(es, i, seen) matches Some(l) ==> {
            &&& forall|k: int|
                0 <= k < l.len() ==> !seen.contains(#[trigger] l[k].0) && is_valid_slug(l[k].0)
            &&& forall|a: int, b: int| 0 <= a < b < l.len() ==> #[trigger] l[a].0 != #[trigger] l[b].0
        },
    decreases es.len() - i,
{
    if 0 <= i < es.len() {
        let slug = es[i].1;
        lemma_listing_fresh(es, i + 1, seen);
        lemma_listing_fresh(es, i + 1, seen.push(slug));
        if !(slug.len() == 0 || seen.contains(slug)) && is_valid_slug(slug) {
            match listing_from(es, i + 1, seen.push(slug)) {
                Some(r) => {
                    let l = listing_from(es, i, seen)->Some_0;
                    assert(l == seq![(slug, entry_title(es[i].0, slug))] + r);
                    assert forall|k: int| 0 <= k < l.len() implies !seen.contains(#[trigger] l[k].0)
                        && is_valid_slug(l[k].0) by {
                        if k > 0 {
                            assert(l[k] == r[k - 1]);
                            if seen.contains(l[k].0) {
                                let j = choose|j: int| 0 <= j < seen.len() && seen[j] == l[k].0;
                                assert(seen.push(slug)[j] == seen[j]);
                            }
                        }
                    }
                    assert forall|a: int, b: int| 0 <= a < b < l.len() implies #[trigger] l[a].0
                        != #[trigger] l[b].0 by {
                        assert(l[b] == r[b - 1]);
                        if a == 0 {
                            assert(seen.push(slug)[seen.len() as int] == slug);
                        } else {
                            assert(l[a] == r[a - 1]);
                        }
                    }
                },
                None => {},
            }
        }
    }
}

/// A search listing names each slug once, and only valid slugs.
pub proof fn listing_names_each_slug_once(es: Seq<(Seq<char>, Seq<char>)>)
    ensures
        listing_from(es, 0, seq![]) matches Some(l) ==> {
            &&& forall|k: int| 0 <= k < l.len() ==> is_valid_slug(#[trigger] l[k].0)
            &&& forall|a: int, b: int| 0 <= a < b < l.len() ==> #[trigger] l[a].0 != #[trigger] l[b].0
        },
{
    lemma_listing_fresh(es, 0, seq![]);
}

pub open spec fn pairs_view(v: Seq<(String, String)>) -> Seq<(Seq<char>, Seq<char>)> {
    Seq::new(v.len(), |i: int| (v[i].0@, v[i].1@))
}

fn contains_text(seen: &Vec<Vec<char>>, t: &[char]) -> (b: bool)
    ensures
        b == views(seen@).contains(t@),
{
    let mut k: usize = 0;
    while k < seen.len()
        invariant
            k <= seen@.len(),
            forall|m: int| 0 <= m < k ==> views(seen@)[m] != t@,
        decreases seen@.len() - k,
    {
        if chars_eq(&seen[k], t) {
            assert(views(seen@)[k as int] == t@);
            return true;
        }
        k = k + 1;
    }
    false
}

/// The `(slug, title)` listing of a search answer's `(title, slug)` entries
/// (see [`listing_from`]); an invalid slug is the error of
/// [`validate_slug`].
pub fn search_listing(entries: &[(String, String)]) -> (r: Result<Vec<(String, String)>>)
    ensures
        match listing_from(pairs_view(entries@), 0, seq![]) {
            Some(l) => r matches Ok(v) && pairs_view(v@) == l,
            None => r matches Err(AniError::Input(m)) && m@ == "invalid TioAnime show slug"@,
        },
{
    let ghost es = pairs_view(entries@);
    let mut seen: Vec<Vec<char>> = Vec::new();
    let mut out: Vec<(String, String)> = Vec::new();
    let mut i: usize = 0;
    assert(views(seen@) =~= Seq::<Seq<char>>::empty());
    assert(pairs_view(out@) =~= Seq::<(Seq<char>, Seq<char>)>::empty());
    while i < entries.len()
        invariant
            es == pairs_view(entries@),
            i <= entries@.len(),
            listing_from(es, 0, seq![]) == match listing_from(es, i as int, views(seen@)) {
                Some(r) => Some(pairs_view(out@) + r),
                None => None,
            },
        decreases entries@.len() - i,
    {
        let title = &entries[i].0;
        let slug = &entries[i].1;
        let slug_chars = chars_of(slug.as_str());
        assert(es[i as int] == (title@, slug@));
        if slug_chars.len() == 0 || contains_text(&seen, &slug_chars) {
            i = i + 1;
        } else {
            match validate_slug(slug.as_str()) {
                Ok(()) => {},
                Err(e) => {
                    return Err(e);
                },
            }
            let ghost before_out = pairs_view(out@);
            let ghost before_seen = views(seen@);
            let shown = entry_title_of(title.as_str(), slug.as_str());
            out.push((slug.clone(), shown));
            seen.push(slug_chars);
            assert(views(seen@) =~= before_seen.push(slug@));
            assert(pairs_view(out@) =~= before_out.push((slug@, entry_title(title@, slug@))));
            proof {
                match listing_from(es, i + 1, views(seen@)) {
                    Some(r) => {
                        assert(pairs_view(out@) + r =~= before_out + (seq![
                            (slug@, entry_title(title@, slug@)),
                        ] + r));
                    },
                    None => {},
                }
            }
            i = i + 1;
        }
    }
    assert(pairs_view(out@) + Seq::<(Seq<char>, Seq<char>)>::empty() =~= pairs_view(out@));
    Ok(out)
}

/// A search answer's entries as text pairs: `None` for an entry that is
/// not a `(title, slug)` record.
pub open spec fn answer_view(items: Seq<Option<(String, String)>>) -> Seq<
    Option<(Seq<char>, Seq<char>)>,
> {
    Seq::new(
        items.len(),
        |i: int|
            match items[i] {
                Some(p) => Some((p.0@, p.1@)),
                None => None,
            },
    )
}

/// The `(title, slug)` records of a search answer, in order; other entries
/// are skipped.
pub open spec fn kept_entries(items: Seq<Option<(Seq<char>, Seq<char>)>>) -> Seq<
    (Seq<char>, Seq<char>),
>
    decreases items.len(),
{
    if items.len() == 0 {
        seq![]
    } else {
        let prev = kept_entries(items.drop_last());
        match items.last() {
            Some(p) => prev.push(p),
            None => prev,
        }
    }
}

/// The listing of a TioAnime search answer. `answer` is `None` where the
/// answer is not a JSON list, else its entries, each as a `(title, slug)`
/// record where it reads as one. An answer that is not a list is a provider
/// error; otherwise the records, other entries skipped, are listed as
/// [`search_listing`] lists them.
pub fn search_answer_listing(answer: Option<Vec<Option<(String, String)>>>) -> (r: Result<
    Vec<(String, String)>,
>)
    ensures
        answer is None ==> (r matches Err(AniError::Provider(m)) && m@
            == "TioAnime search response was not a list"@),
        answer matches Some(items) ==> match listing_from(
            kept_entries(answer_view(items@)),
            0,
            seq![],
        ) {
            Some(l) => r matches Ok(v) && pairs_view(v@) == l,
            None => r matches Err(AniError::Input(m)) && m@ == "invalid TioAnime show slug"@,
        },
{
    let items = match answer {
        Some(items) => items,
        None => {
            return Err(AniError::Provider("TioAnime search response was not a list".to_owned()));
        },
    };
    let ghost iv = answer_view(items@);
    let mut kept: Vec<(String, String)> = Vec::new();
    let mut i: usize = 0;
    while i < items.len()
        invariant
            i <= items@.len(),
            iv == answer_view(items@),
            pairs_view(kept@) == kept_entries(iv.take(i as int)),
        decreases items@.len() - i,
    {
        assert(iv.take(i + 1).drop_last() =~= iv.take(i as int));
        assert(iv.take(i + 1).last() == iv[i as int]);
        match &items[i] {
            Some(p) => {
                let ghost before = pairs_view(kept@);
                let title = p.0.as_str().to_owned();
                let slug = p.1.as_str().to_owned();
                kept.push((title, slug));
                assert(pairs_view(kept@) =~= before.push((p.0@, p.1@)));
            },
            None => {},
        }
        i = i + 1;
    }
    assert(iv.take(i as int) =~= iv);
    search_listing(kept.as_slice())
}

/// Whether a server label names YourUpload, ASCII case ignored
/// (`eq_ignore_ascii_case`): the one server whose embeds resolve to direct
/// media.
pub open spec fn names_yourupload(label: Seq<char>) -> bool {
    lower(label) == "yourupload"@
}

pub fn is_yourupload(label: &str) -> (b: bool)
    ensures
        b == names_yourupload(label@),
{
    chars_eq(&lower_chars(&chars_of(label)), &chars_of("yourupload"))
}

// ---------- YourUpload streams ----------

/// A YourUpload embed URL: a safe URL on YourUpload's hosts.
pub fn yourupload_embed_url(embed: &str) -> (r: Result<ParsedUrl>)
    ensures
        on_domain(embed@, "yourupload.com"@, "unexpected YourUpload embed host "@, r),
{
    url_on_domain(embed, "yourupload.com", "unexpected YourUpload embed host ")
}

pub open spec fn novideo_message() -> Seq<char> {
    "YourUpload video removed or unavailable (novideo.mp4) — try another episode (e.g., 2) or provider JKAnime"@
}

/// The stream a YourUpload embed page offers, fetched from `embed` for the
/// server `label`: its direct media URL, refused when it is the removed-file
/// placeholder (`novideo`) or not a safe URL; played with the embed page
/// as referer, offered for download, at quality `Auto`.
pub open spec fn yourupload_outcome(embed: UrlView, label: Seq<char>, html: Seq<char>, r: Result<
    StreamLink,
>) -> bool {
    match spec_parse_yourupload_media(html) {
        None => r matches Err(AniError::Provider(m)) && m@
            == "YourUpload page exposed no direct media URL"@,
        Some(media) => if has_sub(media, "novideo"@) {
            r matches Err(AniError::Provider(m)) && m@ == novideo_message()
        } else if !is_remote_url_ok(media) {
            r matches Err(AniError::Provider(m)) && m@ == "YourUpload returned an invalid media URL `"@
                + media + "` — video may be removed"@
        } else {
            r matches Ok(l) && {
                &&& l.url@ == url_parse(media)->Ok_0.serialization
                &&& l.resolution@ == "Auto"@
                &&& !l.hls
                &&& l.provider@ == "TioAnime "@ + label
                &&& l.downloadable
                &&& l.headers.referer matches Some(x) && x@ == embed.serialization
                &&& l.headers.origin is None
                &&& l.headers.extra@ == Map::<String, String>::empty()
                &&& l.subtitles@.len() == 0
            }
        },
    }
}

/// The stream of a fetched YourUpload embed page (see
/// [`yourupload_outcome`]).
pub fn yourupload_stream(embed: &ParsedUrl, label: &str, html: &str) -> (r: Result<StreamLink>)
    ensures
        yourupload_outcome(embed@, label@, html@, r),
{
    let media = match parse_yourupload_media(html) {
        Some(m) => m,
        None => {
            return Err(AniError::Provider("YourUpload page exposed no direct media URL".to_owned()));
        },
    };
    if contains_chars(&chars_of(media.as_str()), &chars_of("novideo")) {
        return Err(
            AniError::Provider(
                "YourUpload video removed or unavailable (novideo.mp4) — try another episode (e.g., 2) or provider JKAnime".to_owned(),
            ),
        );
    }
    let parsed = match validate_remote_url(media.as_str()) {
        Ok(u) => u,
        Err(_) => {
            let mut m = "YourUpload returned an invalid media URL `".to_owned();
            m.append(media.as_str());
            m.append("` — video may be removed");
            return Err(AniError::Provider(m));
        },
    };
    let mut provider = "TioAnime ".to_owned();
    provider.append(label);
    Ok(
        StreamLink {
            url: parsed.as_str().to_owned(),
            resolution: "Auto".to_owned(),
            hls: false,
            provider,
            downloadable: true,
            headers: RequestHeaders {
                referer: Some(embed.as_str().to_owned()),
                origin: None,
                extra: BTreeMap::new(),
            },
            subtitles: Vec::new(),
        },
    )
}

/// A removed YourUpload file is reported with an error that
/// [`is_novideo_error`] recognizes.
pub proof fn removed_file_error_is_novideo(e: AniError)
    requires
        e matches AniError::Provider(m) && m@ == novideo_message(),
    ensures
        spec_is_novideo_error(e),
{
    reveal_strlit("YourUpload video removed or unavailable (novideo.mp4) — try another episode (e.g., 2) or provider JKAnime");
    reveal_strlit("novideo");
    let m = e->Provider_0@;
    assert(m.subrange(41, 48) =~= "novideo"@);
    assert(occurs_at(m, "novideo"@, 41));
}

// ---------- resolution failures ----------

/// Whether an error is the removed-file signal of a YourUpload embed: a
/// provider error whose message mentions `novideo`.
pub open spec fn spec_is_novideo_error(e: AniError) -> bool {
    match e {
        AniError::Provider(m) => has_sub(m@, "novideo"@),
        _ => false,
    }
}

pub fn is_novideo_error(error: &AniError) -> (b: bool)
    ensures
        b == spec_is_novideo_error(*error),
{
    match error {
        AniError::Provider(message) => contains_chars(
            &chars_of(message.as_str()),
            &chars_of("novideo"),
        ),
        _ => false,
    }
}

pub open spec fn fallback_entries(items: Seq<(String, String)>) -> Seq<Seq<char>> {
    Seq::new(items.len(), |i: int| items[i].0@ + " "@ + items[i].1@)
}

pub open spec fn removed_upstream_prefix() -> Seq<char> {
    "; YourUpload file was removed upstream — try another episode (e.g., 2) or provider JKAnime, or open in a browser: "@
}

pub open spec fn not_playable_prefix() -> Seq<char> {
    "; not directly playable — open in a browser: "@
}

/// The hint appended to a failed resolution: nothing without fallback
/// servers; otherwise the `label url` pairs joined by `; `, after a prefix
/// that says whether the YourUpload file was removed.
pub open spec fn spec_browser_fallback_suffix(removed: bool, items: Seq<(String, String)>) -> Seq<
    char,
> {
    if items.len() == 0 {
        seq![]
    } else if removed {
        removed_upstream_prefix() + join_with(fallback_entries(items), "; "@)
    } else {
        not_playable_prefix() + join_with(fallback_entries(items), "; "@)
    }
}

pub fn browser_fallback_suffix(yourupload_removed: bool, browser_fallbacks: &[(String, String)]) -> (r:
    String)
    ensures
        r@ == spec_browser_fallback_suffix(yourupload_removed, browser_fallbacks@),
{
    if browser_fallbacks.len() == 0 {
        return String::new();
    }
    let ghost items = fallback_entries(browser_fallbacks@);
    let mut alternates = String::new();
    let mut i: usize = 0;
    while i < browser_fallbacks.len()
        invariant
            i <= browser_fallbacks@.len(),
            items == fallback_entries(browser_fallbacks@),
            alternates@ == join_with(items.take(i as int), "; "@),
        decreases browser_fallbacks@.len() - i,
    {
        let ghost prev = alternates@;
        if i > 0 {
            alternates.append("; ");
        }
        alternates.append(browser_fallbacks[i].0.as_str());
        alternates.append(" ");
        alternates.append(browser_fallbacks[i].1.as_str());
        proof {
            let t = items.take(i + 1);
            assert(t.drop_last() =~= items.take(i as int));
            assert(t.last() == items[i as int]);
            if i == 0 {
                assert(alternates@ =~= t[0]);
            } else {
                assert(alternates@ =~= join_with(t.drop_last(), "; "@) + "; "@ + t.last());
            }
        }
        i = i + 1;
    }
    assert(items.take(i as int) =~= items);
    let mut out = if yourupload_removed {
        "; YourUpload file was removed upstream — try another episode (e.g., 2) or provider JKAnime, or open in a browser: ".to_owned()
    } else {
        "; not directly playable — open in a browser: ".to_owned()
    };
    out.append(alternates.as_str());
    out
}

} // verus!
