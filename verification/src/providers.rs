//! Rules shared by the Spanish catalog providers: show slugs, host
//! matching, text cleanup, display titles and search queries.

use vstd::prelude::*;

use base64::Engine;

use crate::error::{AniError, Result};
use crate::models::SearchResult;
use crate::text::{
    chars_of, collapse_whitespace, collapse_ws, ends_with, ends_with_chars, lower, lower_chars,
    string_of, trim, trim_chars,
};

verus! {

/// A character the slug pattern `(?i)[a-z0-9-]` accepts. Case-insensitive
/// matching also admits the Kelvin sign and the long s, which fold to `k`
/// and `s`.
pub open spec fn slug_char(c: char) -> bool {
    ||| ('a' <= c && c <= 'z')
    ||| ('A' <= c && c <= 'Z')
    ||| ('0' <= c && c <= '9')
    ||| c == '-'
    ||| c == '\u{17f}'
    ||| c == '\u{212a}'
}

/// A show slug: 1 to 200 slug characters, the first not a hyphen
/// (`(?i)^[a-z0-9][a-z0-9-]{0,199}$`).
pub open spec fn is_valid_slug(s: Seq<char>) -> bool {
    &&& 1 <= s.len() <= 200
    &&& s[0] != '-'
    &&& forall|k: int| 0 <= k < s.len() ==> slug_char(#[trigger] s[k])
}

pub fn is_slug_char(c: char) -> (b: bool)
    ensures
        b == slug_char(c),
{
    (c >= 'a' && c <= 'z') || (c >= 'A' && c <= 'Z') || (c >= '0' && c <= '9') || c == '-' || c
        == '\u{17f}' || c == '\u{212a}'
}

/// Whether a text is a valid show slug (see [`is_valid_slug`]).
pub fn slug_is_valid(s: &[char]) -> (b: bool)
    ensures
        b == is_valid_slug(s@),
{
    let n = s.len();
    if n == 0 || n > 200 || s[0] == '-' {
        return false;
    }
    let mut i: usize = 0;
    while i < n
        invariant
            n == s@.len(),
            i <= n,
            forall|k: int| 0 <= k < i ==> slug_char(#[trigger] s@[k]),
        decreases n - i,
    {
        if !is_slug_char(s[i]) {
            return false;
        }
        i = i + 1;
    }
    true
}

/// The text without its trailing dots.
pub open spec fn trim_end_dots(s: Seq<char>) -> Seq<char>
    decreases s.len(),
{
    if s.len() > 0 && s.last() == '.' {
        trim_end_dots(s.drop_last())
    } else {
        s
    }
}

/// Whether `host` (trailing dots dropped, ASCII case ignored) is `domain`
/// or one of its subdomains.
pub open spec fn spec_host_matches(host: Seq<char>, domain: Seq<char>) -> bool {
    let h = lower(trim_end_dots(host));
    h == domain || ends_with(h, seq!['.'] + domain)
}

pub fn host_matches(host: &str, domain: &str) -> (b: bool)
    ensures
        b == spec_host_matches(host@, domain@),
{
    let h = chars_of(host);
    let mut end = h.len();
    assert(h@.take(h@.len() as int) =~= h@);
    while end > 0 && h[end - 1] == '.'
        invariant
            end <= h@.len(),
            trim_end_dots(h@) == trim_end_dots(h@.take(end as int)),
        decreases end,
    {
        assert(h@.take(end as int).drop_last() =~= h@.take(end - 1));
        end = end - 1;
    }
    assert(trim_end_dots(h@.take(end as int)) == h@.take(end as int));
    let mut t: Vec<char> = Vec::new();
    let mut i: usize = 0;
    while i < end
        invariant
            end <= h@.len(),
            i <= end,
            t@ =~= h@.take(i as int),
        decreases end - i,
    {
        t.push(h[i]);
        i = i + 1;
        assert(t@ =~= h@.take(i as int));
    }
    let l = lower_chars(&t);
    let d = chars_of(domain);
    if crate::text::chars_eq(&l, &d) {
        return true;
    }
    let mut dotted: Vec<char> = Vec::new();
    dotted.push('.');
    let mut k: usize = 0;
    while k < d.len()
        invariant
            k <= d@.len(),
            dotted@ =~= seq!['.'] + d@.take(k as int),
        decreases d@.len() - k,
    {
        dotted.push(d[k]);
        k = k + 1;
        assert(dotted@ =~= seq!['.'] + d@.take(k as int));
    }
    assert(d@.take(k as int) =~= d@);
    ends_with_chars(&l, &dotted)
}

/// Collapses the whitespace of scraped text: runs become single spaces,
/// the ends are trimmed.
pub fn clean_text(value: &str) -> (r: String)
    ensures
        r@ == crate::text::collapse_ws(value@),
{
    string_of(&crate::text::collapse_whitespace(&chars_of(value)))
}

/// Items joined with `sep` between them.
pub open spec fn join_with(items: Seq<Seq<char>>, sep: Seq<char>) -> Seq<char>
    decreases items.len(),
{
    if items.len() == 0 {
        seq![]
    } else if items.len() == 1 {
        items[0]
    } else {
        join_with(items.drop_last(), sep) + sep + items.last()
    }
}

/// Every `-` replaced by a space (`replace('-', " ")`): the readable
/// title of a bare slug.
pub open spec fn dashes_to_spaces(s: Seq<char>) -> Seq<char> {
    Seq::new(s.len(), |i: int| if s[i] == '-' { ' ' } else { s[i] })
}

pub fn slug_title(slug: &str) -> (r: String)
    ensures
        r@ == dashes_to_spaces(slug@),
{
    let cs = chars_of(slug);
    let mut out: Vec<char> = Vec::new();
    let mut i: usize = 0;
    while i < cs.len()
        invariant
            i <= cs@.len(),
            cs@ == slug@,
            out@ =~= dashes_to_spaces(cs@.take(i as int)),
        decreases cs@.len() - i,
    {
        if cs[i] == '-' {
            out.push(' ');
        } else {
            out.push(cs[i]);
        }
        i = i + 1;
        assert(out@ =~= dashes_to_spaces(cs@.take(i as int)));
    }
    assert(cs@.take(i as int) =~= cs@);
    string_of(&out)
}

/// The title shown for a catalog entry: the trimmed title with its
/// whitespace collapsed, or the slug with spaces for dashes when the title
/// is blank.
pub open spec fn entry_title(title: Seq<char>, slug: Seq<char>) -> Seq<char> {
    if trim(title).len() == 0 {
        dashes_to_spaces(slug)
    } else {
        collapse_ws(trim(title))
    }
}

pub fn entry_title_of(title: &str, slug: &str) -> (r: String)
    ensures
        r@ == entry_title(title@, slug@),
{
    let trimmed = trim_chars(&chars_of(title));
    if trimmed.len() == 0 {
        slug_title(slug)
    } else {
        string_of(&collapse_whitespace(&trimmed))
    }
}

// ---------- searches ----------

/// The query a search sends, and the key it is cached under: the trimmed
/// query and its ASCII lower case. A blank query is refused.
pub fn search_terms(query: &str) -> (r: Result<(String, String)>)
    ensures
        trim(query@).len() == 0 ==> r matches Err(AniError::InputEmptyQuery),
        trim(query@).len() > 0 ==> (r matches Ok((q, key)) && q@ == trim(query@) && key@ == lower(
            trim(query@),
        )),
{
    let t = trim_chars(&chars_of(query));
    if t.len() == 0 {
        return Err(AniError::InputEmptyQuery);
    }
    let key = lower_chars(&t);
    Ok((string_of(&t), string_of(&key)))
}

/// How many of a search's results get their episodes counted: the first
/// six at most.
pub fn enrichment_len(results: usize) -> (n: usize)
    ensures
        n == if results < 6 {
            results
        } else {
            6
        },
{
    if results < 6 {
        results
    } else {
        6
    }
}

/// The episode count a result ends with: the count found for it when
/// that is positive, else the catalog's.
pub open spec fn counted(counts: Seq<u64>, k: int, catalog: u64) -> u64 {
    if k < counts.len() && counts[k] > 0 {
        counts[k]
    } else {
        catalog
    }
}

pub open spec fn recounted(r: SearchResult, o: SearchResult, episodes: u64) -> bool {
    r.id == o.id && r.name == o.name && r.provider == o.provider && r.episodes == episodes
}

/// The results with the episode counts found for the first of them: a
/// positive count replaces the catalog's, a zero (nothing found) keeps it.
pub fn apply_episode_counts(results: Vec<SearchResult>, counts: &[u64]) -> (r: Vec<SearchResult>)
    requires
        counts@.len() <= results@.len(),
    ensures
        r@.len() == results@.len(),
        forall|k: int|
            0 <= k < r@.len() ==> recounted(
                #[trigger] r@[k],
                results@[k],
                counted(counts@, k, results@[k].episodes),
            ),
{
    let ghost orig = results@;
    let mut rest = results;
    let mut out: Vec<SearchResult> = Vec::new();
    let ghost mut k: int = 0;
    while rest.len() > 0
        invariant
            0 <= k <= orig.len(),
            rest@ == orig.skip(k),
            out@.len() == k,
            forall|m: int|
                0 <= m < k ==> recounted(
                    #[trigger] out@[m],
                    orig[m],
                    counted(counts@, m, orig[m].episodes),
                ),
        decreases rest@.len(),
    {
        let mut item = rest.remove(0);
        assert(item == orig[k]);
        let idx = out.len();
        if idx < counts.len() && counts[idx] > 0 {
            item.episodes = counts[idx];
        }
        assert(recounted(item, orig[k], counted(counts@, k, orig[k].episodes)));
        let ghost before = out@;
        out.push(item);
        proof {
            assert forall|m: int| 0 <= m < k + 1 implies recounted(
                #[trigger] out@[m],
                orig[m],
                counted(counts@, m, orig[m].episodes),
            ) by {
                if m < k {
                    assert(out@[m] == before[m]);
                }
            }
            k = k + 1;
            assert(rest@ =~= orig.skip(k));
        }
    }
    out
}

// ---------- request paths ----------

/// A byte `url::form_urlencoded::byte_serialize` writes as it is: an ASCII
/// letter or digit, `*`, `-`, `.` or `_`.
pub open spec fn form_unchanged(c: char) -> bool {
    ||| ('a' <= c && c <= 'z')
    ||| ('A' <= c && c <= 'Z')
    ||| ('0' <= c && c <= '9')
    ||| c == '*'
    ||| c == '-'
    ||| c == '.'
    ||| c == '_'
}

/// What `url::form_urlencoded::byte_serialize` writes for a text's UTF-8
/// bytes.
pub uninterp spec fn form_escaped(s: Seq<char>) -> Seq<char>;

/// `url::form_urlencoded::byte_serialize`, collected into one text: the
/// `application/x-www-form-urlencoded` form of the text's UTF-8 bytes,
/// named ([`form_escaped`]). A text made only of the characters that the
/// serializer keeps ([`form_unchanged`]) is written as it is.
#[verifier::external_body]
pub(crate) fn form_escape(value: &str) -> (r: String)
    ensures
        r@ == form_escaped(value@),
        (forall|k: int| 0 <= k < value@.len() ==> form_unchanged(#[trigger] value@[k])) ==> r@
            == value@,
{
    url::form_urlencoded::byte_serialize(value.as_bytes()).collect()
}

/// `base`, then each of `parts` escaped ([`form_escaped`]) and put after
/// its separator.
pub open spec fn escaped_path(base: Seq<char>, parts: Seq<(Seq<char>, Seq<char>)>) -> Seq<char>
    decreases parts.len(),
{
    if parts.len() == 0 {
        base
    } else {
        let last = parts.last();
        escaped_path(base, parts.drop_last()) + last.0 + form_escaped(last.1)
    }
}

/// A catalog request URL: `base`, then for each `(separator, part)` the
/// separator and the part escaped as a form value, then `tail` (see
/// [`escaped_path`]).
pub fn catalog_url(base: &str, parts: &[(&str, &str)], tail: &str) -> (r: String)
    ensures
        r@ == escaped_path(base@, Seq::new(parts@.len(), |k: int| (parts@[k].0@, parts@[k].1@)))
            + tail@,
{
    let ghost ps = Seq::new(parts@.len(), |k: int| (parts@[k].0@, parts@[k].1@));
    let mut out = base.to_owned();
    let mut i: usize = 0;
    while i < parts.len()
        invariant
            i <= parts@.len(),
            ps == Seq::new(parts@.len(), |k: int| (parts@[k].0@, parts@[k].1@)),
            out@ == escaped_path(base@, ps.take(i as int)),
        decreases parts@.len() - i,
    {
        let (separator, part) = parts[i];
        out.append(separator);
        let escaped = form_escape(part);
        out.append(escaped.as_str());
        assert(ps.take(i + 1).drop_last() =~= ps.take(i as int));
        assert(ps.take(i + 1).last() == ps[i as int]);
        i = i + 1;
    }
    assert(ps.take(i as int) =~= ps);
    out.append(tail);
    out
}

// ---------- show ids ----------

/// What the standard base64 engine decodes a text to; `None` where it
/// refuses the text.
pub uninterp spec fn base64_decoded(s: Seq<char>) -> Option<Seq<u8>>;

/// `base64::engine::general_purpose::STANDARD.decode`: the decoded bytes,
/// `None` for a text the engine refuses. The result is named
/// ([`base64_decoded`]), not described.
#[verifier::external_body]
pub(crate) fn decode_base64(text: &str) -> (r: Option<Vec<u8>>)
    ensures
        match (r, base64_decoded(text@)) {
            (Some(v), Some(b)) => v@ == b,
            (None, None) => true,
            _ => false,
        },
{
    base64::engine::general_purpose::STANDARD.decode(text).ok()
}

/// The text the standard base64 engine encodes bytes as.
pub uninterp spec fn base64_encoded(b: Seq<u8>) -> Seq<char>;

/// `base64::engine::general_purpose::STANDARD.encode`: the padded base64
/// text of the bytes, named ([`base64_encoded`]): four characters for each
/// started group of three bytes. The same engine decodes it back to the
/// bytes. Inputs whose encoded length overflows a `usize`
/// (where the engine panics) are left out.
#[verifier::external_body]
fn encode_base64(bytes: &[u8]) -> (r: String)
    requires
        bytes@.len() <= usize::MAX / 2,
    ensures
        r@ == base64_encoded(bytes@),
        r@.len() == 4 * ((bytes@.len() + 2) / 3),
        base64_decoded(r@) == Some(bytes@),
{
    base64::engine::general_purpose::STANDARD.encode(bytes)
}

/// A show id that carries metadata: `prefix` followed by the base64 text of
/// the metadata's JSON bytes. The id's payload decodes back to those bytes.
pub fn encoded_show_id(prefix: &str, json: &[u8]) -> (r: String)
    requires
        json@.len() <= usize::MAX / 2,
    ensures
        r@ == prefix@ + base64_encoded(json@),
        base64_encoded(json@).len() == 4 * ((json@.len() + 2) / 3),
        base64_decoded(base64_encoded(json@)) == Some(json@),
{
    let mut id = prefix.to_owned();
    let encoded = encode_base64(json);
    id.append(encoded.as_str());
    id
}

/// What a show id offers, in the order it is tried: the bytes its payload
/// decodes to, which may hold the show's metadata, and then the reading of
/// the id as a bare slug, used when there is no metadata or it does not
/// name a valid show.
#[derive(Debug)]
pub struct ShowIdPayload {
    pub metadata: Option<Vec<u8>>,
    pub fallback: Result<String>,
}

pub open spec fn opt_bytes(o: Option<Vec<u8>>) -> Option<Seq<u8>> {
    match o {
        Some(v) => Some(v@),
        None => None,
    }
}

/// How a show id is settled once its metadata has been read.
#[derive(Clone, Debug, PartialEq, Eq)]
pub enum ShowIdReading {
    /// The decoded metadata names the show.
    Metadata,
    /// The id is a bare slug.
    Slug(String),
}

/// The settling of an id: metadata that was read and names a valid slug
/// wins; else the bare-slug reading; else, where metadata was read but its
/// slug is invalid, the slug error; else the bare-slug reading's error.
pub open spec fn settled(
    p: ShowIdPayload,
    parsed_slug: Option<Seq<char>>,
    slug_error: Seq<char>,
    r: Result<ShowIdReading>,
) -> bool {
    if parsed_slug matches Some(s) && is_valid_slug(s) {
        r == Ok::<ShowIdReading, AniError>(ShowIdReading::Metadata)
    } else {
        match p.fallback {
            Ok(f) => r matches Ok(ShowIdReading::Slug(x)) && x@ == f@,
            Err(e) => if parsed_slug is Some {
                r matches Err(AniError::Input(m)) && m@ == slug_error
            } else {
                r == Err::<ShowIdReading, AniError>(e)
            },
        }
    }
}

/// Settles an id (see [`settled`]). `parsed_slug` is the slug of the
/// metadata, where the payload's bytes were read as metadata.
pub(crate) fn settle_show_id(
    payload: ShowIdPayload,
    parsed_slug: Option<String>,
    slug_error: &str,
) -> (r: Result<ShowIdReading>)
    ensures
        settled(payload, opt_string_view(parsed_slug), slug_error@, r),
{
    let parsed_is_some = parsed_slug.is_some();
    if let Some(s) = parsed_slug {
        if slug_is_valid(&chars_of(s.as_str())) {
            return Ok(ShowIdReading::Metadata);
        }
    }
    match payload.fallback {
        Ok(f) => Ok(ShowIdReading::Slug(f)),
        Err(e) => if parsed_is_some {
            Err(AniError::Input(slug_error.to_owned()))
        } else {
            Err(e)
        },
    }
}

pub open spec fn opt_string_view(r: Option<String>) -> Option<Seq<char>> {
    match r {
        Some(s) => Some(s@),
        None => None,
    }
}

/// The payload after `prefix`, when the id starts with it.
pub open spec fn after_prefix(value: Seq<char>, prefix: Seq<char>) -> Option<Seq<char>> {
    if prefix.len() <= value.len() && value.take(prefix.len() as int) == prefix {
        Some(value.skip(prefix.len() as int))
    } else {
        None
    }
}

/// `strip_prefix`: the rest of `value` after `prefix`, if it starts with it.
pub fn strip_prefix_text(value: &str, prefix: &str) -> (r: Option<String>)
    ensures
        match (r, after_prefix(value@, prefix@)) {
            (Some(x), Some(y)) => x@ == y,
            (None, None) => true,
            _ => false,
        },
{
    let v = chars_of(value);
    let p = chars_of(prefix);
    if p.len() > v.len() {
        return None;
    }
    let mut k: usize = 0;
    while k < p.len()
        invariant
            v@ == value@,
            p@ == prefix@,
            p@.len() <= v@.len(),
            k <= p@.len(),
            forall|m: int| 0 <= m < k ==> v@[m] == p@[m],
        decreases p@.len() - k,
    {
        if v[k] != p[k] {
            assert(v@.take(p@.len() as int)[k as int] != p@[k as int]);
            return None;
        }
        k = k + 1;
    }
    assert(v@.take(p@.len() as int) =~= p@);
    let mut rest: Vec<char> = Vec::new();
    let mut i = p.len();
    while i < v.len()
        invariant
            p@.len() <= i <= v@.len(),
            rest@ =~= v@.subrange(p@.len() as int, i as int),
        decreases v@.len() - i,
    {
        rest.push(v[i]);
        i = i + 1;
        assert(rest@ =~= v@.subrange(p@.len() as int, i as int));
    }
    assert(v@.skip(p@.len() as int) =~= v@.subrange(p@.len() as int, v@.len() as int));
    Some(string_of(&rest))
}

} // verus!
