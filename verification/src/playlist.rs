//! HLS master playlists: the variant streams a master playlist lists, and
//! the stream links built from them against the playlist's own URL.

use vstd::prelude::*;

use crate::error::{AniError, Result};
use crate::models::{RequestHeaders, StreamLink};
use crate::remote::{join_remote, parse_remote, url_join, url_parse, UrlView};
use crate::scan::{digit_pred, digit_run, lemma_leftmost_step, leftmost_from, run_of};
use crate::text::{
    chars_of, contains_chars, has_sub, is_whitespace, lines, lines_of, lower_char, matches_at,
    starts_with, string_of, subrange_vec, to_lower_char, trim, trim_chars, trim_start,
    views,
};

verus! {

pub open spec fn master_marker() -> Seq<char> {
    "#EXTM3U"@
}

pub open spec fn variant_tag() -> Seq<char> {
    "#EXT-X-STREAM-INF"@
}

/// A master playlist names itself and holds a variant tag somewhere.
pub open spec fn is_master_playlist(text: Seq<char>) -> bool {
    has_sub(text, master_marker()) && has_sub(text, variant_tag())
}

/// A line that starts with the variant tag once leading whitespace is
/// dropped.
pub open spec fn is_variant_line(line: Seq<char>) -> bool {
    starts_with(trim_start(line), variant_tag())
}

// ---------- the resolution attribute ----------

/// Whether `c` matches the pattern character `p` without regard to case,
/// as the regex crate folds it: `p` itself, its ASCII lower case, and for
/// `S` also `ſ` (U+017F).
pub open spec fn folds_to(c: char, p: char) -> bool {
    c == p || c == lower_char(p) || (p == 'S' && c == '\u{17f}')
}

pub open spec fn folds_at(s: Seq<char>, t: Seq<char>, i: int) -> bool {
    &&& 0 <= i
    &&& i + t.len() <= s.len()
    &&& forall|k: int| 0 <= k < t.len() ==> folds_to(#[trigger] s[i + k], t[k])
}

pub open spec fn resolution_key() -> Seq<char> {
    "RESOLUTION="@
}

/// `RESOLUTION=<digits>x<digits>` (any case) at `i`: the second digits,
/// the height.
pub open spec fn resolution_at(s: Seq<char>, i: int) -> Option<Seq<char>> {
    if !folds_at(s, resolution_key(), i) {
        None
    } else {
        let j = i + resolution_key().len();
        let w = run_of(s, j, digit_pred());
        let k = j + w;
        if w == 0 || k >= s.len() || (s[k] != 'x' && s[k] != 'X') {
            None
        } else {
            let h = run_of(s, k + 1, digit_pred());
            if h == 0 {
                None
            } else {
                Some(s.subrange(k + 1, k + 1 + h))
            }
        }
    }
}

pub open spec fn resolution_finder(s: Seq<char>) -> spec_fn(int) -> Option<Seq<char>> {
    |i: int| resolution_at(s, i)
}

/// The quality label of a variant line: `<height>p` from its leftmost
/// resolution attribute, `Auto` without one.
pub open spec fn variant_label(line: Seq<char>) -> Seq<char> {
    match leftmost_from(resolution_finder(line), 0, line.len() as int) {
        Some(h) => h + "p"@,
        None => "Auto"@,
    }
}

// ---------- variants ----------

/// A line that names a resource: non-empty once trimmed, and not a tag or
/// comment.
pub open spec fn is_uri_line(line: Seq<char>) -> bool {
    trim(line).len() > 0 && trim(line)[0] != '#'
}

/// The trimmed text of the first resource line at index `from` or later.
pub open spec fn next_uri(ls: Seq<Seq<char>>, from: int) -> Option<Seq<char>>
    decreases ls.len() - from,
{
    if from < 0 || from >= ls.len() {
        None
    } else if is_uri_line(ls[from]) {
        Some(trim(ls[from]))
    } else {
        next_uri(ls, from + 1)
    }
}

/// The `(label, reference)` pairs of the variant lines among the first `n`
/// lines that some resource line follows, in order.
pub open spec fn variant_entries(ls: Seq<Seq<char>>, n: int) -> Seq<(Seq<char>, Seq<char>)>
    decreases n,
{
    if n <= 0 {
        seq![]
    } else {
        let prev = variant_entries(ls, n - 1);
        if is_variant_line(ls[n - 1]) && next_uri(ls, n) is Some {
            prev.push((variant_label(ls[n - 1]), next_uri(ls, n)->0))
        } else {
            prev
        }
    }
}

/// The variants a playlist lists.
pub open spec fn playlist_variants(text: Seq<char>) -> Seq<(Seq<char>, Seq<char>)> {
    variant_entries(lines(text), lines(text).len() as int)
}

/// Every reference resolved against `base`, or the message of the first
/// that does not resolve.
pub open spec fn resolve_all(base: Seq<char>, es: Seq<(Seq<char>, Seq<char>)>) -> core::result::Result<
    Seq<Seq<char>>,
    Seq<char>,
>
    decreases es.len(),
{
    if es.len() == 0 {
        Ok(seq![])
    } else {
        match resolve_all(base, es.drop_last()) {
            Err(m) => Err(m),
            Ok(prev) => match url_join(base, es.last().1) {
                Err(m) => Err(m),
                Ok(u) => Ok(prev.push(u.serialization)),
            },
        }
    }
}

pub proof fn lemma_resolve_len(base: Seq<char>, es: Seq<(Seq<char>, Seq<char>)>)
    ensures
        resolve_all(base, es) matches Ok(us) ==> us.len() == es.len(),
    decreases es.len(),
{
    if es.len() > 0 {
        lemma_resolve_len(base, es.drop_last());
    }
}

/// A failure to resolve stays a failure, with the same message, when more
/// references follow.
pub proof fn lemma_resolve_err_prefix(
    base: Seq<char>,
    es: Seq<(Seq<char>, Seq<char>)>,
    n: int,
    m: Seq<char>,
)
    requires
        0 <= n <= es.len(),
        resolve_all(base, es.take(n)) == Err::<Seq<Seq<char>>, Seq<char>>(m),
    ensures
        resolve_all(base, es) == Err::<Seq<Seq<char>>, Seq<char>>(m),
    decreases es.len() - n,
{
    if n < es.len() {
        let t = es.take(n + 1);
        assert(t.drop_last() =~= es.take(n));
        lemma_resolve_err_prefix(base, es, n + 1, m);
    } else {
        assert(es.take(n) =~= es);
    }
}

pub proof fn lemma_entries_prefix(ls: Seq<Seq<char>>, i: int, n: int)
    requires
        0 <= i <= n,
    ensures
        variant_entries(ls, i).len() <= variant_entries(ls, n).len(),
        variant_entries(ls, n).take(variant_entries(ls, i).len() as int) == variant_entries(ls, i),
    decreases n - i,
{
    if i < n {
        lemma_entries_prefix(ls, i, n - 1);
        let a = variant_entries(ls, i);
        let b = variant_entries(ls, n - 1);
        let c = variant_entries(ls, n);
        if is_variant_line(ls[n - 1]) && next_uri(ls, n) is Some {
            assert(c.take(a.len() as int) =~= b.take(a.len() as int));
        }
    } else {
        assert(variant_entries(ls, n).take(variant_entries(ls, n).len() as int) =~= variant_entries(
            ls,
            n,
        ));
    }
}

// ---------- links ----------

pub open spec fn same_headers(a: RequestHeaders, b: RequestHeaders) -> bool {
    a.referer == b.referer && a.origin == b.origin && a.extra@ == b.extra@
}

/// A copy of a header set.
pub fn copy_headers(h: &RequestHeaders) -> (r: RequestHeaders)
    ensures
        same_headers(r, *h),
{
    let referer = match &h.referer {
        Some(s) => Some(s.clone()),
        None => None,
    };
    let origin = match &h.origin {
        Some(s) => Some(s.clone()),
        None => None,
    };
    RequestHeaders { referer, origin, extra: h.extra.clone() }
}

/// An HLS link of `provider` to `url` at quality `label`, with `headers`,
/// no subtitles and not offered for download.
pub open spec fn is_hls_link(
    l: StreamLink,
    url: Seq<char>,
    label: Seq<char>,
    provider: Seq<char>,
    headers: RequestHeaders,
) -> bool {
    &&& l.url@ == url
    &&& l.resolution@ == label
    &&& l.hls
    &&& l.provider@ == provider
    &&& !l.downloadable
    &&& same_headers(l.headers, headers)
    &&& l.subtitles@.len() == 0
}

/// The link to a playlist itself, at quality `Auto`.
pub fn stream_link(url: &str, provider: &str, headers: &RequestHeaders) -> (l: StreamLink)
    ensures
        is_hls_link(l, url@, "Auto"@, provider@, *headers),
{
    StreamLink {
        url: url.to_owned(),
        resolution: "Auto".to_owned(),
        hls: true,
        provider: provider.to_owned(),
        downloadable: false,
        headers: copy_headers(headers),
        subtitles: Vec::new(),
    }
}

// ---------- scanning ----------

fn trim_start_index(s: &[char]) -> (i: usize)
    ensures
        i <= s@.len(),
        trim_start(s@) == s@.skip(i as int),
{
    let n = s.len();
    let mut i: usize = 0;
    assert(s@.skip(0) =~= s@);
    while i < n && is_whitespace(s[i])
        invariant
            n == s@.len(),
            i <= n,
            trim_start(s@) == trim_start(s@.skip(i as int)),
        decreases n - i,
    {
        assert(s@.skip(i as int).drop_first() =~= s@.skip(i + 1));
        i = i + 1;
    }
    i
}

fn variant_line(line: &[char], tag: &[char]) -> (b: bool)
    requires
        tag@ == variant_tag(),
    ensures
        b == is_variant_line(line@),
{
    let i = trim_start_index(line);
    let b = matches_at(line, tag, i);
    proof {
        let t = line@.skip(i as int);
        if tag@.len() <= t.len() {
            assert(t.take(tag@.len() as int) =~= line@.subrange(i as int, i + tag@.len()));
        }
    }
    b
}

fn folds_at_exec(s: &[char], key: &[char], i: usize) -> (b: bool)
    ensures
        b == folds_at(s@, key@, i as int),
{
    let n = s.len();
    if i > n || key.len() > n - i {
        return false;
    }
    let mut k: usize = 0;
    while k < key.len()
        invariant
            n == s@.len(),
            i <= s@.len(),
            i + key@.len() <= s@.len(),
            k <= key@.len(),
            forall|m: int| 0 <= m < k ==> folds_to(#[trigger] s@[i + m], key@[m]),
        decreases key@.len() - k,
    {
        let c = s[i + k];
        let p = key[k];
        if !(c == p || c == to_lower_char(p) || (p == 'S' && c == '\u{17f}')) {
            assert(!folds_to(s@[i + k], key@[k as int]));
            return false;
        }
        k = k + 1;
    }
    true
}

fn resolution_exec(s: &[char], key: &[char], i: usize) -> (r: Option<Vec<char>>)
    requires
        key@ == resolution_key(),
    ensures
        match (r, resolution_at(s@, i as int)) {
            (Some(c), Some(d)) => c@ == d,
            (None, None) => true,
            _ => false,
        },
{
    let n = s.len();
    if !folds_at_exec(s, key, i) {
        return None;
    }
    assert(i + key@.len() <= n);
    let j = i + key.len();
    let k = digit_run(s, j);
    if k == j || k >= s.len() || (s[k] != 'x' && s[k] != 'X') {
        return None;
    }
    let e = digit_run(s, k + 1);
    if e == k + 1 {
        return None;
    }
    Some(subrange_vec(s, k + 1, e))
}

fn variant_label_exec(line: &[char]) -> (r: Vec<char>)
    ensures
        r@ == variant_label(line@),
{
    let key = chars_of("RESOLUTION=");
    let n = line.len();
    let mut i: usize = 0;
    loop
        invariant
            n == line@.len(),
            key@ == resolution_key(),
            i <= n,
            leftmost_from(resolution_finder(line@), 0, n as int) == leftmost_from(
                resolution_finder(line@),
                i as int,
                n as int,
            ),
        decreases n - i,
    {
        proof {
            assert(resolution_finder(line@)(i as int) == resolution_at(line@, i as int));
            lemma_leftmost_step(resolution_finder(line@), i as int, n as int);
        }
        match resolution_exec(line, &key, i) {
            Some(h) => {
                let ghost hv = h@;
                assert(leftmost_from(resolution_finder(line@), 0, n as int) == Some(hv));
                let mut out = h;
                out.push('p');
                proof {
                    reveal_strlit("p");
                }
                assert("p"@ =~= seq!['p']);
                assert(out@ =~= hv + "p"@);
                return out;
            },
            None => {},
        }
        if i == n {
            proof {
                lemma_leftmost_step(resolution_finder(line@), i + 1, n as int);
            }
            return chars_of("Auto");
        }
        i = i + 1;
    }
}

fn next_uri_exec(ls: &Vec<Vec<char>>, from: usize) -> (r: Option<Vec<char>>)
    requires
        from <= ls@.len(),
    ensures
        match (r, next_uri(views(ls@), from as int)) {
            (Some(c), Some(d)) => c@ == d,
            (None, None) => true,
            _ => false,
        },
{
    let ghost lsv = views(ls@);
    let mut j = from;
    while j < ls.len()
        invariant
            lsv == views(ls@),
            from <= j <= ls@.len(),
            next_uri(lsv, from as int) == next_uri(lsv, j as int),
        decreases ls@.len() - j,
    {
        assert(lsv[j as int] == ls@[j as int]@);
        let t = trim_chars(&ls[j]);
        if t.len() > 0 && t[0] != '#' {
            return Some(t);
        }
        j = j + 1;
    }
    None
}

// ---------- playlists ----------

/// The streams of a fetched HLS playlist served at `url`. A text that is
/// not a master playlist gives the link to `url` itself. A master playlist
/// gives one link per variant, at the variant's quality and at its
/// reference resolved against `url`; a URL that does not parse or resolve
/// is an error; a master playlist without variants gives the link to `url`.
pub fn playlist_streams(url: &str, provider: &str, headers: &RequestHeaders, text: &str) -> (r:
    Result<Vec<StreamLink>>)
    ensures
        !is_master_playlist(text@) ==> (r matches Ok(v) && v@.len() == 1 && is_hls_link(
            v@[0],
            url@,
            "Auto"@,
            provider@,
            *headers,
        )),
        is_master_playlist(text@) ==> match url_parse(url@) {
            Err(m) => r matches Err(AniError::Url(e)) && e@ == m,
            Ok(base) => {
                let es = playlist_variants(text@);
                match resolve_all(base.serialization, es) {
                    Err(m) => r matches Err(AniError::Url(e)) && e@ == m,
                    Ok(us) => r matches Ok(v) && if es.len() == 0 {
                        v@.len() == 1 && is_hls_link(v@[0], url@, "Auto"@, provider@, *headers)
                    } else {
                        &&& v@.len() == es.len()
                        &&& forall|k: int|
                            0 <= k < es.len() ==> is_hls_link(
                                #[trigger] v@[k],
                                us[k],
                                es[k].0,
                                provider@,
                                *headers,
                            )
                    },
                }
            },
        },
{
    let tchars = chars_of(text);
    let tag = chars_of("#EXT-X-STREAM-INF");
    let master = contains_chars(&tchars, &chars_of("#EXTM3U")) && contains_chars(&tchars, &tag);
    if !master {
        return Ok(vec![stream_link(url, provider, headers)]);
    }
    let base = parse_remote(url)?;
    let ls = lines_of(&tchars);
    let ghost lsv = views(ls@);
    let ghost bs = base@.serialization;
    let mut out: Vec<StreamLink> = Vec::new();
    let mut i: usize = 0;
    while i < ls.len()
        invariant
            lsv == views(ls@),
            lsv == lines(text@),
            is_master_playlist(text@),
            url_parse(url@) == Ok::<UrlView, Seq<char>>(base@),
            bs == base@.serialization,
            i <= ls@.len(),
            tag@ == variant_tag(),
            resolve_all(bs, variant_entries(lsv, i as int)) matches Ok(us) && out@.len() == us.len()
                && forall|k: int|
                0 <= k < us.len() ==> is_hls_link(
                    #[trigger] out@[k],
                    us[k],
                    variant_entries(lsv, i as int)[k].0,
                    provider@,
                    *headers,
                ),
        decreases ls@.len() - i,
    {
        let ghost before = variant_entries(lsv, i as int);
        proof {
            lemma_resolve_len(bs, before);
        }
        assert(lsv[i as int] == ls@[i as int]@);
        if variant_line(&ls[i], &tag) {
            match next_uri_exec(&ls, i + 1) {
                Some(reference) => {
                    let label = variant_label_exec(&ls[i]);
                    let ghost after = variant_entries(lsv, i + 1);
                    assert(after == before.push((label@, reference@)));
                    assert(after.drop_last() =~= before);
                    let reference_text = string_of(&reference);
                    match join_remote(&base, &reference_text) {
                        Ok(joined) => {
                            let link = StreamLink {
                                url: joined.as_str().to_owned(),
                                resolution: string_of(&label),
                                hls: true,
                                provider: provider.to_owned(),
                                downloadable: false,
                                headers: copy_headers(headers),
                                subtitles: Vec::new(),
                            };
                            out.push(link);
                        },
                        Err(e) => {
                            proof {
                                let m = e->Url_0@;
                                assert(reference_text@ == reference@);
                                assert(url_join(bs, reference@) == Err::<UrlView, Seq<char>>(m));
                                assert(after.last().1 == reference@);
                                assert(resolve_all(bs, after) == Err::<Seq<Seq<char>>, Seq<char>>(m));
                                let es = variant_entries(lsv, lsv.len() as int);
                                lemma_entries_prefix(lsv, i + 1, lsv.len() as int);
                                assert(es.take(after.len() as int) == after);
                                lemma_resolve_err_prefix(bs, es, after.len() as int, m);
                                assert(es == playlist_variants(text@));
                            }
                            return Err(e);
                        },
                    }
                },
                None => {},
            }
        }
        i = i + 1;
    }
    proof {
        lemma_resolve_len(bs, variant_entries(lsv, i as int));
    }
    if out.len() == 0 {
        out.push(stream_link(url, provider, headers));
    }
    Ok(out)
}

/// What [`playlist_streams`] gives for a playlist text.
pub open spec fn playlist_outcome(
    url: Seq<char>,
    provider: Seq<char>,
    headers: RequestHeaders,
    text: Seq<char>,
    r: Result<Vec<StreamLink>>,
) -> bool {
    &&& !is_master_playlist(text) ==> (r matches Ok(v) && v@.len() == 1 && is_hls_link(
        v@[0],
        url,
        "Auto"@,
        provider,
        headers,
    ))
    &&& is_master_playlist(text) ==> match url_parse(url) {
        Err(m) => r matches Err(AniError::Url(e)) && e@ == m,
        Ok(base) => {
            let es = playlist_variants(text);
            match resolve_all(base.serialization, es) {
                Err(m) => r matches Err(AniError::Url(e)) && e@ == m,
                Ok(us) => r matches Ok(v) && if es.len() == 0 {
                    v@.len() == 1 && is_hls_link(v@[0], url, "Auto"@, provider, headers)
                } else {
                    &&& v@.len() == es.len()
                    &&& forall|k: int|
                        0 <= k < es.len() ==> is_hls_link(
                            #[trigger] v@[k],
                            us[k],
                            es[k].0,
                            provider,
                            headers,
                        )
                },
            }
        },
    }
}

/// The largest playlist body read, in bytes (4 MiB).
pub const MAX_PLAYLIST_BYTES: usize = 4194304;

/// The streams of an answer to a playlist request: an answer that is not a
/// success gives the link to `url` itself; a body of `len` bytes over
/// [`MAX_PLAYLIST_BYTES`] is refused; otherwise the body's text gives what
/// [`playlist_streams`] gives.
pub fn playlist_response(
    url: &str,
    provider: &str,
    headers: &RequestHeaders,
    success: bool,
    len: usize,
    text: &str,
) -> (r: Result<Vec<StreamLink>>)
    ensures
        !success ==> (r matches Ok(v) && v@.len() == 1 && is_hls_link(
            v@[0],
            url@,
            "Auto"@,
            provider@,
            *headers,
        )),
        success && len > MAX_PLAYLIST_BYTES ==> (r matches Err(AniError::Provider(m)) && m@
            == "JKAnime playlist exceeds the 4 MiB limit"@),
        success && len <= MAX_PLAYLIST_BYTES ==> playlist_outcome(url@, provider@, *headers, text@, r),
{
    if !success {
        return Ok(vec![stream_link(url, provider, headers)]);
    }
    if len > MAX_PLAYLIST_BYTES {
        return Err(AniError::Provider("JKAnime playlist exceeds the 4 MiB limit".to_owned()));
    }
    playlist_streams(url, provider, headers, text)
}

} // verus!
