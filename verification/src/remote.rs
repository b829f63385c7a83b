//! Remote URLs handed out by the providers: what is read of a parsed URL,
//! and the safety rule every media or embed URL must pass.

use vstd::prelude::*;

use crate::error::{AniError, Result};
use crate::text::{chars_eq, chars_of, contains_chars, has_sub, lower, lower_chars};

verus! {

#[verifier::external_type_specification]
#[verifier::external_body]
pub struct ExUrl(url::Url);

/// A parsed absolute URL: the parser's value, with the parts that the
/// provider checks read copied out as text.
#[derive(Debug)]
pub struct ParsedUrl {
    url: url::Url,
    serialization: String,
    scheme: String,
    username: String,
    password: Option<String>,
    host: Option<String>,
    path: String,
    query: Option<String>,
}

/// The parts of a parsed URL, as text.
pub ghost struct UrlView {
    pub serialization: Seq<char>,
    pub scheme: Seq<char>,
    pub username: Seq<char>,
    pub password: Option<Seq<char>>,
    pub host: Option<Seq<char>>,
    pub path: Seq<char>,
    pub query: Option<Seq<char>>,
}

pub open spec fn opt_view(o: Option<String>) -> Option<Seq<char>> {
    match o {
        Some(s) => Some(s@),
        None => None,
    }
}

impl View for ParsedUrl {
    type V = UrlView;

    closed spec fn view(&self) -> UrlView {
        UrlView {
            serialization: self.serialization@,
            scheme: self.scheme@,
            username: self.username@,
            password: opt_view(self.password),
            host: opt_view(self.host),
            path: self.path@,
            query: opt_view(self.query),
        }
    }
}

impl ParsedUrl {
    /// The whole normalized URL.
    pub fn as_str(&self) -> (r: &str)
        ensures
            r@ == self@.serialization,
    {
        self.serialization.as_str()
    }

    pub fn scheme(&self) -> (r: &str)
        ensures
            r@ == self@.scheme,
    {
        self.scheme.as_str()
    }

    pub fn username(&self) -> (r: &str)
        ensures
            r@ == self@.username,
    {
        self.username.as_str()
    }

    pub fn password(&self) -> (r: Option<&str>)
        ensures
            match r {
                Some(p) => self@.password == Some(p@),
                None => self@.password is None,
            },
    {
        match &self.password {
            Some(p) => Some(p.as_str()),
            None => None,
        }
    }

    pub fn host(&self) -> (r: Option<&str>)
        ensures
            match r {
                Some(h) => self@.host == Some(h@),
                None => self@.host is None,
            },
    {
        match &self.host {
            Some(h) => Some(h.as_str()),
            None => None,
        }
    }

    pub fn path(&self) -> (r: &str)
        ensures
            r@ == self@.path,
    {
        self.path.as_str()
    }

    pub fn query(&self) -> (r: Option<&str>)
        ensures
            match r {
                Some(q) => self@.query == Some(q@),
                None => self@.query is None,
            },
    {
        match &self.query {
            Some(q) => Some(q.as_str()),
            None => None,
        }
    }
}

/// The text of a URL, or of the error met while parsing one.
pub open spec fn parsed_view(r: core::result::Result<ParsedUrl, String>) -> core::result::Result<
    UrlView,
    Seq<char>,
> {
    match r {
        Ok(u) => Ok(u@),
        Err(m) => Err(m@),
    }
}

/// What `url::Url::parse` gives for a text: the URL's parts, or the text of
/// its parse error.
pub uninterp spec fn url_parse(s: Seq<char>) -> core::result::Result<UrlView, Seq<char>>;

/// `url::Url::parse`: the parts of the absolute URL written in `value`, or
/// the parse error's text. The result is named, not described: it is the
/// WHATWG URL parser's.
#[verifier::external_body]
fn parse_url(value: &str) -> (r: core::result::Result<ParsedUrl, String>)
    ensures
        parsed_view(r) == url_parse(value@),
{
    match url::Url::parse(value) {
        Ok(url) => Ok(ParsedUrl {
            serialization: url.as_str().to_owned(),
            scheme: url.scheme().to_owned(),
            username: url.username().to_owned(),
            password: url.password().map(str::to_owned),
            host: url.host_str().map(str::to_owned),
            path: url.path().to_owned(),
            query: url.query().map(str::to_owned),
            url,
        }),
        Err(error) => Err(error.to_string()),
    }
}

/// What `url::Url::join` gives for a reference resolved against a base URL
/// (the base given by its serialization, which determines it).
pub uninterp spec fn url_join(base: Seq<char>, reference: Seq<char>) -> core::result::Result<
    UrlView,
    Seq<char>,
>;

/// `url::Url::join`: `reference` resolved against `base`, as parts, or the
/// parse error's text. The result is named ([`url_join`]), not described.
#[verifier::external_body]
fn join_url(base: &ParsedUrl, reference: &str) -> (r: core::result::Result<ParsedUrl, String>)
    ensures
        parsed_view(r) == url_join(base@.serialization, reference@),
{
    match base.url.join(reference) {
        Ok(url) => Ok(ParsedUrl {
            serialization: url.as_str().to_owned(),
            scheme: url.scheme().to_owned(),
            username: url.username().to_owned(),
            password: url.password().map(str::to_owned),
            host: url.host_str().map(str::to_owned),
            path: url.path().to_owned(),
            query: url.query().map(str::to_owned),
            url,
        }),
        Err(error) => Err(error.to_string()),
    }
}

/// Whether `str::parse::<core::net::IpAddr>` accepts a text.
pub uninterp spec fn parses_as_ip_addr(s: Seq<char>) -> bool;

/// `str::parse::<core::net::IpAddr>` succeeds: the text is an IPv4 or IPv6
/// address literal.
#[verifier::external_body]
fn is_ip_literal(host: &str) -> (b: bool)
    ensures
        b == parses_as_ip_addr(host@),
{
    host.parse::<core::net::IpAddr>().is_ok()
}

/// Parses a URL; a parse failure is a [`AniError::Url`] with the parser's
/// message.
pub fn parse_remote(value: &str) -> (r: Result<ParsedUrl>)
    ensures
        match url_parse(value@) {
            Ok(p) => r matches Ok(u) && u@ == p,
            Err(m) => r matches Err(AniError::Url(e)) && e@ == m,
        },
{
    match parse_url(value) {
        Ok(u) => Ok(u),
        Err(m) => Err(AniError::Url(m)),
    }
}

/// Resolves a reference against a base URL; a failure is a
/// [`AniError::Url`] with the parser's message.
pub fn join_remote(base: &ParsedUrl, reference: &str) -> (r: Result<ParsedUrl>)
    ensures
        match url_join(base@.serialization, reference@) {
            Ok(p) => r matches Ok(u) && u@ == p,
            Err(m) => r matches Err(AniError::Url(e)) && e@ == m,
        },
{
    match join_url(base, reference) {
        Ok(u) => Ok(u),
        Err(m) => Err(AniError::Url(m)),
    }
}

/// A parsed URL that may be handed to a player or fetched: `https`, with a
/// host and no user name or password.
pub open spec fn is_safe_shape(p: UrlView) -> bool {
    &&& p.scheme == "https"@
    &&& p.host is Some
    &&& p.username.len() == 0
    &&& p.password is None
}

/// A text that passes [`validate_remote_url`].
pub open spec fn is_remote_url_ok(value: Seq<char>) -> bool {
    url_parse(value) matches Ok(p) && is_safe_shape(p) && !parses_as_ip_addr(p.host->0)
}

/// The outcome [`validate_remote_url`] gives for a text: the parse error;
/// a refusal of an unsafe shape, then of an IP-literal host; otherwise the
/// parsed URL.
pub open spec fn validated(value: Seq<char>, r: Result<ParsedUrl>) -> bool {
    match url_parse(value) {
        Err(m) => r matches Err(AniError::Url(e)) && e@ == m,
        Ok(p) => if !is_safe_shape(p) {
            r matches Err(AniError::Provider(e)) && e@ == "unsafe provider URL"@
        } else if parses_as_ip_addr(p.host->0) {
            r matches Err(AniError::Provider(e)) && e@ == "literal-IP provider URLs are not allowed"@
        } else {
            r matches Ok(u) && u@ == p
        },
    }
}

/// Parses a provider URL and refuses it unless it has a safe shape and a
/// host name (not an IP literal).
pub fn validate_remote_url(value: &str) -> (r: Result<ParsedUrl>)
    ensures
        r is Ok <==> is_remote_url_ok(value@),
        validated(value@, r),
{
    let u = parse_remote(value)?;
    checked_remote(u)
}

/// A parsed provider URL checked as [`validate_remote_url`] checks it: an
/// unsafe shape is refused, then an IP-literal host; otherwise the URL is
/// given back.
pub fn checked_remote(u: ParsedUrl) -> (r: Result<ParsedUrl>)
    ensures
        !is_safe_shape(u@) ==> (r matches Err(AniError::Provider(e)) && e@ == "unsafe provider URL"@),
        is_safe_shape(u@) && parses_as_ip_addr(u@.host->0) ==> (r matches Err(AniError::Provider(e))
            && e@ == "literal-IP provider URLs are not allowed"@),
        is_safe_shape(u@) && !parses_as_ip_addr(u@.host->0) ==> (r matches Ok(v) && v@ == u@),
{
    let https = chars_eq(&chars_of(u.scheme()), &chars_of("https"));
    let no_user = chars_of(u.username()).len() == 0;
    let safe = match (u.host(), u.password()) {
        (Some(_), None) => https && no_user,
        _ => false,
    };
    if !safe {
        return Err(AniError::Provider("unsafe provider URL".to_owned()));
    }
    let literal = match u.host() {
        Some(host) => is_ip_literal(host),
        None => false,
    };
    if literal {
        return Err(AniError::Provider("literal-IP provider URLs are not allowed".to_owned()));
    }
    Ok(u)
}

/// Whatever [`validate_remote_url`] accepts is an `https` URL with a host,
/// no user name or password, and a host that is not an IP literal.
pub proof fn accepted_urls_are_safe(value: Seq<char>, r: Result<ParsedUrl>)
    requires
        validated(value, r),
        r is Ok,
    ensures
        is_safe_shape(r->Ok_0@),
        !parses_as_ip_addr(r->Ok_0@.host->0),
        is_remote_url_ok(value),
{
}

/// An HLS playlist URL: `.m3u8` in the path (any ASCII case) or in the
/// query.
pub open spec fn spec_is_hls(p: UrlView) -> bool {
    ||| has_sub(lower(p.path), ".m3u8"@)
    ||| (p.query matches Some(q) && has_sub(q, ".m3u8"@))
}

pub fn is_hls_url(u: &ParsedUrl) -> (b: bool)
    ensures
        b == spec_is_hls(u@),
{
    let marker = chars_of(".m3u8");
    if contains_chars(&lower_chars(&chars_of(u.path())), &marker) {
        return true;
    }
    match u.query() {
        Some(q) => contains_chars(&chars_of(q), &marker),
        None => false,
    }
}

} // verus!
