//! The checks a provider's HTTP answer must pass before its body is read:
//! rate limiting, failure statuses and the size limit.

use vstd::prelude::*;

use crate::error::{AniError, Result};
use crate::text::{chars_of, decimal_digits, parse_u64, push_decimal, spec_parse_u64, string_of};

verus! {

/// The reason phrase the `http` crate gives a status code, if it knows one.
pub uninterp spec fn canonical_reason(code: u16) -> Option<Seq<char>>;

/// `http::StatusCode::from_u16` then `canonical_reason`: the standard
/// reason phrase of a valid status code.
#[verifier::external_body]
fn status_reason(code: u16) -> (r: Option<&'static str>)
    requires
        100 <= code <= 999,
    ensures
        match r {
            Some(s) => canonical_reason(code) == Some(s@),
            None => canonical_reason(code) is None,
        },
{
    reqwest::StatusCode::from_u16(code).ok().and_then(|status| status.canonical_reason())
}

/// How a status code is written: the number and its reason phrase.
pub open spec fn status_text(code: u16) -> Seq<char> {
    decimal_digits(code as nat) + " "@ + match canonical_reason(code) {
        Some(r) => r,
        None => "<unknown status code>"@,
    }
}

/// The wait a rate-limited answer asks for: its `Retry-After` seconds, or
/// two minutes when it gives none that parse.
pub open spec fn retry_seconds(retry_after: Option<Seq<char>>) -> u64 {
    match retry_after {
        Some(t) => match spec_parse_u64(t) {
            Some(v) => v,
            None => 120,
        },
        None => 120,
    }
}

pub open spec fn opt_str_view(o: Option<&str>) -> Option<Seq<char>> {
    match o {
        Some(s) => Some(s@),
        None => None,
    }
}

pub open spec fn is_success(status: u16) -> bool {
    200 <= status < 300
}

/// The message of a failed answer with status `status` whose canonical
/// reason phrase is `reason`: `HTTP <status> <reason>`, with
/// `<unknown status code>` where there is no reason.
pub fn status_message(status: u16, reason: Option<&str>) -> (r: String)
    ensures
        r@ == "HTTP "@ + decimal_digits(status as nat) + " "@ + match opt_str_view(reason) {
            Some(t) => t,
            None => "<unknown status code>"@,
        },
{
    let mut text: Vec<char> = Vec::new();
    push_decimal(&mut text, status as u64);
    let mut message = "HTTP ".to_owned();
    message.append(string_of(&text).as_str());
    message.append(" ");
    match reason {
        Some(t) => message.append(t),
        None => message.append("<unknown status code>"),
    }
    message
}

/// Checks an answer's status and announced length. `429` is a rate limit;
/// any other status outside `2xx` is a catalog failure; a success that
/// announces more than `max_bytes` is refused.
pub fn check_response(
    provider: &str,
    status: u16,
    retry_after: Option<&str>,
    content_length: Option<u64>,
    max_bytes: usize,
) -> (r: Result<()>)
    requires
        100 <= status <= 999,
    ensures
        status == 429 ==> (r matches Err(AniError::ProviderRateLimited { provider: p, retry_after_seconds: s })
            && p@ == provider@ && s == retry_seconds(opt_str_view(retry_after))),
        status != 429 && !is_success(status) ==> (r matches Err(AniError::Catalog { provider: p, message: m })
            && p@ == provider@ && m@ == "HTTP "@ + status_text(status)),
        is_success(status) && (content_length matches Some(n) && n > max_bytes) ==> (r matches Err(
            AniError::Provider(m),
        ) && m@ == "provider response exceeded the safety limit"@),
        is_success(status) && !(content_length matches Some(n) && n > max_bytes) ==> r is Ok,
{
    if status == 429 {
        let retry_after_seconds: u64 = match retry_after {
            Some(t) => match parse_u64(&chars_of(t)) {
                Some(v) => v,
                None => 120,
            },
            None => 120,
        };
        return Err(AniError::ProviderRateLimited { provider: provider.to_owned(), retry_after_seconds });
    }
    if status < 200 || status >= 300 {
        let message = status_message(status, status_reason(status));
        return Err(AniError::Catalog { provider: provider.to_owned(), message });
    }
    match content_length {
        Some(n) => {
            if n > max_bytes as u64 {
                return Err(AniError::Provider("provider response exceeded the safety limit".to_owned()));
            }
        },
        None => {},
    }
    Ok(())
}

/// Refuses a body longer than `max_bytes`.
pub fn check_body_size(len: usize, max_bytes: usize) -> (r: Result<()>)
    ensures
        len > max_bytes ==> (r matches Err(AniError::Provider(m)) && m@
            == "provider response exceeded the safety limit"@),
        len <= max_bytes ==> r is Ok,
{
    if len > max_bytes {
        Err(AniError::Provider("provider response exceeded the safety limit".to_owned()))
    } else {
        Ok(())
    }
}

} // verus!
