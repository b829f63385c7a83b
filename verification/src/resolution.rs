//! Resolving an episode's servers into streams: what each server's outcome
//! adds, and the verdict once every server has been tried.

use vstd::prelude::*;

use crate::error::AniError;
use crate::models::{dedup_streams, distinct_urls, is_stable_sort_of, sort_streams, StreamLink};
use crate::providers::join_with;
use crate::tioanime::{browser_fallback_suffix, is_novideo_error, spec_browser_fallback_suffix, spec_is_novideo_error};

verus! {

pub open spec fn texts_view(v: Seq<String>) -> Seq<Seq<char>> {
    Seq::new(v.len(), |i: int| v[i]@)
}

/// What resolving an episode's servers has gathered so far: the streams
/// found, a note per server that gave none, the servers that only a
/// browser can play, and whether a YourUpload file was found removed.
pub struct Resolution {
    pub streams: Vec<StreamLink>,
    pub failures: Vec<String>,
    pub fallbacks: Vec<(String, String)>,
    pub removed: bool,
}

/// The note for a server that gave no stream: `<label>: <reason>`.
pub open spec fn failure_note(label: Seq<char>, reason: Seq<char>) -> Seq<char> {
    label + ": "@ + reason
}

pub open spec fn not_implemented() -> Seq<char> {
    "resolver not implemented in PoC"@
}

/// The message of a resolution that found no stream: the notes joined by
/// `; ` (or `nothing` without notes), then the browser-fallback hint.
pub open spec fn resolution_detail(r: Resolution, nothing: Seq<char>) -> Seq<char> {
    (if r.failures@.len() == 0 {
        nothing
    } else {
        join_with(texts_view(r.failures@), "; "@)
    }) + spec_browser_fallback_suffix(r.removed, r.fallbacks@)
}

fn note(label: &str, reason: &str) -> (r: String)
    ensures
        r@ == failure_note(label@, reason@),
{
    let mut t = label.to_owned();
    t.append(": ");
    t.append(reason);
    t
}

/// Items joined by `sep`.
pub fn join_texts(items: &Vec<String>, sep: &str) -> (r: String)
    ensures
        r@ == join_with(texts_view(items@), sep@),
{
    let ghost v = texts_view(items@);
    let mut out = String::new();
    let mut i: usize = 0;
    while i < items.len()
        invariant
            i <= items@.len(),
            v == texts_view(items@),
            out@ == join_with(v.take(i as int), sep@),
        decreases items@.len() - i,
    {
        let ghost prev = out@;
        if i > 0 {
            out.append(sep);
        }
        out.append(items[i].as_str());
        proof {
            let t = v.take(i + 1);
            assert(t.drop_last() =~= v.take(i as int));
            assert(t.last() == items@[i as int]@);
            if i == 0 {
                assert(out@ =~= t[0]);
            } else {
                assert(out@ =~= join_with(t.drop_last(), sep@) + sep@ + t.last());
            }
        }
        i = i + 1;
    }
    assert(v.take(i as int) =~= v);
    out
}

impl Resolution {
    /// Nothing gathered yet.
    pub fn new() -> (r: Self)
        ensures
            r.streams@.len() == 0,
            r.failures@.len() == 0,
            r.fallbacks@.len() == 0,
            !r.removed,
    {
        Resolution { streams: Vec::new(), failures: Vec::new(), fallbacks: Vec::new(), removed: false }
    }

    /// A server resolved to `stream`.
    pub fn resolved(&mut self, stream: StreamLink)
        ensures
            final(self).streams@ == old(self).streams@.push(stream),
            final(self).failures@ == old(self).failures@,
            final(self).fallbacks@ == old(self).fallbacks@,
            final(self).removed == old(self).removed,
    {
        self.streams.push(stream);
    }

    /// A server failed with `error`, described as `reason`; a removed
    /// YourUpload file is remembered.
    pub fn failed(&mut self, label: &str, error: &AniError, reason: &str)
        ensures
            final(self).streams@ == old(self).streams@,
            texts_view(final(self).failures@) == texts_view(old(self).failures@).push(
                failure_note(label@, reason@),
            ),
            final(self).fallbacks@ == old(self).fallbacks@,
            final(self).removed == (old(self).removed || spec_is_novideo_error(*error)),
    {
        let ghost before = texts_view(self.failures@);
        let removed = is_novideo_error(error);
        self.removed = self.removed || removed;
        let t = note(label, reason);
        self.failures.push(t);
        assert(texts_view(self.failures@) =~= before.push(failure_note(label@, reason@)));
    }

    /// A server that only a browser can play: kept as a fallback, noted as
    /// unresolved.
    pub fn browser_only(&mut self, label: &str, embed: &str)
        ensures
            final(self).streams@ == old(self).streams@,
            texts_view(final(self).failures@) == texts_view(old(self).failures@).push(
                failure_note(label@, not_implemented()),
            ),
            final(self).fallbacks@.len() == old(self).fallbacks@.len() + 1,
            final(self).fallbacks@.drop_last() == old(self).fallbacks@,
            final(self).fallbacks@.last().0@ == label@,
            final(self).fallbacks@.last().1@ == embed@,
            final(self).removed == old(self).removed,
    {
        let ghost before = texts_view(self.failures@);
        self.fallbacks.push((label.to_owned(), embed.to_owned()));
        let t = note(label, "resolver not implemented in PoC");
        self.failures.push(t);
        assert(texts_view(self.failures@) =~= before.push(failure_note(label@, not_implemented())));
        assert(self.fallbacks@.drop_last() =~= old(self).fallbacks@);
    }

    /// The streams found, one per URL, best first; without any, the
    /// message of [`resolution_detail`].
    pub fn finish(self, nothing: &str) -> (r: core::result::Result<Vec<StreamLink>, String>)
        ensures
            distinct_urls(self.streams@).len() > 0 ==> (r matches Ok(v) && is_stable_sort_of(
                distinct_urls(self.streams@),
                v@,
            )),
            distinct_urls(self.streams@).len() == 0 ==> (r matches Err(m) && m@ == resolution_detail(
                self,
                nothing@,
            )),
    {
        let Resolution { streams, failures, fallbacks, removed } = self;
        let mut kept = dedup_streams(streams);
        let ghost d = kept@;
        sort_streams(&mut kept);
        if kept.len() > 0 {
            return Ok(kept);
        }
        assert(d.len() == 0) by {
            let p = choose|p: Seq<int>| crate::models::is_stable_ranking(d, kept@, p);
        }
        let mut detail = if failures.len() == 0 {
            nothing.to_owned()
        } else {
            join_texts(&failures, "; ")
        };
        let suffix = browser_fallback_suffix(removed, fallbacks.as_slice());
        detail.append(suffix.as_str());
        Err(detail)
    }
}

} // verus!
