//! The short-lived search cache each client keeps: answers stored by query
//! key for five minutes, at most a hundred of them.

use vstd::prelude::*;

use crate::text::chars_eq;
use crate::text::chars_of;

verus! {

/// How long a cached answer stays fresh, in milliseconds.
pub const CACHE_TTL_MS: u64 = 300000;

/// How many answers the cache holds at most.
pub const CACHE_LIMIT: usize = 100;

/// One cached answer: its key, when it expires, and the value.
pub struct CacheEntry<T> {
    pub key: String,
    pub expires_at: u64,
    pub value: T,
}

/// The entries as a map from key to expiry and value (a later entry for a
/// key wins, though the cache never holds two).
pub open spec fn entries_map<T>(es: Seq<CacheEntry<T>>) -> Map<Seq<char>, (u64, T)>
    decreases es.len(),
{
    if es.len() == 0 {
        Map::empty()
    } else {
        entries_map(es.drop_last()).insert(es.last().key@, (es.last().expires_at, es.last().value))
    }
}

pub open spec fn distinct_keys<T>(es: Seq<CacheEntry<T>>) -> bool {
    forall|i: int, j: int| 0 <= i < j < es.len() ==> #[trigger] es[i].key@ != #[trigger] es[j].key@
}

/// The answers of `m` still fresh at `now`.
pub open spec fn fresh_at<T>(m: Map<Seq<char>, (u64, T)>, now: u64) -> Map<Seq<char>, (u64, T)> {
    Map::new(|k: Seq<char>| m.dom().contains(k) && m[k].0 > now, |k: Seq<char>| m[k])
}

pub proof fn lemma_entries_map<T>(es: Seq<CacheEntry<T>>)
    requires
        distinct_keys(es),
    ensures
        forall|i: int|
            0 <= i < es.len() ==> #[trigger] entries_map(es).dom().contains(es[i].key@)
                && entries_map(es)[es[i].key@] == (es[i].expires_at, es[i].value),
        forall|k: Seq<char>|
            #[trigger] entries_map(es).dom().contains(k) ==> exists|i: int|
                0 <= i < es.len() && #[trigger] es[i].key@ == k,
    decreases es.len(),
{
    if es.len() > 0 {
        let init = es.drop_last();
        let n = es.len() - 1;
        let last = es[n];
        assert(distinct_keys(init)) by {
            assert forall|i: int, j: int| 0 <= i < j < init.len() implies #[trigger] init[i].key@
                != #[trigger] init[j].key@ by {
                assert(init[i] == es[i] && init[j] == es[j]);
            }
        }
        lemma_entries_map(init);
        let mi = entries_map(init);
        assert(entries_map(es) == mi.insert(last.key@, (last.expires_at, last.value)));
        assert forall|i: int| 0 <= i < es.len() implies #[trigger] entries_map(es).dom().contains(
            es[i].key@,
        ) && entries_map(es)[es[i].key@] == (es[i].expires_at, es[i].value) by {
            if i < n {
                assert(init[i] == es[i]);
                assert(mi.dom().contains(init[i].key@));
                assert(es[i].key@ != es[n].key@);
            }
        }
        assert forall|k: Seq<char>| #[trigger] entries_map(es).dom().contains(k) implies exists|
            i: int,
        | 0 <= i < es.len() && #[trigger] es[i].key@ == k by {
            if k == last.key@ {
                assert(es[n].key@ == k);
            } else {
                assert(mi.dom().contains(k));
                let i = choose|i: int| 0 <= i < init.len() && #[trigger] init[i].key@ == k;
                assert(es[i] == init[i]);
            }
        }
    }
}

/// The entries still fresh at `now`, in order.
pub open spec fn fresh_entries<T>(es: Seq<CacheEntry<T>>, now: u64) -> Seq<CacheEntry<T>>
    decreases es.len(),
{
    if es.len() == 0 {
        seq![]
    } else {
        let prev = fresh_entries(es.drop_last(), now);
        if es.last().expires_at > now {
            prev.push(es.last())
        } else {
            prev
        }
    }
}

pub proof fn lemma_fresh_entries<T>(es: Seq<CacheEntry<T>>, now: u64)
    requires
        distinct_keys(es),
    ensures
        distinct_keys(fresh_entries(es, now)),
        fresh_entries(es, now).len() <= es.len(),
        entries_map(fresh_entries(es, now)) == fresh_at(entries_map(es), now),
        forall|i: int|
            0 <= i < fresh_entries(es, now).len() ==> exists|j: int|
                0 <= j < es.len() && #[trigger] es[j].key@ == #[trigger] fresh_entries(es, now)[i].key@,
    decreases es.len(),
{
    if es.len() == 0 {
        assert(fresh_at(entries_map(es), now) =~= Map::<Seq<char>, (u64, T)>::empty());
    } else {
        let init = es.drop_last();
        let n = es.len() - 1;
        let last = es[n];
        assert(distinct_keys(init)) by {
            assert forall|i: int, j: int| 0 <= i < j < init.len() implies #[trigger] init[i].key@
                != #[trigger] init[j].key@ by {
                assert(init[i] == es[i] && init[j] == es[j]);
            }
        }
        lemma_fresh_entries(init, now);
        lemma_entries_map(init);
        let fi = fresh_entries(init, now);
        let mi = entries_map(init);
        assert(!mi.dom().contains(last.key@)) by {
            if mi.dom().contains(last.key@) {
                let j = choose|j: int| 0 <= j < init.len() && #[trigger] init[j].key@ == last.key@;
                assert(es[j] == init[j]);
            }
        }
        assert(entries_map(es) == mi.insert(last.key@, (last.expires_at, last.value)));
        let f = fresh_entries(es, now);
        if last.expires_at > now {
            assert(f == fi.push(last));
            assert(f.drop_last() =~= fi);
            assert forall|i: int, j: int| 0 <= i < j < f.len() implies #[trigger] f[i].key@
                != #[trigger] f[j].key@ by {
                if j == f.len() - 1 {
                    assert(f[i] == fi[i]);
                    let jj = choose|jj: int| 0 <= jj < init.len() && #[trigger] init[jj].key@ == #[trigger] fi[i].key@;
                    assert(es[jj] == init[jj]);
                } else {
                    assert(f[i] == fi[i] && f[j] == fi[j]);
                }
            }
            assert forall|i: int| 0 <= i < f.len() implies exists|j: int|
                0 <= j < es.len() && #[trigger] es[j].key@ == #[trigger] f[i].key@ by {
                if i < fi.len() {
                    assert(f[i] == fi[i]);
                    let jj = choose|jj: int| 0 <= jj < init.len() && #[trigger] init[jj].key@ == #[trigger] fi[i].key@;
                    assert(es[jj] == init[jj]);
                } else {
                    assert(es[n].key@ == f[i].key@);
                }
            }
            assert(entries_map(f) =~= fresh_at(entries_map(es), now));
        } else {
            assert(f == fi);
            assert forall|i: int| 0 <= i < f.len() implies exists|j: int|
                0 <= j < es.len() && #[trigger] es[j].key@ == #[trigger] f[i].key@ by {
                let jj = choose|jj: int| 0 <= jj < init.len() && #[trigger] init[jj].key@ == #[trigger] fi[i].key@;
                assert(es[jj] == init[jj]);
            }
            assert(entries_map(f) =~= fresh_at(entries_map(es), now));
        }
    }
}

/// Two entry lists with the same keyed contents give the same map.
pub proof fn lemma_same_map<T>(a: Seq<CacheEntry<T>>, b: Seq<CacheEntry<T>>, m: Map<Seq<char>, (u64, T)>)
    requires
        distinct_keys(a),
        forall|i: int|
            0 <= i < a.len() ==> #[trigger] m.dom().contains(a[i].key@) && m[a[i].key@] == (
                a[i].expires_at,
                a[i].value,
            ),
        forall|k: Seq<char>|
            #[trigger] m.dom().contains(k) ==> exists|i: int| 0 <= i < a.len() && #[trigger] a[i].key@ == k,
    ensures
        entries_map(a) == m,
{
    lemma_entries_map(a);
    assert forall|k: Seq<char>| #[trigger] entries_map(a).dom().contains(k) <==> m.dom().contains(k) by {
        if entries_map(a).dom().contains(k) {
            let i = choose|i: int| 0 <= i < a.len() && #[trigger] a[i].key@ == k;
        }
        if m.dom().contains(k) {
            let i = choose|i: int| 0 <= i < a.len() && #[trigger] a[i].key@ == k;
        }
    }
    assert forall|k: Seq<char>| #[trigger] entries_map(a).dom().contains(k) implies entries_map(a)[k]
        == m[k] by {
        let i = choose|i: int| 0 <= i < a.len() && #[trigger] a[i].key@ == k;
    }
    assert(entries_map(a) =~= m);
}

pub proof fn lemma_drop_first<T>(es: Seq<CacheEntry<T>>)
    requires
        distinct_keys(es),
        es.len() > 0,
    ensures
        distinct_keys(es.drop_first()),
        entries_map(es.drop_first()) == entries_map(es).remove(es[0].key@),
        entries_map(es).dom().contains(es[0].key@),
{
    let b = es.drop_first();
    assert(distinct_keys(b)) by {
        assert forall|i: int, j: int| 0 <= i < j < b.len() implies #[trigger] b[i].key@
            != #[trigger] b[j].key@ by {
            assert(b[i] == es[i + 1] && b[j] == es[j + 1]);
        }
    }
    lemma_entries_map(es);
    let m = entries_map(es).remove(es[0].key@);
    assert forall|i: int| 0 <= i < b.len() implies #[trigger] m.dom().contains(b[i].key@) && m[b[i].key@]
        == (b[i].expires_at, b[i].value) by {
        assert(b[i] == es[i + 1]);
        assert(es[0].key@ != es[i + 1].key@);
        assert(entries_map(es).dom().contains(es[i + 1].key@));
    }
    assert forall|k: Seq<char>| #[trigger] m.dom().contains(k) implies exists|i: int|
        0 <= i < b.len() && #[trigger] b[i].key@ == k by {
        assert(entries_map(es).dom().contains(k));
        let j = choose|j: int| 0 <= j < es.len() && #[trigger] es[j].key@ == k;
        assert(j != 0);
        assert(b[j - 1] == es[j]);
    }
    lemma_same_map(b, b, m);
    assert(entries_map(es).dom().contains(es[0].key@));
}

pub proof fn lemma_update<T>(es: Seq<CacheEntry<T>>, i: int, e: CacheEntry<T>)
    requires
        distinct_keys(es),
        0 <= i < es.len(),
        e.key@ == es[i].key@,
    ensures
        distinct_keys(es.update(i, e)),
        entries_map(es.update(i, e)) == entries_map(es).insert(e.key@, (e.expires_at, e.value)),
{
    let nb = es.update(i, e);
    assert(distinct_keys(nb)) by {
        assert forall|a: int, b: int| 0 <= a < b < nb.len() implies #[trigger] nb[a].key@
            != #[trigger] nb[b].key@ by {
            assert(es[a].key@ != es[b].key@);
        }
    }
    lemma_entries_map(es);
    let m = entries_map(es).insert(e.key@, (e.expires_at, e.value));
    assert forall|j: int| 0 <= j < nb.len() implies #[trigger] m.dom().contains(nb[j].key@) && m[nb[j].key@]
        == (nb[j].expires_at, nb[j].value) by {
        if j != i {
            assert(nb[j] == es[j]);
            assert(es[j].key@ != es[i].key@);
            assert(entries_map(es).dom().contains(es[j].key@));
        }
    }
    assert forall|k: Seq<char>| #[trigger] m.dom().contains(k) implies exists|j: int|
        0 <= j < nb.len() && #[trigger] nb[j].key@ == k by {
        if k == e.key@ {
            assert(nb[i].key@ == k);
        } else {
            assert(entries_map(es).dom().contains(k));
            let j = choose|j: int| 0 <= j < es.len() && #[trigger] es[j].key@ == k;
            assert(nb[j] == es[j]);
        }
    }
    lemma_same_map(nb, nb, m);
}

pub proof fn lemma_push_new<T>(es: Seq<CacheEntry<T>>, e: CacheEntry<T>)
    requires
        distinct_keys(es),
        forall|j: int| 0 <= j < es.len() ==> #[trigger] es[j].key@ != e.key@,
    ensures
        distinct_keys(es.push(e)),
        entries_map(es.push(e)) == entries_map(es).insert(e.key@, (e.expires_at, e.value)),
{
    let nb = es.push(e);
    assert(nb.drop_last() =~= es);
    assert forall|a: int, b: int| 0 <= a < b < nb.len() implies #[trigger] nb[a].key@
        != #[trigger] nb[b].key@ by {
        if b == nb.len() - 1 {
            assert(nb[a] == es[a]);
        } else {
            assert(nb[a] == es[a] && nb[b] == es[b]);
        }
    }
}

/// A cache of answers by key, each fresh for [`CACHE_TTL_MS`].
pub struct SearchCache<T> {
    entries: Vec<CacheEntry<T>>,
}

impl<T> SearchCache<T> {
    pub closed spec fn entries(self) -> Seq<CacheEntry<T>> {
        self.entries@
    }

    /// The cached answers by key: expiry and value.
    pub open spec fn contents(self) -> Map<Seq<char>, (u64, T)> {
        entries_map(self.entries())
    }

    /// How many answers are held.
    pub open spec fn size(self) -> nat {
        self.entries().len()
    }

    /// No key is held twice.
    #[verifier::type_invariant]
    spec fn wf(self) -> bool {
        distinct_keys(self.entries@)
    }

    /// An empty cache.
    pub fn new() -> (c: Self)
        ensures
            c.contents() == Map::<Seq<char>, (u64, T)>::empty(),
            c.size() == 0,
    {
        SearchCache { entries: Vec::new() }
    }

    /// Drops the answers that are no longer fresh at `now`.
    pub fn prune(&mut self, now: u64)
        ensures
            final(self).contents() == fresh_at(old(self).contents(), now),
            final(self).size() <= old(self).size(),
    {
        proof {
            use_type_invariant(&*self);
        }
        let ghost orig = self.entries@;
        let mut rest: Vec<CacheEntry<T>> = Vec::new();
        std::mem::swap(&mut rest, &mut self.entries);
        let mut kept: Vec<CacheEntry<T>> = Vec::new();
        let ghost mut k: int = 0;
        assert(orig.take(0) =~= Seq::<CacheEntry<T>>::empty());
        while rest.len() > 0
            invariant
                0 <= k <= orig.len(),
                rest@ == orig.skip(k),
                kept@ == fresh_entries(orig.take(k), now),
            decreases rest@.len(),
        {
            let e = rest.remove(0);
            assert(e == orig[k]);
            proof {
                let t = orig.take(k + 1);
                assert(t.drop_last() =~= orig.take(k));
                assert(t.last() == e);
            }
            if e.expires_at > now {
                kept.push(e);
            }
            proof {
                k = k + 1;
                assert(rest@ =~= orig.skip(k));
            }
        }
        proof {
            assert(orig.take(k) =~= orig);
            lemma_fresh_entries(orig, now);
        }
        self.entries = kept;
    }

    /// The answer held for `key`, if any.
    pub fn get(&self, key: &str) -> (r: Option<&T>)
        ensures
            match r {
                Some(v) => self.contents().dom().contains(key@) && self.contents()[key@].1 == *v,
                None => !self.contents().dom().contains(key@),
            },
    {
        proof {
            use_type_invariant(self);
        }
        let k = chars_of(key);
        let mut i: usize = 0;
        while i < self.entries.len()
            invariant
                distinct_keys(self.entries@),
                k@ == key@,
                i <= self.entries@.len(),
                forall|j: int| 0 <= j < i ==> #[trigger] self.entries@[j].key@ != key@,
            decreases self.entries@.len() - i,
        {
            if chars_eq(&chars_of(self.entries[i].key.as_str()), &k) {
                proof {
                    lemma_entries_map(self.entries@);
                }
                return Some(&self.entries[i].value);
            }
            i = i + 1;
        }
        proof {
            lemma_entries_map(self.entries@);
            if self.contents().dom().contains(key@) {
                let j = choose|j: int| 0 <= j < self.entries@.len() && #[trigger] self.entries@[j].key@ == key@;
            }
        }
        None
    }

    /// Stores `value` under `key`, fresh for [`CACHE_TTL_MS`] from `now`.
    /// A full cache first evicts one answer; which one is left open.
    pub fn put(&mut self, key: String, value: T, now: u64)
        requires
            now <= u64::MAX - CACHE_TTL_MS,
        ensures
            old(self).size() < CACHE_LIMIT ==> final(self).contents() == old(self).contents().insert(
                key@,
                ((now + CACHE_TTL_MS) as u64, value),
            ),
            old(self).size() >= CACHE_LIMIT ==> exists|evicted: Seq<char>|
                old(self).contents().dom().contains(evicted) && final(self).contents()
                    == old(self).contents().remove(evicted).insert(
                    key@,
                    ((now + CACHE_TTL_MS) as u64, value),
                ),
            old(self).size() <= CACHE_LIMIT ==> final(self).size() <= CACHE_LIMIT,
    {
        proof {
            use_type_invariant(&*self);
        }
        let ghost orig = self.entries@;
        let mut entries: Vec<CacheEntry<T>> = Vec::new();
        std::mem::swap(&mut entries, &mut self.entries);
        if entries.len() >= CACHE_LIMIT {
            entries.remove(0);
            proof {
                assert(entries@ =~= orig.drop_first());
                lemma_drop_first(orig);
            }
        }
        let ghost base = entries@;
        assert(distinct_keys(base));
        let expires_at = now + CACHE_TTL_MS;
        let k = chars_of(key.as_str());
        let mut i: usize = 0;
        let mut found = false;
        while i < entries.len() && !found
            invariant
                entries@ == base,
                k@ == key@,
                i <= entries@.len(),
                found ==> i < entries@.len() && entries@[i as int].key@ == key@,
                !found ==> forall|j: int| 0 <= j < i ==> #[trigger] entries@[j].key@ != key@,
            decreases entries@.len() - i + if found {
                0int
            } else {
                1int
            },
        {
            if chars_eq(&chars_of(entries[i].key.as_str()), &k) {
                found = true;
            } else {
                i = i + 1;
            }
        }
        let entry = CacheEntry { key, expires_at, value };
        if found {
            entries.set(i, entry);
            proof {
                lemma_update(base, i as int, entry);
            }
        } else {
            entries.push(entry);
            proof {
                lemma_push_new(base, entry);
            }
        }
        self.entries = entries;
        proof {
            if orig.len() >= CACHE_LIMIT {
                let ev = orig[0].key@;
                assert(old(self).contents() == entries_map(orig));
                assert(old(self).contents().dom().contains(ev));
                assert(self.contents() == old(self).contents().remove(ev).insert(
                    key@,
                    ((now + CACHE_TTL_MS) as u64, value),
                ));
            }
        }
    }
}

/// What a put stores is what a read gives back while it is fresh: after
/// storing `value` under `key` at `now` (whatever was evicted), the fresh
/// answers at any moment before the expiry hold `value` under `key`.
pub proof fn put_then_get_returns_value<T>(
    m: Map<Seq<char>, (u64, T)>,
    evicted: Seq<char>,
    key: Seq<char>,
    value: T,
    now: u64,
    later: u64,
)
    requires
        now <= u64::MAX - CACHE_TTL_MS,
        later < now + CACHE_TTL_MS,
    ensures
        fresh_at(m.insert(key, ((now + CACHE_TTL_MS) as u64, value)), later).dom().contains(key),
        fresh_at(m.insert(key, ((now + CACHE_TTL_MS) as u64, value)), later)[key].1 == value,
        fresh_at(m.remove(evicted).insert(key, ((now + CACHE_TTL_MS) as u64, value)), later).dom().contains(
            key,
        ),
        fresh_at(m.remove(evicted).insert(key, ((now + CACHE_TTL_MS) as u64, value)), later)[key].1
            == value,
{
}

/// Nothing stale is ever read: every answer left after pruning at `now`
/// is still fresh then.
pub proof fn pruned_answers_are_fresh<T>(m: Map<Seq<char>, (u64, T)>, now: u64, key: Seq<char>)
    requires
        fresh_at(m, now).dom().contains(key),
    ensures
        fresh_at(m, now)[key].0 > now,
        m.dom().contains(key),
{
}

} // verus!
