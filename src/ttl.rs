//! Expiry times of keys, for lazy expiration on reads.
use crate::clock::now_micros;
use crate::keys::{
    assoc_map, index_of, key_lt, lemma_assoc_absent, lemma_assoc_at, lemma_assoc_insert,
    lemma_assoc_len, lemma_assoc_push, lemma_assoc_remove, lemma_assoc_update,
    lemma_key_lt_irreflexive, locate, sorted_keys,
};
use crate::memtable::copy_bytes;
use crate::types::Key;
use vstd::prelude::*;

verus! {

/// The model of a list of `(key, expiry)` pairs.
pub open spec fn ttl_listing(v: Seq<(Vec<u8>, u64)>) -> Seq<(Seq<u8>, u64)> {
    v.map_values(|p: (Vec<u8>, u64)| (p.0@, p.1))
}

/// The model of a list of keys.
pub open spec fn keys_view(v: Seq<Vec<u8>>) -> Seq<Seq<u8>> {
    v.map_values(|k: Vec<u8>| k@)
}

/// Keys that ascend strictly, hence each occurs once.
pub open spec fn keys_ascending(ks: Seq<Seq<u8>>) -> bool {
    forall|a: int, b: int| #![trigger ks[a], ks[b]] 0 <= a < b < ks.len() ==> key_lt(ks[a], ks[b])
}

/// Keys of `m` whose expiry is at or before `now`.
pub open spec fn expired_keys(m: Map<Seq<u8>, u64>, now: u64) -> Set<Seq<u8>> {
    m.dom().filter(|k: Seq<u8>| now >= m[k])
}

/// `m` without the keys expired at `now`.
pub open spec fn unexpired(m: Map<Seq<u8>, u64>, now: u64) -> Map<Seq<u8>, u64> {
    m.remove_keys(expired_keys(m, now))
}

/// Whether `key` has expired at `now`: it has an expiry, and that is not after `now`.
pub open spec fn expired_at(m: Map<Seq<u8>, u64>, key: Seq<u8>, now: u64) -> bool {
    m.contains_key(key) && now >= m[key]
}

/// Milliseconds left at `now` before `key` expires: `None` without an expiry, 0 once expired.
pub open spec fn remaining_at(m: Map<Seq<u8>, u64>, key: Seq<u8>, now: u64) -> Option<u64> {
    if !m.contains_key(key) {
        None
    } else if now >= m[key] {
        Some(0)
    } else {
        Some((m[key] - now) as u64)
    }
}

/// `now + ttl`, or the largest time where that does not fit.
pub open spec fn deadline(now: u64, ttl: u64) -> u64 {
    if now + ttl > u64::MAX {
        u64::MAX
    } else {
        (now + ttl) as u64
    }
}

/// Current time in milliseconds since the Unix epoch.
fn now_ms() -> u64 {
    now_micros() / 1000
}

/// Expiry timestamps (Unix milliseconds) by key; a key without one never expires.
pub struct TtlIndex {
    expirations: Vec<(Vec<u8>, u64)>,
}

impl View for TtlIndex {
    type V = Map<Seq<u8>, u64>;

    open spec fn view(&self) -> Map<Seq<u8>, u64> {
        assoc_map(self.listing())
    }
}

impl Default for TtlIndex {
    fn default() -> (r: TtlIndex)
        ensures
            r.wf(),
            r@ == Map::<Seq<u8>, u64>::empty(),
    {
        TtlIndex::new()
    }
}

impl TtlIndex {
    /// The expiries in key order.
    pub closed spec fn listing(&self) -> Seq<(Seq<u8>, u64)> {
        ttl_listing(self.expirations@)
    }

    /// Keys ascend strictly.
    pub closed spec fn wf(&self) -> bool {
        sorted_keys(self.listing())
    }

    proof fn lemma_entries_sorted(&self)
        requires
            self.wf(),
        ensures
            forall|i: int, j: int|
                #![trigger self.expirations@[i], self.expirations@[j]]
                0 <= i < j < self.expirations@.len() ==> key_lt(
                    self.expirations@[i].0@,
                    self.expirations@[j].0@,
                ),
    {
        assert forall|i: int, j: int|
            #![trigger self.expirations@[i], self.expirations@[j]]
            0 <= i < j < self.expirations@.len() implies key_lt(
                self.expirations@[i].0@,
                self.expirations@[j].0@,
            ) by {
            assert(self.listing()[i].0 == self.expirations@[i].0@);
            assert(self.listing()[j].0 == self.expirations@[j].0@);
        }
    }

    /// An empty index.
    pub fn new() -> (r: TtlIndex)
        ensures
            r.wf(),
            r@ == Map::<Seq<u8>, u64>::empty(),
    {
        let r = TtlIndex { expirations: Vec::new() };
        assert(r.listing() =~= Seq::<(Seq<u8>, u64)>::empty());
        assert(r@ =~= Map::<Seq<u8>, u64>::empty());
        r
    }

    /// Sets the expiry of `key` to the absolute time `expires_at_ms`.
    pub fn set_expiration(&mut self, key: Key, expires_at_ms: u64)
        requires
            old(self).wf(),
        ensures
            final(self).wf(),
            final(self)@ == old(self)@.insert(key@, expires_at_ms),
    {
        let ghost s = self.listing();
        proof {
            self.lemma_entries_sorted();
        }
        match locate(&self.expirations, key.as_slice()) {
            Ok(i) => {
                proof {
                    lemma_assoc_update(s, i as int, expires_at_ms);
                }
                self.expirations.set(i, (key, expires_at_ms));
                assert(self.listing() =~= s.update(i as int, (s[i as int].0, expires_at_ms)));
            },
            Err(i) => {
                proof {
                    lemma_assoc_insert(s, key@, expires_at_ms, i as int);
                }
                self.expirations.insert(i, (key, expires_at_ms));
                assert(self.listing() =~= s.insert(i as int, (key@, expires_at_ms)));
            },
        }
    }

    /// Makes `key` expire `ttl_ms` milliseconds after `now_ms`.
    pub fn set_ttl_at(&mut self, key: Key, ttl_ms: u64, now_ms: u64)
        requires
            old(self).wf(),
        ensures
            final(self).wf(),
            final(self)@ == old(self)@.insert(key@, deadline(now_ms, ttl_ms)),
    {
        let at = now_ms.saturating_add(ttl_ms);
        self.set_expiration(key, at);
    }

    /// Makes `key` expire `ttl_ms` milliseconds from now.
    pub fn set_ttl(&mut self, key: Key, ttl_ms: u64)
        requires
            old(self).wf(),
        ensures
            final(self).wf(),
            exists|t: u64| final(self)@ == old(self)@.insert(key@, #[trigger] deadline(t, ttl_ms)),
            final(self)@[key@] >= ttl_ms,
    {
        let now = now_ms();
        let ghost k = key@;
        self.set_ttl_at(key, ttl_ms, now);
        assert(final(self)@ == old(self)@.insert(k, deadline(now, ttl_ms)));
    }

    /// Drops the expiry of `key`, which then never expires.
    pub fn remove_ttl(&mut self, key: &[u8])
        requires
            old(self).wf(),
        ensures
            final(self).wf(),
            final(self)@ == old(self)@.remove(key@),
    {
        let ghost s = self.listing();
        proof {
            self.lemma_entries_sorted();
        }
        match locate(&self.expirations, key) {
            Ok(i) => {
                proof {
                    lemma_assoc_remove(s, i as int);
                }
                self.expirations.remove(i);
                assert(self.listing() =~= s.remove(i as int));
            },
            Err(i) => {
                proof {
                    lemma_assoc_absent(s, key@, i as int);
                }
                assert(self@ =~= self@.remove(key@));
            },
        }
    }

    /// The expiry of `key`, if it has one.
    pub fn get_expiration(&self, key: &[u8]) -> (r: Option<u64>)
        requires
            self.wf(),
        ensures
            r == (if self@.contains_key(key@) {
                Some(self@[key@])
            } else {
                None
            }),
    {
        proof {
            self.lemma_entries_sorted();
        }
        match locate(&self.expirations, key) {
            Ok(i) => {
                proof {
                    lemma_assoc_at(self.listing(), i as int);
                }
                Some(self.expirations[i].1)
            },
            Err(i) => {
                proof {
                    lemma_assoc_absent(self.listing(), key@, i as int);
                }
                None
            },
        }
    }

    /// Whether `key` has expired at time `now_ms`.
    pub fn is_expired_at(&self, key: &[u8], now_ms: u64) -> (r: bool)
        requires
            self.wf(),
        ensures
            r == expired_at(self@, key@, now_ms),
    {
        match self.get_expiration(key) {
            Some(at) => now_ms >= at,
            None => false,
        }
    }

    /// Whether `key` has expired now; a key without an expiry never has.
    pub fn is_expired(&self, key: &[u8]) -> (r: bool)
        requires
            self.wf(),
        ensures
            exists|t: u64| r == #[trigger] expired_at(self@, key@, t),
    {
        let now = now_ms();
        let r = self.is_expired_at(key, now);
        assert(r == expired_at(self@, key@, now));
        r
    }

    /// Milliseconds left at `now_ms` before `key` expires.
    pub fn remaining_ttl_at(&self, key: &[u8], now_ms: u64) -> (r: Option<u64>)
        requires
            self.wf(),
        ensures
            r == remaining_at(self@, key@, now_ms),
    {
        match self.get_expiration(key) {
            Some(at) => {
                if now_ms >= at {
                    Some(0)
                } else {
                    Some(at - now_ms)
                }
            },
            None => None,
        }
    }

    /// Milliseconds left before `key` expires: `None` without an expiry, `Some(0)`
    /// once expired.
    pub fn remaining_ttl(&self, key: &[u8]) -> (r: Option<u64>)
        requires
            self.wf(),
        ensures
            exists|t: u64| r == #[trigger] remaining_at(self@, key@, t),
    {
        let now = now_ms();
        let r = self.remaining_ttl_at(key, now);
        assert(r == remaining_at(self@, key@, now));
        r
    }

    /// Splits the pairs into those that have not expired at `now` and the keys of
    /// those that have.
    fn split_at_time(&self, now: u64) -> (r: (Vec<(Vec<u8>, u64)>, Vec<Vec<u8>>))
        requires
            self.wf(),
        ensures
            sorted_keys(ttl_listing(r.0@)),
            assoc_map(ttl_listing(r.0@)) == unexpired(self@, now),
            keys_view(r.1@).no_duplicates(),
            keys_ascending(keys_view(r.1@)),
            keys_view(r.1@).to_set() == expired_keys(self@, now),
            r.0@.len() + r.1@.len() == self.listing().len(),
    {
        let ghost s = self.listing();
        let mut keep: Vec<(Vec<u8>, u64)> = Vec::new();
        let mut gone: Vec<Vec<u8>> = Vec::new();
        let mut i: usize = 0;
        assert(s.take(0) =~= Seq::<(Seq<u8>, u64)>::empty());
        assert(assoc_map(ttl_listing(keep@)) =~= unexpired(assoc_map(s.take(0)), now));
        assert(keys_view(gone@).to_set() =~= expired_keys(assoc_map(s.take(0)), now));
        while i < self.expirations.len()
            invariant
                i <= self.expirations@.len(),
                s == self.listing(),
                sorted_keys(s),
                s.len() == self.expirations@.len(),
                sorted_keys(ttl_listing(keep@)),
                assoc_map(ttl_listing(keep@)) == unexpired(assoc_map(s.take(i as int)), now),
                forall|a: int, b: int|
                    #![trigger keys_view(gone@)[a], keys_view(gone@)[b]]
                    0 <= a < b < gone@.len() ==> key_lt(keys_view(gone@)[a], keys_view(gone@)[b]),
                keys_view(gone@).to_set() == expired_keys(assoc_map(s.take(i as int)), now),
                keep@.len() + gone@.len() == i,
            decreases self.expirations@.len() - i,
        {
            let ghost pre = s.take(i as int);
            let ghost k = s[i as int].0;
            let ghost at = s[i as int].1;
            proof {
                assert(s.take(i + 1) =~= pre.push(s[i as int]));
                assert forall|j: int| 0 <= j < pre.len() implies key_lt(#[trigger] pre[j].0, k) by {
                    assert(pre[j] == s[j]);
                }
                lemma_assoc_push(pre, k, at);
                assert(!assoc_map(pre).contains_key(k)) by {
                    if assoc_map(pre).contains_key(k) {
                        let jj = index_of(pre, k);
                        assert(pre[jj] == s[jj]);
                        lemma_key_lt_irreflexive(k);
                    }
                }
            }
            let e = &self.expirations[i];
            assert(e.0@ == k && e.1 == at);
            if now >= e.1 {
                let ghost before = keys_view(gone@);
                proof {
                    assert forall|j: int| 0 <= j < before.len() implies key_lt(
                        #[trigger] before[j],
                        k,
                    ) by {
                        assert(before.to_set().contains(before[j]));
                        let q = before[j];
                        let jj = index_of(pre, q);
                        assert(pre[jj] == s[jj]);
                    }
                }
                gone.push(copy_bytes(&e.0));
                proof {
                    assert(keys_view(gone@) =~= before.push(k));
                    assert forall|a: int, b: int|
                        #![trigger keys_view(gone@)[a], keys_view(gone@)[b]]
                        0 <= a < b < gone@.len() implies key_lt(
                        keys_view(gone@)[a],
                        keys_view(gone@)[b],
                    ) by {
                        if b == gone@.len() - 1 {
                            assert(keys_view(gone@)[a] == before[a]);
                        } else {
                            assert(keys_view(gone@)[a] == before[a]);
                            assert(keys_view(gone@)[b] == before[b]);
                        }
                    }
                    assert(s[i as int] == (k, at));
                    assert(assoc_map(s.take(i + 1)) == assoc_map(pre).insert(k, at));
                    assert forall|q: Seq<u8>| #[trigger] expired_keys(assoc_map(s.take(i + 1)), now).contains(q)
                        == (expired_keys(assoc_map(pre), now).contains(q) || q == k) by {}
                    assert forall|q: Seq<u8>| #[trigger] keys_view(gone@).to_set().contains(q)
                        == (before.to_set().contains(q) || q == k) by {
                        if keys_view(gone@).to_set().contains(q) {
                            let j = choose|j: int| 0 <= j < keys_view(gone@).len() && keys_view(gone@)[j] == q;
                            if j < before.len() {
                                assert(before[j] == q);
                            }
                        }
                        if before.to_set().contains(q) {
                            let j = choose|j: int| 0 <= j < before.len() && before[j] == q;
                            assert(keys_view(gone@)[j] == q);
                        }
                        if q == k {
                            assert(keys_view(gone@)[before.len() as int] == q);
                        }
                    }
                    assert(keys_view(gone@).to_set() =~= expired_keys(
                        assoc_map(s.take(i + 1)),
                        now,
                    ));
                    assert(assoc_map(ttl_listing(keep@)) =~= unexpired(
                        assoc_map(s.take(i + 1)),
                        now,
                    ));
                }
            } else {
                let ghost before = ttl_listing(keep@);
                proof {
                    assert forall|j: int| 0 <= j < before.len() implies key_lt(
                        #[trigger] before[j].0,
                        k,
                    ) by {
                        lemma_assoc_at(before, j);
                        let q = before[j].0;
                        let jj = index_of(pre, q);
                        assert(pre[jj] == s[jj]);
                    }
                    lemma_assoc_push(before, k, at);
                }
                keep.push((copy_bytes(&e.0), e.1));
                proof {
                    assert(ttl_listing(keep@) =~= before.push((k, at)));
                    assert(assoc_map(ttl_listing(keep@)) =~= unexpired(
                        assoc_map(s.take(i + 1)),
                        now,
                    ));
                    assert(s[i as int] == (k, at));
                    assert(assoc_map(s.take(i + 1)) == assoc_map(pre).insert(k, at));
                    assert forall|q: Seq<u8>| #[trigger] expired_keys(assoc_map(s.take(i + 1)), now).contains(q)
                        == expired_keys(assoc_map(pre), now).contains(q) by {
                        if q == k {
                            assert(!(now >= at));
                        }
                    }
                    assert(keys_view(gone@).to_set() =~= expired_keys(
                        assoc_map(s.take(i + 1)),
                        now,
                    ));
                }
            }
            i = i + 1;
        }
        assert(s.take(i as int) =~= s);
        proof {
            let g = keys_view(gone@);
            assert forall|a: int, b: int| 0 <= a < g.len() && 0 <= b < g.len() && a != b implies g[a]
                != g[b] by {
                if a < b {
                    lemma_key_lt_irreflexive(g[a]);
                    assert(key_lt(g[a], g[b]));
                } else {
                    lemma_key_lt_irreflexive(g[b]);
                    assert(key_lt(g[b], g[a]));
                }
            }
        }
        (keep, gone)
    }

    /// The keys expired at `now_ms`, each once, in key order.
    pub fn collect_expired_at(&self, now_ms: u64) -> (r: Vec<Key>)
        requires
            self.wf(),
        ensures
            keys_ascending(keys_view(r@)),
            keys_view(r@).no_duplicates(),
            keys_view(r@).to_set() == expired_keys(self@, now_ms),
    {
        let (_keep, gone) = self.split_at_time(now_ms);
        gone
    }

    /// The keys expired now, each once, in key order.
    pub fn collect_expired(&self) -> (r: Vec<Key>)
        requires
            self.wf(),
        ensures
            keys_ascending(keys_view(r@)),
            keys_view(r@).no_duplicates(),
            exists|t: u64| keys_view(r@).to_set() == #[trigger] expired_keys(self@, t),
    {
        let now = now_ms();
        let r = self.collect_expired_at(now);
        assert(keys_view(r@).to_set() == expired_keys(self@, now));
        r
    }

    /// Drops every expiry that has passed at `now_ms`; returns how many were dropped.
    pub fn purge_expired_at(&mut self, now_ms: u64) -> (r: usize)
        requires
            old(self).wf(),
        ensures
            final(self).wf(),
            final(self)@ == unexpired(old(self)@, now_ms),
            r == old(self)@.len() - final(self)@.len(),
            r == expired_keys(old(self)@, now_ms).len(),
    {
        let (keep, gone) = self.split_at_time(now_ms);
        proof {
            lemma_assoc_len(self.listing());
            lemma_assoc_len(ttl_listing(keep@));
            keys_view(gone@).unique_seq_to_set();
        }
        self.expirations = keep;
        gone.len()
    }

    /// Drops every expiry that has passed; returns how many were dropped.
    pub fn purge_expired(&mut self) -> (r: usize)
        requires
            old(self).wf(),
        ensures
            final(self).wf(),
            exists|t: u64|
                final(self)@ == #[trigger] unexpired(old(self)@, t) && r == expired_keys(
                    old(self)@,
                    t,
                ).len(),
            r == old(self)@.len() - final(self)@.len(),
    {
        let now = now_ms();
        let r = self.purge_expired_at(now);
        assert(final(self)@ == unexpired(old(self)@, now) && r == expired_keys(old(self)@, now).len());
        r
    }

    /// Number of keys with an expiry.
    pub fn len(&self) -> (r: usize)
        requires
            self.wf(),
        ensures
            r == self@.len(),
            self@.dom().finite(),
    {
        proof {
            lemma_assoc_len(self.listing());
        }
        self.expirations.len()
    }

    /// The index holds finitely many keys, so inserting or removing one changes
    /// [`TtlIndex::len`] by at most one.
    pub proof fn lemma_finite(&self)
        requires
            self.wf(),
        ensures
            self@.dom().finite(),
    {
        lemma_assoc_len(self.listing());
    }

    /// No key has an expiry.
    pub fn is_empty(&self) -> (r: bool)
        requires
            self.wf(),
        ensures
            r == (self@.len() == 0),
    {
        proof {
            lemma_assoc_len(self.listing());
        }
        self.expirations.len() == 0
    }
}

} // verus!
