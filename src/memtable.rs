//! The in-memory write buffer: a sorted map from key to value or tombstone,
//! with an account of the bytes it holds.
use crate::keys::{
    assoc_map, index_of, key_le, key_lt, lemma_assoc_absent, lemma_assoc_at, lemma_assoc_insert,
    lemma_assoc_len, lemma_assoc_push, lemma_assoc_update, lemma_key_lt_irreflexive, locate, sorted_keys,
};
use vstd::prelude::*;
use vstd::slice::slice_to_vec;

verus! {

/// The model of a stored value: `None` is a tombstone.
pub open spec fn slot_view(v: Option<Vec<u8>>) -> Option<Seq<u8>> {
    match v {
        Some(x) => Some(x@),
        None => None,
    }
}

/// The model of one stored pair.
pub open spec fn pair_view(p: (Vec<u8>, Option<Vec<u8>>)) -> (Seq<u8>, Option<Seq<u8>>) {
    (p.0@, slot_view(p.1))
}

/// Bytes that one entry accounts for: key and value, or the key alone for a tombstone.
pub open spec fn contribution(k: Seq<u8>, v: Option<Seq<u8>>) -> nat {
    k.len() + match v {
        Some(x) => x.len(),
        None => 0,
    }
}

/// Bytes that the entry of `k` accounts for in `m`, 0 where `m` has no entry for `k`.
pub open spec fn contribution_in(m: Map<Seq<u8>, Option<Seq<u8>>>, k: Seq<u8>) -> nat {
    if m.contains_key(k) {
        contribution(k, m[k])
    } else {
        0
    }
}

/// Sum of the contributions of the pairs of a list.
pub open spec fn footprint(s: Seq<(Seq<u8>, Option<Seq<u8>>)>) -> nat
    decreases s.len(),
{
    if s.len() == 0 {
        0
    } else {
        footprint(s.drop_last()) + contribution(s.last().0, s.last().1)
    }
}

/// The live value of `k` in `m`: `None` where `m` has no entry or a tombstone.
pub open spec fn live_value(m: Map<Seq<u8>, Option<Seq<u8>>>, k: Seq<u8>) -> Option<Seq<u8>> {
    if m.contains_key(k) {
        m[k]
    } else {
        None
    }
}

/// The live pairs of `m`, tombstones left out.
pub open spec fn live_part(m: Map<Seq<u8>, Option<Seq<u8>>>) -> Map<Seq<u8>, Seq<u8>> {
    Map::new(|k: Seq<u8>| m.contains_key(k) && m[k] is Some, |k: Seq<u8>| m[k]->0)
}

/// Which keys a scan reports.
pub enum KeyWindow<'a> {
    All,
    Range(&'a [u8], &'a [u8]),
    Prefix(&'a [u8]),
}

/// `p` is a prefix of `k`.
pub open spec fn is_prefix(p: Seq<u8>, k: Seq<u8>) -> bool {
    p.len() <= k.len() && k.subrange(0, p.len() as int) == p
}

/// `k` falls in the window.
pub open spec fn in_window(w: KeyWindow, k: Seq<u8>) -> bool {
    match w {
        KeyWindow::All => true,
        KeyWindow::Range(start, end) => key_le(start@, k) && key_lt(k, end@),
        KeyWindow::Prefix(p) => is_prefix(p@, k),
    }
}

/// The live pairs of `m` whose keys fall in the window.
pub open spec fn window_part(m: Map<Seq<u8>, Option<Seq<u8>>>, w: KeyWindow) -> Map<
    Seq<u8>,
    Seq<u8>,
> {
    live_part(m).restrict(live_part(m).dom().filter(|k: Seq<u8>| in_window(w, k)))
}

/// The model of a scan result.
pub open spec fn scan_view(r: Seq<(&Vec<u8>, &Vec<u8>)>) -> Seq<(Seq<u8>, Seq<u8>)> {
    r.map_values(|p: (&Vec<u8>, &Vec<u8>)| (p.0@, p.1@))
}

pub proof fn lemma_footprint_concat(s: Seq<(Seq<u8>, Option<Seq<u8>>)>, t: Seq<(Seq<u8>, Option<Seq<u8>>)>)
    ensures
        footprint(s + t) == footprint(s) + footprint(t),
    decreases t.len(),
{
    if t.len() == 0 {
        assert(s + t =~= s);
    } else {
        assert((s + t).drop_last() =~= s + t.drop_last());
        lemma_footprint_concat(s, t.drop_last());
    }
}

proof fn lemma_footprint_single(e: (Seq<u8>, Option<Seq<u8>>))
    ensures
        footprint(seq![e]) == contribution(e.0, e.1),
{
    let none = Seq::<(Seq<u8>, Option<Seq<u8>>)>::empty();
    assert(seq![e].drop_last() =~= none);
    assert(footprint(none) == 0);
    assert(seq![e].last() == e);
}

/// Splits a list around position `p`, for the footprint.
proof fn lemma_footprint_at(s: Seq<(Seq<u8>, Option<Seq<u8>>)>, p: int)
    requires
        0 <= p < s.len(),
    ensures
        footprint(s) == footprint(s.take(p)) + contribution(s[p].0, s[p].1) + footprint(
            s.skip(p + 1),
        ),
{
    assert(s =~= s.take(p) + seq![s[p]] + s.skip(p + 1));
    lemma_footprint_concat(s.take(p) + seq![s[p]], s.skip(p + 1));
    lemma_footprint_concat(s.take(p), seq![s[p]]);
    lemma_footprint_single(s[p]);
}

/// The model of a list of stored pairs.
pub open spec fn listing_of(v: Seq<(Vec<u8>, Option<Vec<u8>>)>) -> Seq<(Seq<u8>, Option<Seq<u8>>)> {
    v.map_values(|p: (Vec<u8>, Option<Vec<u8>>)| pair_view(p))
}

proof fn lemma_listing_sorted(v: Seq<(Vec<u8>, Option<Vec<u8>>)>)
    requires
        sorted_keys(listing_of(v)),
    ensures
        forall|i: int, j: int|
            #![trigger v[i], v[j]]
            0 <= i < j < v.len() ==> key_lt(v[i].0@, v[j].0@),
{
    assert forall|i: int, j: int| #![trigger v[i], v[j]] 0 <= i < j < v.len() implies key_lt(
        v[i].0@,
        v[j].0@,
    ) by {
        assert(listing_of(v)[i] == pair_view(v[i]));
        assert(listing_of(v)[j] == pair_view(v[j]));
    }
}

/// Stores `slot` at `key` in a list kept in key order.
pub fn store_slot(entries: &mut Vec<(Vec<u8>, Option<Vec<u8>>)>, key: Vec<u8>, slot: Option<Vec<u8>>)
    requires
        sorted_keys(listing_of(old(entries)@)),
    ensures
        sorted_keys(listing_of(final(entries)@)),
        assoc_map(listing_of(final(entries)@)) == assoc_map(listing_of(old(entries)@)).insert(
            key@,
            slot_view(slot),
        ),
{
    let ghost s = listing_of(entries@);
    let ghost e = (key@, slot_view(slot));
    proof {
        lemma_listing_sorted(entries@);
    }
    match locate(entries, key.as_slice()) {
        Ok(i) => {
            proof {
                lemma_assoc_update(s, i as int, e.1);
            }
            entries.set(i, (key, slot));
            assert(listing_of(entries@) =~= s.update(i as int, e));
        },
        Err(i) => {
            proof {
                lemma_assoc_insert(s, key@, e.1, i as int);
            }
            entries.insert(i, (key, slot));
            assert(listing_of(entries@) =~= s.insert(i as int, e));
        },
    }
}

/// A copy of a byte string.
pub fn copy_bytes(b: &Vec<u8>) -> (r: Vec<u8>)
    ensures
        r@ == b@,
{
    slice_to_vec(b.as_slice())
}

/// Owned copies of the live pairs of a list kept in key order.
pub fn live_pairs(entries: &Vec<(Vec<u8>, Option<Vec<u8>>)>) -> (r: Vec<(Vec<u8>, Vec<u8>)>)
    requires
        sorted_keys(listing_of(entries@)),
    ensures
        sorted_keys(owned_view(r@)),
        assoc_map(owned_view(r@)) == live_part(assoc_map(listing_of(entries@))),
{
    let ghost s = listing_of(entries@);
    let mut out: Vec<(Vec<u8>, Vec<u8>)> = Vec::new();
    let mut i: usize = 0;
    assert(s.take(0) =~= Seq::<(Seq<u8>, Option<Seq<u8>>)>::empty());
    assert(assoc_map(owned_view(out@)) =~= live_part(assoc_map(s.take(0))));
    while i < entries.len()
        invariant
            i <= entries@.len(),
            s == listing_of(entries@),
            sorted_keys(s),
            s.len() == entries@.len(),
            sorted_keys(owned_view(out@)),
            assoc_map(owned_view(out@)) == live_part(assoc_map(s.take(i as int))),
        decreases entries@.len() - i,
    {
        let ghost pre = s.take(i as int);
        let ghost k = s[i as int].0;
        proof {
            assert(s.take(i + 1) =~= pre.push(s[i as int]));
            assert forall|j: int| 0 <= j < pre.len() implies key_lt(#[trigger] pre[j].0, k) by {
                assert(pre[j] == s[j]);
            }
            lemma_assoc_push(pre, k, s[i as int].1);
            assert forall|j: int| 0 <= j < owned_view(out@).len() implies key_lt(
                #[trigger] owned_view(out@)[j].0,
                k,
            ) by {
                lemma_assoc_at(owned_view(out@), j);
                let q = owned_view(out@)[j].0;
                let jj = index_of(pre, q);
                assert(pre[jj] == s[jj]);
            }
            assert(!assoc_map(pre).contains_key(k)) by {
                if assoc_map(pre).contains_key(k) {
                    let jj = index_of(pre, k);
                    assert(pre[jj] == s[jj]);
                    lemma_key_lt_irreflexive(k);
                }
            }
        }
        let e = &entries[i];
        assert(pair_view(*e) == s[i as int]);
        match &e.1 {
            Some(v) => {
                let ghost before = owned_view(out@);
                let kc = copy_bytes(&e.0);
                let vc = copy_bytes(v);
                out.push((kc, vc));
                proof {
                    assert(owned_view(out@) =~= before.push((k, v@)));
                    lemma_assoc_push(before, k, v@);
                    assert(assoc_map(owned_view(out@)) =~= live_part(assoc_map(s.take(i + 1))));
                }
            },
            None => {
                assert(assoc_map(owned_view(out@)) =~= live_part(assoc_map(s.take(i + 1))));
            },
        }
        i = i + 1;
    }
    assert(s.take(i as int) =~= s);
    out
}

/// The model of a list of owned pairs.
pub open spec fn owned_view(r: Seq<(Vec<u8>, Vec<u8>)>) -> Seq<(Seq<u8>, Seq<u8>)> {
    r.map_values(|p: (Vec<u8>, Vec<u8>)| (p.0@, p.1@))
}

/// Whether `k` begins with `p`.
pub fn starts_with(k: &[u8], p: &[u8]) -> (r: bool)
    ensures
        r == is_prefix(p@, k@),
{
    if p.len() > k.len() {
        return false;
    }
    let mut i: usize = 0;
    while i < p.len()
        invariant
            i <= p.len() <= k.len(),
            k@.subrange(0, i as int) == p@.subrange(0, i as int),
        decreases p.len() - i,
    {
        if k[i] != p[i] {
            assert(k@.subrange(0, p.len() as int)[i as int] != p@[i as int]);
            return false;
        }
        assert(k@.subrange(0, i + 1) =~= k@.subrange(0, i as int).push(k[i as int]));
        assert(p@.subrange(0, i + 1) =~= p@.subrange(0, i as int).push(p[i as int]));
        i = i + 1;
    }
    assert(p@.subrange(0, i as int) =~= p@);
    true
}

/// Sorted in-memory buffer of pending writes; `None` values are tombstones.
pub struct MemTable {
    entries: Vec<(Vec<u8>, Option<Vec<u8>>)>,
    size_bytes: usize,
}

impl View for MemTable {
    type V = Map<Seq<u8>, Option<Seq<u8>>>;

    open spec fn view(&self) -> Map<Seq<u8>, Option<Seq<u8>>> {
        assoc_map(self.listing())
    }
}

impl Default for MemTable {
    fn default() -> (r: MemTable)
        ensures
            r.wf(),
            r@ == Map::<Seq<u8>, Option<Seq<u8>>>::empty(),
            r.size_spec() == 0,
    {
        MemTable::new()
    }
}

impl MemTable {
    /// The entries in key order.
    pub closed spec fn listing(&self) -> Seq<(Seq<u8>, Option<Seq<u8>>)> {
        listing_of(self.entries@)
    }

    /// The byte count that [`MemTable::size`] reports.
    pub closed spec fn size_spec(&self) -> nat {
        self.size_bytes as nat
    }

    proof fn lemma_entries_sorted(&self)
        requires
            sorted_keys(self.listing()),
        ensures
            forall|i: int, j: int|
                #![trigger self.entries@[i], self.entries@[j]]
                0 <= i < j < self.entries@.len() ==> key_lt(
                    self.entries@[i].0@,
                    self.entries@[j].0@,
                ),
    {
        assert forall|i: int, j: int|
            #![trigger self.entries@[i], self.entries@[j]]
            0 <= i < j < self.entries@.len() implies key_lt(
                self.entries@[i].0@,
                self.entries@[j].0@,
            ) by {
            assert(self.listing()[i] == pair_view(self.entries@[i]));
            assert(self.listing()[j] == pair_view(self.entries@[j]));
        }
    }

    /// Keys ascend strictly, and the byte count is the sum of the entries' contributions.
    pub closed spec fn wf(&self) -> bool {
        &&& sorted_keys(self.listing())
        &&& self.size_bytes == footprint(self.listing())
    }

    /// Keys ascend strictly in the listing, which holds each entry of the map once,
    /// and the byte count is the sum of the entries' contributions.
    pub proof fn lemma_size_is_footprint(&self)
        requires
            self.wf(),
        ensures
            sorted_keys(self.listing()),
            self@ == assoc_map(self.listing()),
            self.listing().len() == self@.len(),
            self.size_spec() == footprint(self.listing()),
    {
        lemma_assoc_len(self.listing());
    }

    /// An empty table.
    pub fn new() -> (r: MemTable)
        ensures
            r.wf(),
            r@ == Map::<Seq<u8>, Option<Seq<u8>>>::empty(),
            r.size_spec() == 0,
    {
        let r = MemTable { entries: Vec::new(), size_bytes: 0 };
        assert(r.listing() =~= Seq::<(Seq<u8>, Option<Seq<u8>>)>::empty());
        assert(r@ =~= Map::<Seq<u8>, Option<Seq<u8>>>::empty());
        r
    }

    /// Bytes accounted for by the live entries and tombstones.
    pub fn size(&self) -> (r: usize)
        ensures
            r == self.size_spec(),
    {
        self.size_bytes
    }

    /// Number of entries, tombstones included.
    pub fn len(&self) -> (r: usize)
        requires
            self.wf(),
        ensures
            r == self@.len(),
    {
        proof {
            lemma_assoc_len(self.listing());
        }
        self.entries.len()
    }

    /// No entry at all, not even a tombstone.
    pub fn is_empty(&self) -> (r: bool)
        requires
            self.wf(),
        ensures
            r == (self@.len() == 0),
    {
        proof {
            lemma_assoc_len(self.listing());
        }
        self.entries.len() == 0
    }

    /// Puts `slot` at `key`, with the byte count kept.
    fn put_slot(&mut self, key: Vec<u8>, slot: Option<Vec<u8>>)
        requires
            old(self).wf(),
            old(self).size_spec() + contribution(key@, slot_view(slot)) <= usize::MAX,
        ensures
            final(self).wf(),
            final(self)@ == old(self)@.insert(key@, slot_view(slot)),
            final(self).size_spec() == old(self).size_spec() - contribution_in(old(self)@, key@)
                + contribution(key@, slot_view(slot)),
    {
        let ghost s = self.listing();
        let ghost e = (key@, slot_view(slot));
        let add: usize = match &slot {
            Some(v) => key.len() + v.len(),
            None => key.len(),
        };
        proof {
            self.lemma_entries_sorted();
        }
        match locate(&self.entries, key.as_slice()) {
            Ok(i) => {
                proof {
                    lemma_assoc_at(s, i as int);
                    lemma_footprint_at(s, i as int);
                    lemma_assoc_update(s, i as int, e.1);
                }
                let sub: usize = match &self.entries[i].1 {
                    Some(v) => self.entries[i].0.len() + v.len(),
                    None => self.entries[i].0.len(),
                };
                self.size_bytes = self.size_bytes - sub + add;
                self.entries.set(i, (key, slot));
                proof {
                    let t = s.update(i as int, e);
                    assert(self.listing() =~= t);
                    lemma_footprint_at(t, i as int);
                    assert(t.take(i as int) =~= s.take(i as int));
                    assert(t.skip(i + 1) =~= s.skip(i + 1));
                }
            },
            Err(i) => {
                proof {
                    lemma_assoc_absent(s, key@, i as int);
                    lemma_assoc_insert(s, key@, e.1, i as int);
                }
                self.size_bytes = self.size_bytes + add;
                self.entries.insert(i, (key, slot));
                proof {
                    let t = s.insert(i as int, e);
                    assert(self.listing() =~= t);
                    assert(t =~= s.take(i as int) + seq![e] + s.skip(i as int));
                    assert(s =~= s.take(i as int) + s.skip(i as int));
                    lemma_footprint_concat(s.take(i as int) + seq![e], s.skip(i as int));
                    lemma_footprint_concat(s.take(i as int), seq![e]);
                    lemma_footprint_concat(s.take(i as int), s.skip(i as int));
                    lemma_footprint_single(e);
                }
            },
        }
    }

    /// Stores `value` at `key`, replacing what was there.
    pub fn insert(&mut self, key: Vec<u8>, value: Vec<u8>)
        requires
            old(self).wf(),
            old(self).size_spec() + key@.len() + value@.len() <= usize::MAX,
        ensures
            final(self).wf(),
            final(self)@ == old(self)@.insert(key@, Some(value@)),
            final(self).size_spec() == old(self).size_spec() - contribution_in(old(self)@, key@)
                + key@.len() + value@.len(),
    {
        self.put_slot(key, Some(value));
    }

    /// Records a tombstone at `key`.
    pub fn delete(&mut self, key: Vec<u8>)
        requires
            old(self).wf(),
            old(self).size_spec() + key@.len() <= usize::MAX,
        ensures
            final(self).wf(),
            final(self)@ == old(self)@.insert(key@, None),
            final(self).size_spec() == old(self).size_spec() - contribution_in(old(self)@, key@)
                + key@.len(),
    {
        self.put_slot(key, None);
    }

    /// The live value at `key`; `None` for a missing key and for a tombstone alike.
    pub fn get(&self, key: &[u8]) -> (r: Option<&Vec<u8>>)
        requires
            self.wf(),
        ensures
            match r {
                Some(v) => live_value(self@, key@) == Some(v@),
                None => live_value(self@, key@) is None,
            },
    {
        proof {
            self.lemma_entries_sorted();
        }
        match locate(&self.entries, key) {
            Ok(i) => {
                proof {
                    lemma_assoc_at(self.listing(), i as int);
                }
                match &self.entries[i].1 {
                    Some(v) => Some(v),
                    None => None,
                }
            },
            Err(i) => {
                proof {
                    lemma_assoc_absent(self.listing(), key@, i as int);
                }
                None
            },
        }
    }

    /// The slot at `key`: `Some(None)` is a tombstone, `None` no entry.
    pub fn get_slot(&self, key: &[u8]) -> (r: Option<&Option<Vec<u8>>>)
        requires
            self.wf(),
        ensures
            match r {
                Some(v) => self@.contains_key(key@) && self@[key@] == slot_view(*v),
                None => !self@.contains_key(key@),
            },
    {
        proof {
            self.lemma_entries_sorted();
        }
        match locate(&self.entries, key) {
            Ok(i) => {
                proof {
                    lemma_assoc_at(self.listing(), i as int);
                }
                Some(&self.entries[i].1)
            },
            Err(i) => {
                proof {
                    lemma_assoc_absent(self.listing(), key@, i as int);
                }
                None
            },
        }
    }

    /// Whether `key` has an entry, a tombstone included.
    pub fn contains_key(&self, key: &[u8]) -> (r: bool)
        requires
            self.wf(),
        ensures
            r == self@.contains_key(key@),
    {
        proof {
            self.lemma_entries_sorted();
        }
        match locate(&self.entries, key) {
            Ok(i) => {
                proof {
                    lemma_assoc_at(self.listing(), i as int);
                }
                true
            },
            Err(i) => {
                proof {
                    lemma_assoc_absent(self.listing(), key@, i as int);
                }
                false
            },
        }
    }

    /// Drops every entry and resets the byte count.
    pub fn clear(&mut self)
        ensures
            final(self).wf(),
            final(self)@ == Map::<Seq<u8>, Option<Seq<u8>>>::empty(),
            final(self).size_spec() == 0,
    {
        self.entries.clear();
        self.size_bytes = 0;
        assert(self.listing() =~= Seq::<(Seq<u8>, Option<Seq<u8>>)>::empty());
        assert(self@ =~= Map::<Seq<u8>, Option<Seq<u8>>>::empty());
    }

    /// The entries in key order, tombstones included.
    pub fn entries(&self) -> (r: &Vec<(Vec<u8>, Option<Vec<u8>>)>)
        requires
            self.wf(),
        ensures
            r@.map_values(|p: (Vec<u8>, Option<Vec<u8>>)| pair_view(p)) == self.listing(),
            sorted_keys(self.listing()),
            assoc_map(self.listing()) == self@,
    {
        &self.entries
    }

    fn window_contains(w: &KeyWindow, k: &[u8]) -> (r: bool)
        ensures
            r == in_window(*w, k@),
    {
        match w {
            KeyWindow::All => true,
            KeyWindow::Range(start, end) => {
                let lo = crate::keys::compare_keys(start, k);
                let hi = crate::keys::compare_keys(k, end);
                let lo_ok = match lo {
                    core::cmp::Ordering::Greater => false,
                    _ => true,
                };
                let hi_ok = match hi {
                    core::cmp::Ordering::Less => true,
                    _ => false,
                };
                lo_ok && hi_ok
            },
            KeyWindow::Prefix(p) => starts_with(k, p),
        }
    }

    /// The live pairs whose keys fall in `w`, in key order.
    fn scan_window<'a>(&'a self, w: &KeyWindow) -> (r: Vec<(&'a Vec<u8>, &'a Vec<u8>)>)
        requires
            self.wf(),
        ensures
            sorted_keys(scan_view(r@)),
            assoc_map(scan_view(r@)) == window_part(self@, *w),
    {
        let ghost s = self.listing();
        let mut out: Vec<(&'a Vec<u8>, &'a Vec<u8>)> = Vec::new();
        let mut i: usize = 0;
        assert(s.take(0) =~= Seq::<(Seq<u8>, Option<Seq<u8>>)>::empty());
        assert(assoc_map(scan_view(out@)) =~= window_part(assoc_map(s.take(0)), *w));
        while i < self.entries.len()
            invariant
                i <= self.entries@.len(),
                s == self.listing(),
                sorted_keys(s),
                s.len() == self.entries@.len(),
                sorted_keys(scan_view(out@)),
                assoc_map(scan_view(out@)) == window_part(assoc_map(s.take(i as int)), *w),
            decreases self.entries@.len() - i,
        {
            let ghost pre = s.take(i as int);
            let ghost k = s[i as int].0;
            proof {
                assert(sorted_keys(pre));
                assert(s.take(i + 1) =~= pre.push(s[i as int]));
                assert forall|j: int| 0 <= j < pre.len() implies key_lt(#[trigger] pre[j].0, k) by {
                    assert(pre[j] == s[j]);
                }
                lemma_assoc_push(pre, k, s[i as int].1);
                assert forall|j: int| 0 <= j < pre.len() implies key_lt(#[trigger] pre[j].0, k) by {
                    assert(pre[j] == s[j]);
                }
                // keys already reported come from `pre`, so they sort before `k`
                assert forall|j: int| 0 <= j < scan_view(out@).len() implies key_lt(
                    #[trigger] scan_view(out@)[j].0,
                    k,
                ) by {
                    lemma_assoc_at(scan_view(out@), j);
                    let q = scan_view(out@)[j].0;
                    assert(assoc_map(pre).contains_key(q));
                    let jj = index_of(pre, q);
                    assert(pre[jj] == s[jj]);
                }
                assert(!assoc_map(pre).contains_key(k)) by {
                    if assoc_map(pre).contains_key(k) {
                        let jj = index_of(pre, k);
                        assert(pre[jj] == s[jj]);
                        lemma_key_lt_irreflexive(k);
                    }
                }
            }
            let e = &self.entries[i];
            assert(pair_view(*e) == s[i as int]);
            match &e.1 {
                Some(v) => {
                    if Self::window_contains(w, e.0.as_slice()) {
                        let ghost before = scan_view(out@);
                        out.push((&e.0, v));
                        proof {
                            assert(scan_view(out@) =~= before.push((k, v@)));
                            lemma_assoc_push(before, k, v@);
                            assert(assoc_map(scan_view(out@)) =~= window_part(
                                assoc_map(s.take(i + 1)),
                                *w,
                            ));
                        }
                    } else {
                        assert(assoc_map(scan_view(out@)) =~= window_part(
                            assoc_map(s.take(i + 1)),
                            *w,
                        ));
                    }
                },
                None => {
                    assert(assoc_map(scan_view(out@)) =~= window_part(
                        assoc_map(s.take(i + 1)),
                        *w,
                    ));
                },
            }
            i = i + 1;
        }
        assert(s.take(i as int) =~= s);
        out
    }

    /// All live pairs in key order; tombstones are left out.
    pub fn scan(&self) -> (r: Vec<(&Vec<u8>, &Vec<u8>)>)
        requires
            self.wf(),
        ensures
            sorted_keys(scan_view(r@)),
            assoc_map(scan_view(r@)) == live_part(self@),
    {
        let r = self.scan_window(&KeyWindow::All);
        assert(window_part(self@, KeyWindow::All) =~= live_part(self@));
        r
    }

    /// The live pairs with `start <= key < end`, in key order.
    pub fn scan_range(&self, start: &[u8], end: &[u8]) -> (r: Vec<(&Vec<u8>, &Vec<u8>)>)
        requires
            self.wf(),
            key_le(start@, end@),
        ensures
            sorted_keys(scan_view(r@)),
            assoc_map(scan_view(r@)) == window_part(self@, KeyWindow::Range(start, end)),
    {
        self.scan_window(&KeyWindow::Range(start, end))
    }

    /// The live pairs whose keys begin with `prefix`, in key order.
    pub fn scan_prefix(&self, prefix: &[u8]) -> (r: Vec<(&Vec<u8>, &Vec<u8>)>)
        requires
            self.wf(),
        ensures
            sorted_keys(scan_view(r@)),
            assoc_map(scan_view(r@)) == window_part(self@, KeyWindow::Prefix(prefix)),
    {
        self.scan_window(&KeyWindow::Prefix(prefix))
    }
}

} // verus!
