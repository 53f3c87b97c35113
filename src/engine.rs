//! The engine's state and its decisions: the write path into the MemTable, the read
//! path through the MemTable and the tables newest first, scans, expiry, and flushes.
//! Writing the log and the table files is left to the caller, which hands over
//! what was written.
use crate::config::Config;
use crate::error::OblivionError;
use crate::keys::{assoc_map, key_lt, lemma_assoc_len, lemma_assoc_push, sorted_keys};
use crate::memtable::{
    contribution_in, copy_bytes, listing_of, live_pairs, live_part, owned_view, pair_view,
    MemTable,
};
use crate::sstable::SSTable;
use crate::ttl::{deadline, expired_at, remaining_at, TtlIndex};
use crate::types::{Key, Value};
use std::path::PathBuf;
use vstd::prelude::*;

verus! {

/// Layers given newest first, merged: of each key the newest layer's entry wins.
pub open spec fn merged(layers: Seq<Map<Seq<u8>, Option<Seq<u8>>>>) -> Map<
    Seq<u8>,
    Option<Seq<u8>>,
>
    decreases layers.len(),
{
    if layers.len() == 0 {
        Map::empty()
    } else {
        merged(layers.drop_first()).union_prefer_right(layers[0])
    }
}

/// A key that the newest layer lacks resolves as in the older ones.
proof fn lemma_merged_skip(layers: Seq<Map<Seq<u8>, Option<Seq<u8>>>>, k: Seq<u8>)
    requires
        layers.len() > 0,
    ensures
        layers[0].contains_key(k) ==> merged(layers).contains_key(k) && merged(layers)[k]
            == layers[0][k],
        !layers[0].contains_key(k) ==> merged(layers).contains_key(k) == merged(
            layers.drop_first(),
        ).contains_key(k),
        !layers[0].contains_key(k) && merged(layers).contains_key(k) ==> merged(layers)[k]
            == merged(layers.drop_first())[k],
{
}

/// The engine: a MemTable over tables ordered newest first, with key expiries.
pub struct EngineState {
    memtable: MemTable,
    sstables: Vec<SSTable>,
    table_ids: Vec<u64>,
    ttl: TtlIndex,
    flush_counter: u64,
    memtable_max_size: usize,
}

impl EngineState {
    /// The tables' maps, newest first.
    pub closed spec fn table_views(&self) -> Seq<Map<Seq<u8>, Option<Seq<u8>>>> {
        self.sstables@.map_values(|t: SSTable| t@)
    }

    /// The MemTable's map.
    pub closed spec fn memtable_view(&self) -> Map<Seq<u8>, Option<Seq<u8>>> {
        self.memtable@
    }

    /// Every key's newest entry, tombstones included.
    pub open spec fn state(&self) -> Map<Seq<u8>, Option<Seq<u8>>> {
        merged(seq![self.memtable_view()] + self.table_views())
    }

    /// What the engine holds: the live value of each key, expiry aside.
    pub open spec fn contents(&self) -> Map<Seq<u8>, Seq<u8>> {
        live_part(self.state())
    }

    /// The expiry of each key that has one.
    pub closed spec fn ttl_view(&self) -> Map<Seq<u8>, u64> {
        self.ttl@
    }

    /// What a read of `k` at time `now` returns.
    pub open spec fn observed_at(&self, k: Seq<u8>, now: u64) -> Option<Seq<u8>> {
        if expired_at(self.ttl_view(), k, now) {
            None
        } else if self.contents().contains_key(k) {
            Some(self.contents()[k])
        } else {
            None
        }
    }

    /// Bytes accounted for by the MemTable.
    pub closed spec fn memtable_size_spec(&self) -> nat {
        self.memtable.size_spec()
    }

    /// The flush threshold.
    pub closed spec fn max_size_spec(&self) -> nat {
        self.memtable_max_size as nat
    }

    /// The id that the next flushed table gets.
    pub closed spec fn flush_counter_spec(&self) -> nat {
        self.flush_counter as nat
    }

    /// The MemTable, the expiry index and every table are well formed; the threshold
    /// is positive; table ids descend and stay below the next id to give out.
    pub closed spec fn wf(&self) -> bool {
        &&& self.memtable.wf()
        &&& self.ttl.wf()
        &&& self.memtable_max_size > 0
        &&& forall|i: int| 0 <= i < self.sstables@.len() ==> (#[trigger] self.sstables@[i]).wf()
        &&& self.table_ids@.len() == self.sstables@.len()
        &&& forall|i: int, j: int|
            #![trigger self.table_ids@[i], self.table_ids@[j]]
            0 <= i < j < self.table_ids@.len() ==> self.table_ids@[i] >= self.table_ids@[j]
        &&& forall|i: int| 0 <= i < self.table_ids@.len() ==> #[trigger] self.table_ids@[i] < self.flush_counter
    }

    /// The tables' ids, newest first.
    pub closed spec fn ids_view(&self) -> Seq<u64> {
        self.table_ids@
    }

    /// An engine over the MemTable that replaying the log gave, with no tables yet.
    pub fn open(config: &Config, recovered: MemTable) -> (r: Result<EngineState, OblivionError>)
        requires
            recovered.wf(),
        ensures
            match r {
                Ok(e) => config.memtable_max_size > 0 && e.wf() && e.memtable_view()
                    == recovered@ && e.memtable_size_spec() == recovered.size_spec()
                    && e.table_views().len() == 0 && e.ttl_view()
                    == Map::<Seq<u8>, u64>::empty() && e.flush_counter_spec() == 0
                    && e.max_size_spec() == config.memtable_max_size,
                Err(err) => config.memtable_max_size == 0 && err is Config,
            },
    {
        match config.validate() {
            Err(e) => Err(e),
            Ok(()) => {
                let r = EngineState {
                    memtable: recovered,
                    sstables: Vec::new(),
                    table_ids: Vec::new(),
                    ttl: TtlIndex::new(),
                    flush_counter: 0,
                    memtable_max_size: config.memtable_max_size,
                };
                assert(r.table_views() =~= Seq::<Map<Seq<u8>, Option<Seq<u8>>>>::empty());
                Ok(r)
            },
        }
    }

    proof fn lemma_state_after_memtable_write(
        &self,
        other: &EngineState,
        k: Seq<u8>,
        slot: Option<Seq<u8>>,
    )
        requires
            other.memtable_view() == self.memtable_view().insert(k, slot),
            other.table_views() == self.table_views(),
        ensures
            other.state() == self.state().insert(k, slot),
    {
        let a = seq![self.memtable_view()] + self.table_views();
        let b = seq![other.memtable_view()] + other.table_views();
        assert(a.drop_first() =~= self.table_views());
        assert(b.drop_first() =~= other.table_views());
        assert(other.state() =~= self.state().insert(k, slot));
    }

    /// Applies a write whose log record is durable: `key` now holds `value`, and any
    /// expiry it had is dropped.
    pub fn put(&mut self, key: Key, value: Value)
        requires
            old(self).wf(),
            old(self).memtable_size_spec() + key@.len() + value@.len() <= usize::MAX,
        ensures
            final(self).wf(),
            final(self).contents() == old(self).contents().insert(key@, value@),
            final(self).state() == old(self).state().insert(key@, Some(value@)),
            final(self).ttl_view() == old(self).ttl_view().remove(key@),
            final(self).table_views() == old(self).table_views(),
            final(self).memtable_view() == old(self).memtable_view().insert(key@, Some(value@)),
            final(self).memtable_size_spec() == old(self).memtable_size_spec() - contribution_in(
                old(self).memtable_view(),
                key@,
            ) + key@.len() + value@.len(),
            final(self).flush_counter_spec() == old(self).flush_counter_spec(),
            final(self).max_size_spec() == old(self).max_size_spec(),
    {
        let ghost k = key@;
        let ghost v = value@;
        self.ttl.remove_ttl(key.as_slice());
        self.memtable.insert(key, value);
        proof {
            old(self).lemma_state_after_memtable_write(self, k, Some(v));
            assert(self.contents() =~= old(self).contents().insert(k, v));
        }
    }

    /// Applies a write whose log record is durable, and makes it expire `ttl_ms`
    /// milliseconds after `now_ms`.
    pub fn put_with_ttl_at(&mut self, key: Key, value: Value, ttl_ms: u64, now_ms: u64)
        requires
            old(self).wf(),
            old(self).memtable_size_spec() + key@.len() + value@.len() <= usize::MAX,
        ensures
            final(self).wf(),
            final(self).contents() == old(self).contents().insert(key@, value@),
            final(self).ttl_view() == old(self).ttl_view().insert(key@, deadline(now_ms, ttl_ms)),
            final(self).table_views() == old(self).table_views(),
            final(self).memtable_view() == old(self).memtable_view().insert(key@, Some(value@)),
            final(self).memtable_size_spec() == old(self).memtable_size_spec() - contribution_in(
                old(self).memtable_view(),
                key@,
            ) + key@.len() + value@.len(),
            final(self).flush_counter_spec() == old(self).flush_counter_spec(),
            final(self).max_size_spec() == old(self).max_size_spec(),
    {
        let k2 = copy_bytes(&key);
        self.put(key, value);
        self.ttl.set_ttl_at(k2, ttl_ms, now_ms);
        assert(self.ttl_view() =~= old(self).ttl_view().insert(k2@, deadline(now_ms, ttl_ms)));
    }

    /// Applies a write whose log record is durable, and makes it expire `ttl_ms`
    /// milliseconds from now.
    pub fn put_with_ttl(&mut self, key: Key, value: Value, ttl_ms: u64)
        requires
            old(self).wf(),
            old(self).memtable_size_spec() + key@.len() + value@.len() <= usize::MAX,
        ensures
            final(self).wf(),
            final(self).contents() == old(self).contents().insert(key@, value@),
            exists|t: u64|
                final(self).ttl_view() == old(self).ttl_view().insert(
                    key@,
                    #[trigger] deadline(t, ttl_ms),
                ),
            final(self).ttl_view()[key@] >= ttl_ms,
            final(self).table_views() == old(self).table_views(),
            final(self).memtable_view() == old(self).memtable_view().insert(key@, Some(value@)),
            final(self).memtable_size_spec() == old(self).memtable_size_spec() - contribution_in(
                old(self).memtable_view(),
                key@,
            ) + key@.len() + value@.len(),
            final(self).flush_counter_spec() == old(self).flush_counter_spec(),
            final(self).max_size_spec() == old(self).max_size_spec(),
    {
        let now = crate::clock::now_micros() / 1000;
        let ghost k = key@;
        self.put_with_ttl_at(key, value, ttl_ms, now);
        assert(self.ttl_view() == old(self).ttl_view().insert(k, deadline(now, ttl_ms)));
    }

    /// Applies a deletion whose log record is durable: a tombstone now shadows every
    /// older entry of `key`, and any expiry it had is dropped.
    pub fn delete(&mut self, key: Key)
        requires
            old(self).wf(),
            old(self).memtable_size_spec() + key@.len() <= usize::MAX,
        ensures
            final(self).wf(),
            final(self).contents() == old(self).contents().remove(key@),
            final(self).state() == old(self).state().insert(key@, None),
            final(self).ttl_view() == old(self).ttl_view().remove(key@),
            final(self).table_views() == old(self).table_views(),
            final(self).memtable_view() == old(self).memtable_view().insert(key@, None),
            final(self).memtable_size_spec() == old(self).memtable_size_spec() - contribution_in(
                old(self).memtable_view(),
                key@,
            ) + key@.len(),
            final(self).flush_counter_spec() == old(self).flush_counter_spec(),
            final(self).max_size_spec() == old(self).max_size_spec(),
    {
        let ghost k = key@;
        self.ttl.remove_ttl(key.as_slice());
        self.memtable.delete(key);
        proof {
            old(self).lemma_state_after_memtable_write(self, k, None);
            assert(self.contents() =~= old(self).contents().remove(k));
        }
    }

    /// The value of `key` at time `now_ms`: `None` once it has expired, for a
    /// tombstone, and where no layer has it. Tables whose Bloom filter rules the key
    /// out are not searched.
    pub fn get_at(&self, key: &[u8], now_ms: u64) -> (r: Option<Value>)
        requires
            self.wf(),
        ensures
            match r {
                Some(v) => self.observed_at(key@, now_ms) == Some(v@),
                None => self.observed_at(key@, now_ms) is None,
            },
    {
        if self.ttl.is_expired_at(key, now_ms) {
            return None;
        }
        let ghost layers = seq![self.memtable_view()] + self.table_views();
        let ghost tv = self.table_views();
        proof {
            lemma_merged_skip(layers, key@);
            assert(layers.drop_first() =~= tv);
            assert(layers[0] == self.memtable_view());
        }
        match self.memtable.get_slot(key) {
            Some(slot) => {
                return match slot {
                    Some(v) => Some(copy_bytes(v)),
                    None => None,
                };
            },
            None => {},
        }
        let mut i: usize = 0;
        assert(tv.skip(0) =~= tv);
        while i < self.sstables.len()
            invariant
                self.wf(),
                tv == self.table_views(),
                i <= self.sstables@.len(),
                !expired_at(self.ttl_view(), key@, now_ms),
                self.state().contains_key(key@) == merged(tv.skip(i as int)).contains_key(key@),
                self.state().contains_key(key@) ==> self.state()[key@] == merged(
                    tv.skip(i as int),
                )[key@],
            decreases self.sstables@.len() - i,
        {
            let t = &self.sstables[i];
            assert(t.wf());
            assert(tv[i as int] == t@);
            proof {
                lemma_merged_skip(tv.skip(i as int), key@);
                assert(tv.skip(i as int).drop_first() =~= tv.skip(i + 1));
                assert(tv.skip(i as int)[0] == t@);
            }
            if t.bloom().may_contain(key) {
                match t.lookup(key) {
                    Some(slot) => {
                        return slot;
                    },
                    None => {},
                }
            }
            i = i + 1;
        }
        None
    }

    /// The value of `key` now.
    pub fn get(&self, key: &[u8]) -> (r: Option<Value>)
        requires
            self.wf(),
        ensures
            match r {
                Some(v) => self.contents().contains_key(key@) && self.contents()[key@] == v@,
                None => self.ttl_view().contains_key(key@) || !self.contents().contains_key(key@),
            },
    {
        self.get_at(key, crate::clock::now_micros() / 1000)
    }

    /// Merges `src`, a list in key order, over `acc`: where both have a key, `src` wins.
    fn absorb(acc: &mut Vec<(Vec<u8>, Option<Vec<u8>>)>, src: &Vec<(Vec<u8>, Option<Vec<u8>>)>)
        requires
            sorted_keys(listing_of(old(acc)@)),
            sorted_keys(listing_of(src@)),
        ensures
            sorted_keys(listing_of(final(acc)@)),
            assoc_map(listing_of(final(acc)@)) == assoc_map(
                listing_of(old(acc)@),
            ).union_prefer_right(assoc_map(listing_of(src@))),
    {
        let ghost s = listing_of(src@);
        let ghost start = assoc_map(listing_of(acc@));
        let mut i: usize = 0;
        assert(s.take(0) =~= Seq::<(Seq<u8>, Option<Seq<u8>>)>::empty());
        assert(start.union_prefer_right(assoc_map(s.take(0))) =~= start);
        while i < src.len()
            invariant
                i <= src@.len(),
                s == listing_of(src@),
                sorted_keys(s),
                sorted_keys(listing_of(acc@)),
                assoc_map(listing_of(acc@)) == start.union_prefer_right(assoc_map(s.take(i as int))),
            decreases src@.len() - i,
        {
            let ghost pre = s.take(i as int);
            proof {
                assert(s.take(i + 1) =~= pre.push(s[i as int]));
                assert forall|j: int| 0 <= j < pre.len() implies key_lt(
                    #[trigger] pre[j].0,
                    s[i as int].0,
                ) by {
                    assert(pre[j] == s[j]);
                }
                lemma_assoc_push(pre, s[i as int].0, s[i as int].1);
            }
            let k = copy_bytes(&src[i].0);
            let v = match &src[i].1 {
                Some(x) => Some(copy_bytes(x)),
                None => None,
            };
            assert(s[i as int] == pair_view(src@[i as int]));
            crate::memtable::store_slot(acc, k, v);
            assert(assoc_map(listing_of(acc@)) =~= start.union_prefer_right(
                assoc_map(s.take(i + 1)),
            ));
            i = i + 1;
        }
        assert(s.take(i as int) =~= s);
    }

    /// Every live pair, in key order: newest entry of each key wins, tombstoned keys
    /// are left out.
    pub fn scan(&self) -> (r: Vec<(Key, Value)>)
        requires
            self.wf(),
        ensures
            sorted_keys(owned_view(r@)),
            assoc_map(owned_view(r@)) == self.contents(),
    {
        let ghost tv = self.table_views();
        let mut acc: Vec<(Vec<u8>, Option<Vec<u8>>)> = Vec::new();
        assert(listing_of(acc@) =~= Seq::<(Seq<u8>, Option<Seq<u8>>)>::empty());
        let n = self.sstables.len();
        let mut j: usize = n;
        assert(tv.skip(n as int) =~= Seq::<Map<Seq<u8>, Option<Seq<u8>>>>::empty());
        assert(assoc_map(listing_of(acc@)) =~= merged(tv.skip(n as int)));
        while j > 0
            invariant
                self.wf(),
                tv == self.table_views(),
                n == self.sstables@.len(),
                j <= n,
                sorted_keys(listing_of(acc@)),
                assoc_map(listing_of(acc@)) == merged(tv.skip(j as int)),
            decreases j,
        {
            let t = &self.sstables[j - 1];
            assert(t.wf());
            let src = t.entries();
            Self::absorb(&mut acc, src);
            proof {
                assert(tv.skip(j - 1).drop_first() =~= tv.skip(j as int));
                assert(tv.skip(j - 1)[0] == t@);
            }
            j = j - 1;
        }
        assert(tv.skip(0) =~= tv);
        Self::absorb(&mut acc, self.memtable.entries());
        proof {
            let layers = seq![self.memtable_view()] + tv;
            assert(layers.drop_first() =~= tv);
        }
        live_pairs(&acc)
    }

    /// Number of live keys.
    pub fn len(&self) -> (r: usize)
        requires
            self.wf(),
        ensures
            r == self.contents().len(),
    {
        let v = self.scan();
        proof {
            lemma_assoc_len(owned_view(v@));
        }
        v.len()
    }

    /// No live key.
    pub fn is_empty(&self) -> (r: bool)
        requires
            self.wf(),
        ensures
            r == (self.contents().len() == 0),
    {
        self.len() == 0
    }

    /// Bytes accounted for by the MemTable.
    pub fn memtable_size(&self) -> (r: usize)
        ensures
            r == self.memtable_size_spec(),
    {
        self.memtable.size()
    }

    /// Milliseconds left at `now_ms` before `key` expires.
    pub fn ttl_at(&self, key: &[u8], now_ms: u64) -> (r: Option<u64>)
        requires
            self.wf(),
        ensures
            r == remaining_at(self.ttl_view(), key@, now_ms),
    {
        self.ttl.remaining_ttl_at(key, now_ms)
    }

    /// Milliseconds left before `key` expires: `None` without an expiry.
    pub fn ttl(&self, key: &[u8]) -> (r: Option<u64>)
        requires
            self.wf(),
        ensures
            exists|t: u64| r == #[trigger] remaining_at(self.ttl_view(), key@, t),
    {
        let r = self.ttl.remaining_ttl(key);
        proof {
            let t = choose|t: u64| r == #[trigger] remaining_at(self.ttl@, key@, t);
            assert(r == remaining_at(self.ttl_view(), key@, t));
        }
        r
    }

    /// Whether the MemTable has reached the flush threshold.
    pub fn needs_flush(&self) -> (r: bool)
        ensures
            r == (self.memtable_size_spec() >= self.max_size_spec()),
    {
        self.memtable.size() >= self.memtable_max_size
    }

    /// The id that the next flushed table gets.
    pub fn next_table_id(&self) -> (r: u64)
        ensures
            r == self.flush_counter_spec(),
    {
        self.flush_counter
    }

    /// Number of tables.
    pub fn table_count(&self) -> (r: usize)
        ensures
            r == self.table_views().len(),
    {
        self.sstables.len()
    }

    /// The table that a flush writes at `path`: the MemTable's entries, tombstones
    /// included; a refusal where they do not fit the file format.
    pub fn flush_table(&self, path: PathBuf) -> (r: Result<SSTable, OblivionError>)
        requires
            self.wf(),
        ensures
            match r {
                Ok(t) => t.wf() && t@ == self.memtable_view() && t.path_spec() == path,
                Err(e) => e is Serialization && !crate::sstable::map_fits(self.memtable_view()),
            },
    {
        let src = self.memtable.entries();
        let mut copy: Vec<(Vec<u8>, Option<Vec<u8>>)> = Vec::new();
        let mut i: usize = 0;
        while i < src.len()
            invariant
                i <= src@.len(),
                listing_of(copy@) == listing_of(src@).take(i as int),
            decreases src@.len() - i,
        {
            let k = copy_bytes(&src[i].0);
            let v = match &src[i].1 {
                Some(x) => Some(copy_bytes(x)),
                None => None,
            };
            assert(pair_view((k, v)) == pair_view(src@[i as int]));
            let ghost before = copy@;
            copy.push((k, v));
            assert(listing_of(copy@) =~= listing_of(before).push(pair_view((k, v))));
            assert(listing_of(src@).take(i + 1) =~= listing_of(src@).take(i as int).push(
                listing_of(src@)[i as int],
            ));
            i = i + 1;
        }
        assert(listing_of(src@).take(i as int) =~= listing_of(src@));
        proof {
            crate::sstable::lemma_fits_iff(listing_of(copy@));
        }
        match SSTable::from_sorted(path, copy) {
            Ok(t) => Ok(t),
            Err(e) => Err(e),
        }
    }

    /// Adds a table read from disk with id `id`, in its place among the tables
    /// ordered newest (highest id) first; the next flush gets an id above it.
    pub fn add_loaded_table(&mut self, id: u64, table: SSTable)
        requires
            old(self).wf(),
            table.wf(),
            id < u64::MAX,
        ensures
            final(self).wf(),
            exists|p: int|
                0 <= p <= old(self).table_views().len() && final(self).table_views() == old(
                    self,
                ).table_views().insert(p, table@) && final(self).ids_view() == old(
                    self,
                ).ids_view().insert(p, id),
            final(self).flush_counter_spec() == if id >= old(self).flush_counter_spec() {
                id + 1
            } else {
                old(self).flush_counter_spec() as int
            },
            final(self).memtable_view() == old(self).memtable_view(),
            final(self).memtable_size_spec() == old(self).memtable_size_spec(),
            final(self).ttl_view() == old(self).ttl_view(),
            final(self).max_size_spec() == old(self).max_size_spec(),
    {
        let mut p: usize = 0;
        while p < self.table_ids.len() && self.table_ids[p] >= id
            invariant
                self.wf(),
                p <= self.table_ids@.len(),
                forall|q: int| 0 <= q < p ==> #[trigger] self.table_ids@[q] >= id,
            decreases self.table_ids@.len() - p,
        {
            p = p + 1;
        }
        let ghost t = table@;
        let ghost old_tv = self.table_views();
        self.sstables.insert(p, table);
        self.table_ids.insert(p, id);
        if id >= self.flush_counter {
            self.flush_counter = id + 1;
        }
        proof {
            assert(self.table_views() =~= old_tv.insert(p as int, t));
            assert(self.ids_view() =~= old(self).ids_view().insert(p as int, id));
            assert(0 <= p <= old_tv.len() && self.table_views() == old_tv.insert(p as int, t)
                && self.ids_view() == old(self).ids_view().insert(p as int, id));
            assert forall|i: int| 0 <= i < self.sstables@.len() implies (
            #[trigger] self.sstables@[i]).wf() by {
                if i > p {
                    assert(self.sstables@[i] == old(self).sstables@[i - 1]);
                } else if i < p {
                    assert(self.sstables@[i] == old(self).sstables@[i]);
                }
            }
            assert forall|i: int, j: int|
                #![trigger self.table_ids@[i], self.table_ids@[j]]
                0 <= i < j < self.table_ids@.len() implies self.table_ids@[i] >= self.table_ids@[j] by {
                let o = old(self).table_ids@;
                if j < p {
                    assert(self.table_ids@[i] == o[i] && self.table_ids@[j] == o[j]);
                } else if j == p {
                    assert(self.table_ids@[i] == o[i]);
                } else if i < p {
                    assert(self.table_ids@[i] == o[i] && self.table_ids@[j] == o[j - 1]);
                } else if i == p {
                    assert(self.table_ids@[j] == o[j - 1]);
                    if p < o.len() {
                        assert(o[p as int] < id);
                        if j - 1 > p {
                            assert(o[p as int] >= o[j - 1]);
                        }
                    }
                } else {
                    assert(self.table_ids@[i] == o[i - 1] && self.table_ids@[j] == o[j - 1]);
                }
            }
            assert forall|i: int| 0 <= i < self.table_ids@.len() implies #[trigger] self.table_ids@[i]
                < self.flush_counter by {
                if i > p {
                    assert(self.table_ids@[i] == old(self).table_ids@[i - 1]);
                } else if i < p {
                    assert(self.table_ids@[i] == old(self).table_ids@[i]);
                }
            }
        }
    }

    /// Installs a durable flush: `table` holds what the MemTable held, becomes the
    /// newest table, and the MemTable starts empty. What the engine holds is unchanged.
    pub fn install_flush(&mut self, table: SSTable)
        requires
            old(self).wf(),
            table.wf(),
            table@ == old(self).memtable_view(),
            old(self).flush_counter_spec() < u64::MAX,
        ensures
            final(self).wf(),
            final(self).state() == old(self).state(),
            final(self).contents() == old(self).contents(),
            final(self).ttl_view() == old(self).ttl_view(),
            final(self).memtable_view() == Map::<Seq<u8>, Option<Seq<u8>>>::empty(),
            final(self).memtable_size_spec() == 0,
            final(self).table_views() == seq![table@] + old(self).table_views(),
            final(self).ids_view() == seq![old(self).flush_counter_spec() as u64] + old(self).ids_view(),
            final(self).flush_counter_spec() == old(self).flush_counter_spec() + 1,
            final(self).max_size_spec() == old(self).max_size_spec(),
    {
        let ghost t = table@;
        let ghost old_tv = self.table_views();
        self.sstables.insert(0, table);
        self.table_ids.insert(0, self.flush_counter);
        self.memtable.clear();
        self.flush_counter = self.flush_counter + 1;
        proof {
            assert(self.table_views() =~= seq![t] + old_tv);
            assert(self.ids_view() =~= seq![old(self).flush_counter] + old(self).ids_view());
            assert forall|i: int, j: int|
                #![trigger self.table_ids@[i], self.table_ids@[j]]
                0 <= i < j < self.table_ids@.len() implies self.table_ids@[i] >= self.table_ids@[j] by {
                if i > 0 {
                    assert(self.table_ids@[i] == old(self).table_ids@[i - 1]);
                }
                assert(self.table_ids@[j] == old(self).table_ids@[j - 1]);
            }
            assert forall|i: int| 0 <= i < self.table_ids@.len() implies #[trigger] self.table_ids@[i]
                < self.flush_counter by {
                if i > 0 {
                    assert(self.table_ids@[i] == old(self).table_ids@[i - 1]);
                }
            }
            assert forall|i: int| 0 <= i < self.sstables@.len() implies (
            #[trigger] self.sstables@[i]).wf() by {
                if i > 0 {
                    assert(self.sstables@[i] == old(self).sstables@[i - 1]);
                }
            }
            let a = seq![self.memtable_view()] + self.table_views();
            assert(a.drop_first() =~= self.table_views());
            assert(self.table_views().drop_first() =~= old_tv);
            let b = seq![old(self).memtable_view()] + old_tv;
            assert(b.drop_first() =~= old_tv);
            assert(self.state() =~= old(self).state());
        }
    }
}

/// Prefix of a table file's name.
pub open spec fn table_name_prefix() -> Seq<u8> {
    seq![0x73u8, 0x73u8, 0x74u8, 0x61u8, 0x62u8, 0x6cu8, 0x65u8, 0x5fu8]
}

/// Suffix of a table file's name.
pub open spec fn table_name_suffix() -> Seq<u8> {
    seq![0x2eu8, 0x73u8, 0x73u8, 0x74u8]
}

/// Every byte is an ASCII digit.
pub open spec fn all_digits(d: Seq<u8>) -> bool {
    forall|i: int| 0 <= i < d.len() ==> 0x30 <= #[trigger] d[i] <= 0x39
}

/// The number that decimal digits spell.
pub open spec fn decimal_value(d: Seq<u8>) -> nat
    decreases d.len(),
{
    if d.len() == 0 {
        0
    } else {
        decimal_value(d.drop_last()) * 10 + (d.last() - 0x30) as nat
    }
}

/// The digits of a name of the form `sstable_<digits>.sst`, if it has that form.
pub open spec fn table_name_digits(name: Seq<u8>) -> Option<Seq<u8>> {
    if name.len() > 12 && name.take(8) == table_name_prefix() && name.skip(name.len() - 4)
        == table_name_suffix() && all_digits(name.subrange(8, name.len() - 4)) {
        Some(name.subrange(8, name.len() - 4))
    } else {
        None
    }
}

const TABLE_NAME_PREFIX: [u8; 8] = [0x73, 0x73, 0x74, 0x61, 0x62, 0x6c, 0x65, 0x5f];

const TABLE_NAME_SUFFIX: [u8; 4] = [0x2e, 0x73, 0x73, 0x74];

/// The id in a table file's name `sstable_<digits>.sst`; `None` for any other name,
/// or where the id does not fit 64 bits.
pub fn parse_table_id(name: &[u8]) -> (r: Option<u64>)
    ensures
        r == match table_name_digits(name@) {
            Some(d) => if decimal_value(d) <= u64::MAX {
                Some(decimal_value(d) as u64)
            } else {
                None
            },
            None => None,
        },
{
    let n = name.len();
    if n <= 12 {
        return None;
    }
    let mut j: usize = 0;
    while j < 8
        invariant
            n == name@.len() > 12,
            j <= 8,
            name@.take(j as int) == table_name_prefix().take(j as int),
        decreases 8 - j,
    {
        if name[j] != TABLE_NAME_PREFIX[j] {
            assert(name@.take(8)[j as int] != table_name_prefix()[j as int]);
            return None;
        }
        assert(name@.take(j + 1) =~= table_name_prefix().take(j + 1));
        j = j + 1;
    }
    assert(table_name_prefix().take(8) =~= table_name_prefix());
    let mut j: usize = 0;
    while j < 4
        invariant
            n == name@.len() > 12,
            j <= 4,
            name@.skip(n - 4).take(j as int) == table_name_suffix().take(j as int),
        decreases 4 - j,
    {
        if name[n - 4 + j] != TABLE_NAME_SUFFIX[j] {
            assert(name@.skip(n - 4)[j as int] != table_name_suffix()[j as int]);
            return None;
        }
        assert(name@.skip(n - 4).take(j + 1) =~= table_name_suffix().take(j + 1));
        j = j + 1;
    }
    assert(name@.skip(n - 4).take(4) =~= name@.skip(n - 4));
    assert(table_name_suffix().take(4) =~= table_name_suffix());
    let ghost d = name@.subrange(8, n - 4);
    let mut value: u64 = 0;
    let mut i: usize = 8;
    while i < n - 4
        invariant
            n == name@.len() > 12,
            8 <= i <= n - 4,
            d == name@.subrange(8, n - 4),
            all_digits(d.take(i - 8)),
            value == decimal_value(d.take(i - 8)),
        decreases n - 4 - i,
    {
        let c = name[i];
        assert(d.take(i - 7) =~= d.take(i - 8).push(c));
        assert(d.take(i - 7).drop_last() =~= d.take(i - 8));
        if c < 0x30 || c > 0x39 {
            assert(d[i - 8] == c);
            return None;
        }
        if value > (u64::MAX - (c - 0x30) as u64) / 10 {
            proof {
                assert(decimal_value(d.take(i - 7)) > u64::MAX);
                lemma_decimal_prefix_bound(d, i - 7);
                if all_digits(d) {
                    assert(decimal_value(d) >= decimal_value(d.take(i - 7)));
                }
            }
            return None;
        }
        value = value * 10 + (c - 0x30) as u64;
        i = i + 1;
    }
    assert(d.take(i - 8) =~= d);
    Some(value)
}

/// A number's decimal digits spell at least as much as any prefix of them.
proof fn lemma_decimal_prefix_bound(d: Seq<u8>, k: int)
    requires
        0 <= k <= d.len(),
    ensures
        all_digits(d) ==> decimal_value(d) >= decimal_value(d.take(k)),
    decreases d.len() - k,
{
    if all_digits(d) {
        if k < d.len() {
            lemma_decimal_prefix_bound(d, k + 1);
            assert(d.take(k + 1).drop_last() =~= d.take(k));
            assert(d.take(k + 1).last() == d[k]);
            assert(0x30 <= d[k]);
        } else {
            assert(d.take(k) =~= d);
        }
    }
}

/// After `delete(k)`, a read of `k` at any time finds nothing, whatever older tables
/// hold, until a later write of `k`.
pub proof fn lemma_delete_shadows(before: &EngineState, after: &EngineState, k: Seq<u8>, now: u64)
    requires
        after.contents() == before.contents().remove(k),
        after.ttl_view() == before.ttl_view().remove(k),
    ensures
        after.observed_at(k, now) is None,
{
}

/// After `put(k, v1)` and then `put(k, v2)`, a read of `k` returns `v2` and the
/// engine holds `k` once, beside what it held before.
pub proof fn lemma_last_write_wins(
    s0: &EngineState,
    s1: &EngineState,
    s2: &EngineState,
    k: Seq<u8>,
    v1: Seq<u8>,
    v2: Seq<u8>,
    now: u64,
)
    requires
        s1.contents() == s0.contents().insert(k, v1),
        s1.ttl_view() == s0.ttl_view().remove(k),
        s2.contents() == s1.contents().insert(k, v2),
        s2.ttl_view() == s1.ttl_view().remove(k),
    ensures
        s2.observed_at(k, now) == Some(v2),
        s2.contents() == s0.contents().insert(k, v2),
{
    assert(s2.contents() =~= s0.contents().insert(k, v2));
}

/// A key written with a time to live of `delta` at time `t0` reads as absent at any
/// time `t1 >= t0 + delta`.
pub proof fn lemma_ttl_expires(after: &EngineState, k: Seq<u8>, delta: u64, t0: u64, t1: u64)
    requires
        after.ttl_view().contains_key(k),
        after.ttl_view()[k] == deadline(t0, delta),
        t1 >= t0 + delta,
    ensures
        after.observed_at(k, t1) is None,
{
}

} // verus!
