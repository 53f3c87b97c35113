//! Immutable sorted tables, built when the MemTable is flushed.
//!
//! On disk a table is `magic (8) | version (4) | count (4) | entries | filter | crc (4)`,
//! numbers little-endian. An entry is `key_len (4) | key | val_len (4) | value`, with
//! `val_len == 0xFFFFFFFF` and no value bytes for a tombstone, so that an empty value
//! stays a value. The filter block is the table's Bloom filter: its bit count as two
//! 32-bit halves, low first, its hash count, then its bit array. The CRC-32 covers
//! everything before it.
//!
//! A table's Bloom filter holds every key of the table, tombstones included, so that
//! a read that the filter lets skip a table never passes over a tombstone that
//! shadows an older value.
use crate::bloom::{filter_shape, probes_set, BloomFilter};
use crate::error::OblivionError;
use crate::keys::{assoc_map, key_lt, lemma_assoc_absent, lemma_assoc_at, locate, sorted_keys};
use crate::memtable::{
    copy_bytes, listing_of, live_pairs, live_part, owned_view, pair_view, slot_view, store_slot,
};
use crate::types::{Key, Value};
use crate::wal::{
    crc32, crc32_of, le32, le32_value, lemma_le32_round_trip, push_bytes, push_u32_le, read_u32_le,
};
use vstd::slice::slice_to_vec;
use std::path::PathBuf;
use vstd::prelude::*;

verus! {

/// Version of the file format.
pub const TABLE_VERSION: u32 = 1;

/// Value length that marks a tombstone.
pub const TOMBSTONE_LEN: u32 = 0xFFFFFFFF;

/// Bits of Bloom filter per key.
pub const BLOOM_BITS_PER_KEY: usize = 10;

/// Fewest bits of a table's Bloom filter.
pub const BLOOM_MIN_BITS: usize = 64;

/// Bits set per key in a table's Bloom filter.
pub const BLOOM_HASHES: u32 = 7;

/// First bytes of every table file.
pub open spec fn magic() -> Seq<u8> {
    seq![0x4fu8, 0x42u8, 0x4cu8, 0x53u8, 0x53u8, 0x54u8, 0x30u8, 0x31u8]
}

/// The bytes of one entry.
pub open spec fn entry_bytes(e: (Seq<u8>, Option<Seq<u8>>)) -> Seq<u8> {
    le32(e.0.len() as u32) + e.0 + match e.1 {
        Some(v) => le32(v.len() as u32) + v,
        None => le32(TOMBSTONE_LEN),
    }
}

/// The bytes of a list of entries, in order.
pub open spec fn entries_bytes(s: Seq<(Seq<u8>, Option<Seq<u8>>)>) -> Seq<u8>
    decreases s.len(),
{
    if s.len() == 0 {
        Seq::empty()
    } else {
        entry_bytes(s[0]) + entries_bytes(s.drop_first())
    }
}

/// Low half of a bit count.
pub open spec fn low_half(m: usize) -> u32 {
    (m as u64 & 0xffff_ffffu64) as u32
}

/// High half of a bit count.
pub open spec fn high_half(m: usize) -> u32 {
    (m as u64 >> 32u64) as u32
}

/// The bytes of a Bloom filter of `m` bits and `k` hashes over the bit array `bits`.
pub open spec fn filter_block(m: usize, k: u32, bits: Seq<u8>) -> Seq<u8> {
    le32(low_half(m)) + le32(high_half(m)) + le32(k) + bits
}

/// A filter of this shape holds every key of `s`.
pub open spec fn filter_holds(s: Seq<(Seq<u8>, Option<Seq<u8>>)>, m: usize, k: u32, bits: Seq<u8>) -> bool {
    &&& filter_shape(m, k as nat, bits)
    &&& forall|i: int| 0 <= i < s.len() ==> probes_set(bits, m, k as nat, #[trigger] s[i].0)
}

/// The bytes that the checksum covers.
pub open spec fn table_body(s: Seq<(Seq<u8>, Option<Seq<u8>>)>, filter: Seq<u8>) -> Seq<u8> {
    magic() + le32(TABLE_VERSION) + le32(s.len() as u32) + entries_bytes(s) + filter
}

/// The file of a table with these entries and this filter block.
pub open spec fn table_bytes(s: Seq<(Seq<u8>, Option<Seq<u8>>)>, filter: Seq<u8>) -> Seq<u8> {
    table_body(s, filter) + le32(crc32_of(table_body(s, filter)))
}

/// The length of `b`, or `u64::MAX` where it is longer.
pub open spec fn capped_len(b: Seq<u8>) -> u64 {
    if b.len() > u64::MAX {
        u64::MAX
    } else {
        b.len() as u64
    }
}

/// An entry fits the format: key length within 32 bits, value length below the
/// tombstone mark.
pub open spec fn entry_fits(e: (Seq<u8>, Option<Seq<u8>>)) -> bool {
    e.0.len() <= u32::MAX && match e.1 {
        Some(v) => v.len() < TOMBSTONE_LEN,
        None => true,
    }
}

/// Every entry fits, and so does their count.
pub open spec fn all_fit(s: Seq<(Seq<u8>, Option<Seq<u8>>)>) -> bool {
    s.len() <= u32::MAX && forall|i: int| 0 <= i < s.len() ==> entry_fits(#[trigger] s[i])
}

/// Every entry of `m` fits the format, and so does their number.
pub open spec fn map_fits(m: Map<Seq<u8>, Option<Seq<u8>>>) -> bool {
    m.len() <= u32::MAX && forall|k: Seq<u8>| #[trigger] m.contains_key(k) ==> entry_fits((k, m[k]))
}

pub proof fn lemma_fits_iff(s: Seq<(Seq<u8>, Option<Seq<u8>>)>)
    requires
        sorted_keys(s),
    ensures
        all_fit(s) == map_fits(assoc_map(s)),
{
    crate::keys::lemma_assoc_len(s);
    let m = assoc_map(s);
    if all_fit(s) {
        assert forall|k: Seq<u8>| #[trigger] m.contains_key(k) implies entry_fits((k, m[k])) by {
            let i = crate::keys::index_of(s, k);
            lemma_assoc_at(s, i);
            assert(entry_fits(s[i]));
        }
    }
    if map_fits(m) {
        assert forall|i: int| 0 <= i < s.len() implies entry_fits(#[trigger] s[i]) by {
            lemma_assoc_at(s, i);
            assert(entry_fits((s[i].0, m[s[i].0])));
        }
    }
}

/// An immutable table of entries in key order, tombstones included.
pub struct SSTable {
    path: PathBuf,
    entries: Vec<(Vec<u8>, Option<Vec<u8>>)>,
    bloom: BloomFilter,
    file_size: u64,
}

impl View for SSTable {
    type V = Map<Seq<u8>, Option<Seq<u8>>>;

    open spec fn view(&self) -> Map<Seq<u8>, Option<Seq<u8>>> {
        assoc_map(self.listing())
    }
}

impl SSTable {
    /// The entries in key order.
    pub closed spec fn listing(&self) -> Seq<(Seq<u8>, Option<Seq<u8>>)> {
        listing_of(self.entries@)
    }

    /// The Bloom filter of the table.
    pub closed spec fn bloom_spec(&self) -> BloomFilter {
        self.bloom
    }

    /// Where the table's file lies.
    pub closed spec fn path_spec(&self) -> PathBuf {
        self.path
    }

    /// Size of the table's file, as computed when the table was built.
    /// The file of this table: its entries and its Bloom filter.
    pub closed spec fn file_bytes(&self) -> Seq<u8> {
        table_bytes(
            self.listing(),
            filter_block(
                self.bloom.bits_spec() as usize,
                self.bloom.hashes_spec() as u32,
                self.bloom.bit_array(),
            ),
        )
    }

    pub closed spec fn file_size_spec(&self) -> u64 {
        self.file_size
    }

    /// Keys ascend strictly, every entry fits the file format, and the Bloom filter
    /// holds every key.
    pub closed spec fn wf(&self) -> bool {
        &&& sorted_keys(self.listing())
        &&& all_fit(self.listing())
        &&& self.bloom.wf()
        &&& forall|k: Seq<u8>| #[trigger] self@.contains_key(k) ==> self.bloom.inserted().contains(k)
    }

    proof fn lemma_entries_sorted(&self)
        requires
            sorted_keys(self.listing()),
        ensures
            forall|i: int, j: int|
                #![trigger self.entries@[i], self.entries@[j]]
                0 <= i < j < self.entries@.len() ==> key_lt(
                    self.entries@[i].0@,
                    self.entries@[j].0@,
                ),
    {
        assert forall|i: int, j: int|
            #![trigger self.entries@[i], self.entries@[j]]
            0 <= i < j < self.entries@.len() implies key_lt(
                self.entries@[i].0@,
                self.entries@[j].0@,
            ) by {
            assert(self.listing()[i] == pair_view(self.entries@[i]));
            assert(self.listing()[j] == pair_view(self.entries@[j]));
        }
    }

    /// An empty table at `path`.
    pub fn new(path: PathBuf) -> (r: SSTable)
        ensures
            r.wf(),
            r@ == Map::<Seq<u8>, Option<Seq<u8>>>::empty(),
            r.path_spec() == path,
            r.file_size_spec() == 0,
    {
        let r = SSTable {
            path,
            entries: Vec::new(),
            bloom: BloomFilter::with_params(BLOOM_MIN_BITS, BLOOM_HASHES),
            file_size: 0,
        };
        assert(r.listing() =~= Seq::<(Seq<u8>, Option<Seq<u8>>)>::empty());
        assert(r@ =~= Map::<Seq<u8>, Option<Seq<u8>>>::empty());
        r
    }

    /// Where the table's file lies.
    pub fn path(&self) -> (r: &PathBuf)
        ensures
            *r == self.path_spec(),
    {
        &self.path
    }

    /// Number of entries, tombstones included.
    pub fn entry_count(&self) -> (r: usize)
        requires
            self.wf(),
        ensures
            r == self@.len(),
    {
        proof {
            crate::keys::lemma_assoc_len(self.listing());
        }
        self.entries.len()
    }

    /// Size of the table's file in bytes.
    pub fn file_size(&self) -> (r: u64)
        ensures
            r == self.file_size_spec(),
    {
        self.file_size
    }

    /// The table's Bloom filter; it holds every key of the table.
    pub fn bloom(&self) -> (r: &BloomFilter)
        requires
            self.wf(),
        ensures
            *r == self.bloom_spec(),
            r.wf(),
            forall|k: Seq<u8>| #[trigger] self@.contains_key(k) ==> r.inserted().contains(k),
    {
        &self.bloom
    }

    /// Builds the table of `entries`, given in any order (of two with one key the
    /// later wins), at `path`. An entry whose key or value is too long for the file
    /// format, or more than 2^32 - 1 distinct keys, is refused.
    pub fn flush_from_memtable(path: PathBuf, entries: &[(Key, Option<Value>)]) -> (r: Result<
        SSTable,
        OblivionError,
    >)
        ensures
            match r {
                Ok(t) => t.wf() && t@ == crate::compaction::fold_pairs(
                    Map::empty(),
                    listing_of(entries@),
                ) && map_fits(t@) && t.path_spec() == path && t.file_size_spec() == capped_len(
                    t.file_bytes(),
                ),
                Err(e) => e is Serialization && !map_fits(
                    crate::compaction::fold_pairs(Map::empty(), listing_of(entries@)),
                ),
            },
    {
        let ghost src = listing_of(entries@);
        let mut acc: Vec<(Vec<u8>, Option<Vec<u8>>)> = Vec::new();
        assert(listing_of(acc@) =~= Seq::<(Seq<u8>, Option<Seq<u8>>)>::empty());
        assert(assoc_map(listing_of(acc@)) =~= Map::<Seq<u8>, Option<Seq<u8>>>::empty());
        assert(src.skip(0) =~= src);
        let mut i: usize = 0;
        while i < entries.len()
            invariant
                i <= entries@.len(),
                src == listing_of(entries@),
                sorted_keys(listing_of(acc@)),
                crate::compaction::fold_pairs(Map::empty(), src)
                    == crate::compaction::fold_pairs(
                    assoc_map(listing_of(acc@)),
                    src.skip(i as int),
                ),
            decreases entries@.len() - i,
        {
            let k = copy_bytes(&entries[i].0);
            let v = match &entries[i].1 {
                Some(x) => Some(copy_bytes(x)),
                None => None,
            };
            assert(src[i as int] == pair_view(entries@[i as int]));
            assert(slot_view(v) == src[i as int].1);
            store_slot(&mut acc, k, v);
            assert(src.skip(i as int).drop_first() =~= src.skip(i + 1));
            assert(src.skip(i as int)[0] == src[i as int]);
            i = i + 1;
        }
        proof {
            lemma_fits_iff(listing_of(acc@));
        }
        Self::from_sorted(path, acc)
    }

    /// The table of a list already in key order, or a refusal where it does not fit
    /// the file format.
    pub(crate) fn from_sorted(path: PathBuf, entries: Vec<(Vec<u8>, Option<Vec<u8>>)>) -> (r: Result<
        SSTable,
        OblivionError,
    >)
        requires
            sorted_keys(listing_of(entries@)),
        ensures
            match r {
                Ok(t) => t.wf() && t.listing() == listing_of(entries@) && all_fit(t.listing())
                    && t.path_spec() == path && t.file_size_spec() == capped_len(
                    t.file_bytes(),
                ),
                Err(e) => e is Serialization && !all_fit(listing_of(entries@)),
            },
    {
        let ghost s = listing_of(entries@);
        let n = entries.len();
        if n > u32::MAX as usize {
            return Err(OblivionError::Serialization("too many entries for one table".to_owned()));
        }
        let bits = if n > (usize::MAX - BLOOM_MIN_BITS) / BLOOM_BITS_PER_KEY {
            usize::MAX
        } else {
            BLOOM_MIN_BITS + n * BLOOM_BITS_PER_KEY
        };
        let mut bloom = BloomFilter::with_params(bits, BLOOM_HASHES);
        let mut size: u128 = 16;
        let mut i: usize = 0;
        while i < n
            invariant
                n == entries@.len() == s.len(),
                s == listing_of(entries@),
                n <= u32::MAX,
                i <= n,
                bloom.wf(),
                bloom.count_spec() == i,
                forall|j: int| 0 <= j < i ==> #[trigger] entry_fits(s[j]),
                forall|j: int| 0 <= j < i ==> bloom.inserted().contains(#[trigger] s[j].0),
                size == 16 + entries_bytes(s.take(i as int)).len(),
                size <= 16 + i * (8 + 2 * (u32::MAX as int)),
            decreases n - i,
        {
            let e = &entries[i];
            assert(pair_view(*e) == s[i as int]);
            let klen = e.0.len();
            if klen > u32::MAX as usize {
                return Err(OblivionError::Serialization("key too long".to_owned()));
            }
            let vlen: usize = match &e.1 {
                Some(v) => {
                    if v.len() >= TOMBSTONE_LEN as usize {
                        return Err(OblivionError::Serialization("value too long".to_owned()));
                    }
                    v.len()
                },
                None => 0,
            };
            proof {
                lemma_entry_bytes_len(s[i as int]);
                lemma_entries_bytes_push(s.take(i as int), s[i as int]);
                assert(s.take(i + 1) =~= s.take(i as int).push(s[i as int]));
            }
            bloom.insert(e.0.as_slice());
            assert(size + 8 + klen + vlen <= 16 + (i + 1) * (8 + 2 * (u32::MAX as int))) by (
            nonlinear_arith)
                requires
                    size <= 16 + i * (8 + 2 * (u32::MAX as int)),
                    klen <= u32::MAX,
                    vlen <= u32::MAX,
            ;
            assert(16 + (i + 1) * (8 + 2 * (u32::MAX as int)) <= u128::MAX) by (nonlinear_arith)
                requires
                    i < n,
                    n <= u32::MAX,
            ;
            size = size + 8 + klen as u128 + vlen as u128;
            i = i + 1;
        }
        assert(s.take(n as int) =~= s);
        let nb = bloom.memory_usage();
        proof {
            bloom.lemma_shape();
        }
        assert(size + 16 + nb <= u128::MAX) by (nonlinear_arith)
            requires
                size <= 16 + n * (8 + 2 * (u32::MAX as int)),
                n <= u32::MAX,
                nb <= usize::MAX,
                usize::MAX <= u64::MAX,
        ;
        size = size + 16 + nb as u128;
        let file_size: u64 = if size > u64::MAX as u128 {
            u64::MAX
        } else {
            size as u64
        };
        let t = SSTable { path, entries, bloom, file_size };
        proof {
            let fb = filter_block(t.bloom.bits_spec() as usize, t.bloom.hashes_spec() as u32, t.bloom.bit_array());
            lemma_table_frame(s, fb);
            lemma_filter_block_fields(t.bloom.bits_spec() as usize, t.bloom.hashes_spec() as u32, t.bloom.bit_array());
            assert(t.listing() == s);
            assert(t.bloom.bits_spec() as usize == t.bloom.bits_spec());
            assert(nb == t.bloom.bit_array().len());
            assert(entries_bytes(s.take(n as int)) == entries_bytes(s));
            assert(t.file_bytes().len() == size);
            assert forall|k: Seq<u8>| #[trigger] t@.contains_key(k) implies t.bloom.inserted().contains(
                k,
            ) by {
                let j = crate::keys::index_of(s, k);
            }
        }
        Ok(t)
    }

    /// The slot of `key`: `Some(None)` for a tombstone, `None` where the table has no entry.
    pub fn lookup(&self, key: &[u8]) -> (r: Option<Option<Vec<u8>>>)
        requires
            self.wf(),
        ensures
            match r {
                Some(v) => self@.contains_key(key@) && self@[key@] == slot_view(v),
                None => !self@.contains_key(key@),
            },
    {
        proof {
            self.lemma_entries_sorted();
        }
        match locate(&self.entries, key) {
            Ok(i) => {
                proof {
                    lemma_assoc_at(self.listing(), i as int);
                }
                assert(self.listing()[i as int] == pair_view(self.entries@[i as int]));
                match &self.entries[i].1 {
                    Some(v) => Some(Some(copy_bytes(v))),
                    None => Some(None),
                }
            },
            Err(i) => {
                proof {
                    lemma_assoc_absent(self.listing(), key@, i as int);
                }
                None
            },
        }
    }

    /// The live pairs in key order; tombstones are left out.
    pub fn scan(&self) -> (r: Vec<(Key, Value)>)
        requires
            self.wf(),
        ensures
            sorted_keys(owned_view(r@)),
            assoc_map(owned_view(r@)) == live_part(self@),
    {
        live_pairs(&self.entries)
    }

    /// The entries in key order, tombstones included.
    pub fn entries(&self) -> (r: &Vec<(Vec<u8>, Option<Vec<u8>>)>)
        requires
            self.wf(),
        ensures
            listing_of(r@) == self.listing(),
            sorted_keys(self.listing()),
    {
        &self.entries
    }

    /// The smallest key, or `None` for an empty table.
    pub fn min_key(&self) -> (r: Option<Key>)
        requires
            self.wf(),
        ensures
            match r {
                Some(k) => self@.contains_key(k@) && forall|q: Seq<u8>| #[trigger] self@.contains_key(q) ==> crate::keys::key_le(k@, q),
                None => self@.len() == 0,
            },
    {
        proof {
            crate::keys::lemma_assoc_len(self.listing());
        }
        if self.entries.len() == 0 {
            return None;
        }
        let k = copy_bytes(&self.entries[0].0);
        proof {
            let s = self.listing();
            assert(s[0].0 == k@);
            lemma_assoc_at(s, 0);
            assert forall|q: Seq<u8>| #[trigger] self@.contains_key(q) implies crate::keys::key_le(k@, q) by {
                let j = crate::keys::index_of(s, q);
                if j > 0 {
                    assert(key_lt(s[0].0, s[j].0));
                }
            }
        }
        Some(k)
    }

    /// The largest key, or `None` for an empty table.
    pub fn max_key(&self) -> (r: Option<Key>)
        requires
            self.wf(),
        ensures
            match r {
                Some(k) => self@.contains_key(k@) && forall|q: Seq<u8>| #[trigger] self@.contains_key(q) ==> crate::keys::key_le(q, k@),
                None => self@.len() == 0,
            },
    {
        proof {
            crate::keys::lemma_assoc_len(self.listing());
        }
        let n = self.entries.len();
        if n == 0 {
            return None;
        }
        let k = copy_bytes(&self.entries[n - 1].0);
        proof {
            let s = self.listing();
            assert(s[n - 1].0 == k@);
            lemma_assoc_at(s, n - 1);
            assert forall|q: Seq<u8>| #[trigger] self@.contains_key(q) implies crate::keys::key_le(q, k@) by {
                let j = crate::keys::index_of(s, q);
                if j < n - 1 {
                    assert(key_lt(s[j].0, s[n - 1].0));
                }
            }
        }
        Some(k)
    }
}

/// `b` is the file of some table: entries in strict key order, each fitting the
/// format, and a Bloom filter that holds every key.
pub open spec fn is_table_file(b: Seq<u8>) -> bool {
    exists|s: Seq<(Seq<u8>, Option<Seq<u8>>)>, m: usize, k: u32, bits: Seq<u8>|
        sorted_keys(s) && all_fit(s) && filter_holds(s, m, k, bits) && #[trigger] table_bytes(
            s,
            filter_block(m, k, bits),
        ) == b
}

/// `b` holds the encoding of `e` from position `c` on.
pub open spec fn entry_at(b: Seq<u8>, c: int, e: (Seq<u8>, Option<Seq<u8>>)) -> bool {
    c + entry_bytes(e).len() <= b.len() && b.subrange(c, c + entry_bytes(e).len()) == entry_bytes(e)
}

proof fn lemma_entry_fields(b: Seq<u8>, c: int, e: (Seq<u8>, Option<Seq<u8>>))
    requires
        0 <= c,
        entry_fits(e),
        entry_at(b, c, e),
    ensures
        le32_value(b.subrange(c, c + 4)) == e.0.len(),
        b.subrange(c + 4, c + 4 + e.0.len()) == e.0,
        le32_value(b.subrange(c + 4 + e.0.len(), c + 8 + e.0.len())) == match e.1 {
            Some(v) => v.len() as u32,
            None => TOMBSTONE_LEN,
        },
        e.1 matches Some(v) ==> b.subrange(c + 8 + e.0.len(), c + 8 + e.0.len() + v.len()) == v,
        entry_bytes(e).len() == 8 + e.0.len() + match e.1 {
            Some(v) => v.len(),
            None => 0,
        },
{
    let kl = e.0.len() as int;
    let eb = entry_bytes(e);
    lemma_le32_round_trip(e.0.len() as u32);
    lemma_le32_round_trip(TOMBSTONE_LEN);
    assert(b.subrange(c, c + 4) =~= eb.subrange(0, 4));
    assert(eb.subrange(0, 4) =~= le32(e.0.len() as u32));
    assert(b.subrange(c + 4, c + 4 + kl) =~= eb.subrange(4, 4 + kl));
    assert(eb.subrange(4, 4 + kl) =~= e.0);
    match e.1 {
        Some(v) => {
            lemma_le32_round_trip(v.len() as u32);
            assert(b.subrange(c + 4 + kl, c + 8 + kl) =~= eb.subrange(4 + kl, 8 + kl));
            assert(eb.subrange(4 + kl, 8 + kl) =~= le32(v.len() as u32));
            assert(b.subrange(c + 8 + kl, c + 8 + kl + v.len()) =~= eb.subrange(8 + kl, 8 + kl + v.len()));
            assert(eb.subrange(8 + kl, 8 + kl + v.len()) =~= v);
        },
        None => {
            assert(b.subrange(c + 4 + kl, c + 8 + kl) =~= eb.subrange(4 + kl, 8 + kl));
            assert(eb.subrange(4 + kl, 8 + kl) =~= le32(TOMBSTONE_LEN));
        },
    }
}

/// Parses the entry at `cursor`, which must end by `end`: its key, its slot, and
/// where the next entry begins; `None` where no fitting entry lies there.
fn parse_entry(bytes: &[u8], cursor: usize, end: usize) -> (r: Option<(Vec<u8>, Option<Vec<u8>>, usize)>)
    requires
        cursor <= end <= bytes@.len(),
    ensures
        match r {
            Some((k, v, next)) => {
                &&& entry_fits((k@, slot_view(v)))
                &&& entry_at(bytes@, cursor as int, (k@, slot_view(v)))
                &&& next == cursor + entry_bytes((k@, slot_view(v))).len()
                &&& next <= end
            },
            None => forall|e: (Seq<u8>, Option<Seq<u8>>)|
                entry_fits(e) && cursor + entry_bytes(e).len() <= end ==> !#[trigger] entry_at(
                    bytes@,
                    cursor as int,
                    e,
                ),
        },
{
    let rem = end - cursor;
    if rem < 8 {
        proof {
            assert forall|e: (Seq<u8>, Option<Seq<u8>>)|
                entry_fits(e) && cursor + entry_bytes(e).len() <= end implies !#[trigger] entry_at(
                bytes@,
                cursor as int,
                e,
            ) by {
                if entry_at(bytes@, cursor as int, e) {
                    lemma_entry_fields(bytes@, cursor as int, e);
                }
            }
        }
        return None;
    }
    let kl = read_u32_le(bytes, cursor) as usize;
    if rem - 8 < kl {
        proof {
            assert forall|e: (Seq<u8>, Option<Seq<u8>>)|
                entry_fits(e) && cursor + entry_bytes(e).len() <= end implies !#[trigger] entry_at(
                bytes@,
                cursor as int,
                e,
            ) by {
                if entry_at(bytes@, cursor as int, e) {
                    lemma_entry_fields(bytes@, cursor as int, e);
                }
            }
        }
        return None;
    }
    let kpos = cursor + 4;
    let vpos = kpos + kl;
    let key = slice_to_vec(&bytes[kpos..vpos]);
    let vl = read_u32_le(bytes, vpos);
    if vl == TOMBSTONE_LEN {
        let next = vpos + 4;
        let ghost e = (key@, None::<Seq<u8>>);
        proof {
            let eb = entry_bytes(e);
            assert(eb.len() == 8 + kl);
            assert(bytes@.subrange(cursor as int, next as int) =~= eb) by {
                assert(bytes@.subrange(cursor as int, cursor + 4) =~= le32(kl as u32)) by {
                    lemma_le32_bytes(bytes@.subrange(cursor as int, cursor + 4));
                }
                assert(bytes@.subrange(vpos as int, vpos + 4) =~= le32(TOMBSTONE_LEN)) by {
                    lemma_le32_bytes(bytes@.subrange(vpos as int, vpos + 4));
                }
                assert forall|j: int| 0 <= j < eb.len() implies bytes@.subrange(
                    cursor as int,
                    next as int,
                )[j] == eb[j] by {
                    if j < 4 {
                        assert(bytes@.subrange(cursor as int, cursor + 4)[j] == bytes@[cursor + j]);
                    } else if j < 4 + kl {
                    } else {
                        assert(bytes@.subrange(vpos as int, vpos + 4)[j - 4 - kl] == bytes@[cursor + j]);
                    }
                }
            }
        }
        return Some((key, None, next));
    }
    if rem - 8 - kl < vl as usize {
        proof {
            assert forall|e: (Seq<u8>, Option<Seq<u8>>)|
                entry_fits(e) && cursor + entry_bytes(e).len() <= end implies !#[trigger] entry_at(
                bytes@,
                cursor as int,
                e,
            ) by {
                if entry_at(bytes@, cursor as int, e) {
                    lemma_entry_fields(bytes@, cursor as int, e);
                }
            }
        }
        return None;
    }
    let dpos = vpos + 4;
    let next = dpos + vl as usize;
    let value = slice_to_vec(&bytes[dpos..next]);
    let ghost e = (key@, Some(value@));
    proof {
        let eb = entry_bytes(e);
        assert(eb.len() == 8 + kl + vl);
        assert(bytes@.subrange(cursor as int, next as int) =~= eb) by {
            assert(bytes@.subrange(cursor as int, cursor + 4) =~= le32(kl as u32)) by {
                lemma_le32_bytes(bytes@.subrange(cursor as int, cursor + 4));
            }
            assert(bytes@.subrange(vpos as int, vpos + 4) =~= le32(vl)) by {
                lemma_le32_bytes(bytes@.subrange(vpos as int, vpos + 4));
            }
            assert forall|j: int| 0 <= j < eb.len() implies bytes@.subrange(
                cursor as int,
                next as int,
            )[j] == eb[j] by {
                if j < 4 {
                    assert(bytes@.subrange(cursor as int, cursor + 4)[j] == bytes@[cursor + j]);
                } else if j < 4 + kl {
                } else if j < 8 + kl {
                    assert(bytes@.subrange(vpos as int, vpos + 4)[j - 4 - kl] == bytes@[cursor + j]);
                } else {
                }
            }
        }
    }
    Some((key, Some(value), next))
}

/// Four bytes are the encoding of the number they hold.
proof fn lemma_le32_bytes(b: Seq<u8>)
    requires
        b.len() == 4,
    ensures
        le32(le32_value(b)) == b,
{
    let b0 = b[0];
    let b1 = b[1];
    let b2 = b[2];
    let b3 = b[3];
    let x = le32_value(b);
    assert(((x & 0xff) as u8) == b0 && (((x >> 8) & 0xff) as u8) == b1 && (((x >> 16) & 0xff) as u8)
        == b2 && (((x >> 24) & 0xff) as u8) == b3) by (bit_vector)
        requires
            x == (b0 as u32) | ((b1 as u32) << 8) | ((b2 as u32) << 16) | ((b3 as u32) << 24),
    ;
    assert(le32(x) =~= b);
}

proof fn lemma_entry_unique(b: Seq<u8>, c: int, e1: (Seq<u8>, Option<Seq<u8>>), e2: (Seq<u8>, Option<Seq<u8>>))
    requires
        0 <= c,
        entry_fits(e1),
        entry_fits(e2),
        entry_at(b, c, e1),
        entry_at(b, c, e2),
    ensures
        e1 == e2,
{
    lemma_entry_fields(b, c, e1);
    lemma_entry_fields(b, c, e2);
}

/// In the file of `s`, entry `i` lies right after the bytes of the entries before it.
proof fn lemma_table_entry_at(s: Seq<(Seq<u8>, Option<Seq<u8>>)>, f: Seq<u8>, i: int)
    requires
        0 <= i < s.len(),
    ensures
        entry_at(table_bytes(s, f), 16 + entries_bytes(s.take(i)).len() as int, s[i]),
        16 + entries_bytes(s.take(i)).len() + entry_bytes(s[i]).len() <= table_bytes(s, f).len()
            - 4,
{
    lemma_entries_bytes_at(s, i);
    let b = table_bytes(s, f);
    let c: int = 16 + entries_bytes(s.take(i)).len() as int;
    let eb = entry_bytes(s[i]);
    let pre = magic() + le32(TABLE_VERSION) + le32(s.len() as u32) + entries_bytes(s.take(i));
    lemma_le32_round_trip(s.len() as u32);
    lemma_le32_round_trip(TABLE_VERSION);
    lemma_le32_round_trip(crc32_of(table_body(s, f)));
    assert(b =~= pre + eb + entries_bytes(s.skip(i + 1)) + f + le32(crc32_of(table_body(s, f))));
    assert(b.subrange(c, c + eb.len() as int) =~= eb);
}

/// The header, filter block and checksum of the file of `s`.
proof fn lemma_table_frame(s: Seq<(Seq<u8>, Option<Seq<u8>>)>, f: Seq<u8>)
    requires
        s.len() <= u32::MAX,
    ensures
        table_bytes(s, f).len() == 20 + entries_bytes(s).len() + f.len(),
        table_bytes(s, f).subrange(0, 8) == magic(),
        le32_value(table_bytes(s, f).subrange(8, 12)) == TABLE_VERSION,
        le32_value(table_bytes(s, f).subrange(12, 16)) == s.len(),
        table_bytes(s, f).subrange(16, 16 + entries_bytes(s).len() as int) == entries_bytes(s),
        table_bytes(s, f).subrange(
            16 + entries_bytes(s).len() as int,
            table_bytes(s, f).len() - 4,
        ) == f,
        table_bytes(s, f).subrange(0, table_bytes(s, f).len() - 4) == table_body(s, f),
        le32_value(
            table_bytes(s, f).subrange(table_bytes(s, f).len() - 4, table_bytes(s, f).len() as int),
        ) == crc32_of(table_body(s, f)),
{
    let b = table_bytes(s, f);
    let e = entries_bytes(s).len() as int;
    lemma_le32_round_trip(s.len() as u32);
    lemma_le32_round_trip(TABLE_VERSION);
    lemma_le32_round_trip(crc32_of(table_body(s, f)));
    assert(b.subrange(0, 8) =~= magic());
    assert(b.subrange(8, 12) =~= le32(TABLE_VERSION));
    assert(b.subrange(12, 16) =~= le32(s.len() as u32));
    assert(b.subrange(16, 16 + e) =~= entries_bytes(s));
    assert(b.subrange(16 + e, b.len() - 4) =~= f);
    assert(b.subrange(0, b.len() - 4) =~= table_body(s, f));
    assert(b.subrange(b.len() - 4, b.len() as int) =~= le32(crc32_of(table_body(s, f))));
}

/// The halves of a bit count give it back.
proof fn lemma_halves(m: usize)
    ensures
        ((low_half(m) as u64) | ((high_half(m) as u64) << 32u64)) == m as u64,
{
    let x = m as u64;
    assert((((x & 0xffff_ffffu64) as u32) as u64 | ((((x >> 32u64) as u32) as u64) << 32u64)) == x)
        by (bit_vector);
}

/// A number of 64 bits is given back by its halves.
proof fn lemma_join_halves(lo: u32, hi: u32)
    ensures
        (((lo as u64) | ((hi as u64) << 32u64)) & 0xffff_ffffu64) as u32 == lo,
        (((lo as u64) | ((hi as u64) << 32u64)) >> 32u64) as u32 == hi,
{
    assert((((lo as u64) | ((hi as u64) << 32u64)) & 0xffff_ffffu64) as u32 == lo) by (bit_vector);
    assert((((lo as u64) | ((hi as u64) << 32u64)) >> 32u64) as u32 == hi) by (bit_vector);
}

/// A filter block determines the filter.
proof fn lemma_filter_block_fields(m: usize, k: u32, bits: Seq<u8>)
    ensures
        filter_block(m, k, bits).len() == 12 + bits.len(),
        le32_value(filter_block(m, k, bits).subrange(0, 4)) == low_half(m),
        le32_value(filter_block(m, k, bits).subrange(4, 8)) == high_half(m),
        le32_value(filter_block(m, k, bits).subrange(8, 12)) == k,
        filter_block(m, k, bits).subrange(12, 12 + bits.len() as int) == bits,
{
    let f = filter_block(m, k, bits);
    lemma_le32_round_trip(low_half(m));
    lemma_le32_round_trip(high_half(m));
    lemma_le32_round_trip(k);
    assert(f.subrange(0, 4) =~= le32(low_half(m)));
    assert(f.subrange(4, 8) =~= le32(high_half(m)));
    assert(f.subrange(8, 12) =~= le32(k));
    assert(f.subrange(12, 12 + bits.len() as int) =~= bits);
}

/// Reads the filter block that fills `start..end`; `None` where no filter block of
/// a valid shape is there.
fn parse_filter(bytes: &[u8], start: usize, end: usize) -> (r: Option<(usize, u32, Vec<u8>)>)
    requires
        start <= end <= bytes@.len(),
    ensures
        match r {
            Some((m, k, bits)) => filter_shape(m, k as nat, bits@) && bytes@.subrange(
                start as int,
                end as int,
            ) == filter_block(m, k, bits@),
            None => forall|m: usize, k: u32, bits: Seq<u8>|
                filter_shape(m, k as nat, bits) ==> bytes@.subrange(start as int, end as int)
                    != #[trigger] filter_block(m, k, bits),
        },
{
    let ghost b = bytes@.subrange(start as int, end as int);
    if end - start < 12 {
        proof {
            assert forall|m: usize, k: u32, bits: Seq<u8>|
                filter_shape(m, k as nat, bits) implies b != #[trigger] filter_block(m, k, bits) by {
                lemma_filter_block_fields(m, k, bits);
            }
        }
        return None;
    }
    let lo = read_u32_le(bytes, start);
    let hi = read_u32_le(bytes, start + 4);
    let k = read_u32_le(bytes, start + 8);
    assert(b.subrange(0, 4) =~= bytes@.subrange(start as int, start + 4));
    assert(b.subrange(4, 8) =~= bytes@.subrange(start + 4, start + 8));
    assert(b.subrange(8, 12) =~= bytes@.subrange(start + 8, start + 12));
    let m64: u64 = (lo as u64) | ((hi as u64) << 32u64);
    proof {
        lemma_join_halves(lo, hi);
        assert forall|m: usize, k2: u32, bits: Seq<u8>|
            filter_shape(m, k2 as nat, bits) && b == #[trigger] filter_block(m, k2, bits) implies m as u64
            == m64 && k2 == k && bits.len() == b.len() - 12 by {
            lemma_filter_block_fields(m, k2, bits);
            lemma_halves(m);
        }
    }
    if m64 == 0 || m64 > usize::MAX as u64 {
        return None;
    }
    let m = m64 as usize;
    let nb = (m - 1) / 8 + 1;
    if end - start - 12 != nb || k < 2 || k > 16 {
        return None;
    }
    let bits = slice_to_vec(&bytes[start + 12..end]);
    proof {
        lemma_filter_block_fields(m, k, bits@);
        lemma_le32_bytes(b.subrange(0, 4));
        lemma_le32_bytes(b.subrange(4, 8));
        lemma_le32_bytes(b.subrange(8, 12));
        assert(low_half(m) == lo && high_half(m) == hi);
        assert(b =~= b.subrange(0, 4) + b.subrange(4, 8) + b.subrange(8, 12) + bits@);
    }
    Some((m, k, bits))
}

/// The header that every table file begins with.
const MAGIC_BYTES: [u8; 8] = [0x4f, 0x42, 0x4c, 0x53, 0x53, 0x54, 0x30, 0x31];

impl SSTable {
    /// The file of this table.
    pub fn encode(&self) -> (r: Vec<u8>)
        requires
            self.wf(),
        ensures
            r@ == self.file_bytes(),
            is_table_file(r@),
    {
        let ghost s = self.listing();
        let mut buf: Vec<u8> = Vec::new();
        let mut j: usize = 0;
        while j < 8
            invariant
                j <= 8,
                buf@ == magic().take(j as int),
            decreases 8 - j,
        {
            buf.push(MAGIC_BYTES[j]);
            assert(buf@ =~= magic().take(j + 1));
            j = j + 1;
        }
        assert(magic().take(8) =~= magic());
        push_u32_le(&mut buf, TABLE_VERSION);
        push_u32_le(&mut buf, self.entries.len() as u32);
        let mut i: usize = 0;
        let ghost head = magic() + le32(TABLE_VERSION) + le32(s.len() as u32);
        assert(s.take(0) =~= Seq::<(Seq<u8>, Option<Seq<u8>>)>::empty());
        assert(buf@ =~= head + entries_bytes(s.take(0)));
        while i < self.entries.len()
            invariant
                self.wf(),
                s == self.listing(),
                head == magic() + le32(TABLE_VERSION) + le32(s.len() as u32),
                i <= self.entries@.len(),
                buf@ == head + entries_bytes(s.take(i as int)),
            decreases self.entries@.len() - i,
        {
            let e = &self.entries[i];
            assert(pair_view(*e) == s[i as int]);
            assert(entry_fits(s[i as int]));
            let ghost before = buf@;
            push_u32_le(&mut buf, e.0.len() as u32);
            push_bytes(&mut buf, e.0.as_slice());
            match &e.1 {
                Some(v) => {
                    push_u32_le(&mut buf, v.len() as u32);
                    push_bytes(&mut buf, v.as_slice());
                },
                None => {
                    push_u32_le(&mut buf, TOMBSTONE_LEN);
                },
            }
            proof {
                assert(s.take(i + 1) =~= s.take(i as int).push(s[i as int]));
                lemma_entries_bytes_push(s.take(i as int), s[i as int]);
                assert(buf@ =~= before + entry_bytes(s[i as int]));
            }
            i = i + 1;
        }
        assert(s.take(i as int) =~= s);
        let m = self.bloom.num_bits();
        let k = self.bloom.num_hashes();
        let ghost filter = filter_block(m, k, self.bloom.bit_array());
        let ghost before = buf@;
        push_u32_le(&mut buf, (m as u64 & 0xffff_ffffu64) as u32);
        push_u32_le(&mut buf, (m as u64 >> 32u64) as u32);
        push_u32_le(&mut buf, k);
        push_bytes(&mut buf, self.bloom.bit_bytes().as_slice());
        assert(buf@ =~= before + filter);
        assert(buf@ == table_body(s, filter));
        let crc = crc32(buf.as_slice());
        push_u32_le(&mut buf, crc);
        proof {
            self.bloom.lemma_shape();
            assert forall|q: int| 0 <= q < s.len() implies probes_set(
                self.bloom.bit_array(),
                m,
                k as nat,
                #[trigger] s[q].0,
            ) by {
                lemma_assoc_at(s, q);
                assert(self@.contains_key(s[q].0));
                assert(self.bloom.inserted().contains(s[q].0));
                assert(self.bloom.all_probes_set(s[q].0));
            }
            assert(filter_holds(s, m, k, self.bloom.bit_array()));
            assert(buf@ == table_bytes(s, filter_block(m, k, self.bloom.bit_array())));
            assert(sorted_keys(s) && all_fit(s));
        }
        buf
    }

    /// Reads a table file: `Corruption` unless the bytes are the file of a table
    /// whose keys ascend strictly and whose filter holds every key.
    #[verifier::rlimit(80)]
    pub fn decode(path: PathBuf, bytes: &[u8]) -> (r: Result<SSTable, OblivionError>)
        ensures
            match r {
                Ok(t) => t.wf() && t.file_bytes() == bytes@ && t.path_spec() == path
                    && t.file_size_spec() == capped_len(bytes@),
                Err(e) => e is Corruption && !is_table_file(bytes@),
            },
    {
        let ghost wfb = is_table_file(bytes@);
        let ghost (s0, m0, k0, b0) = choose|
            s: Seq<(Seq<u8>, Option<Seq<u8>>)>,
            m: usize,
            k: u32,
            bits: Seq<u8>,
        |
            sorted_keys(s) && all_fit(s) && filter_holds(s, m, k, bits) && table_bytes(
                s,
                filter_block(m, k, bits),
            ) == bytes@;
        let ghost f0 = filter_block(m0, k0, b0);
        proof {
            if wfb {
                lemma_table_frame(s0, f0);
            }
        }
        let len = bytes.len();
        if len < 20 {
            return Err(OblivionError::Corruption("table file too short".to_owned()));
        }
        let mut j: usize = 0;
        while j < 8
            invariant
                j <= 8,
                20 <= len == bytes@.len(),
                bytes@.subrange(0, j as int) == magic().take(j as int),
            decreases 8 - j,
        {
            if bytes[j] != MAGIC_BYTES[j] {
                proof {
                    if wfb {
                        assert(bytes@.subrange(0, 8)[j as int] == bytes@[j as int]);
                    }
                }
                return Err(OblivionError::Corruption("bad table header".to_owned()));
            }
            assert(bytes@.subrange(0, j + 1) =~= magic().take(j + 1));
            j = j + 1;
        }
        if read_u32_le(bytes, 8) != TABLE_VERSION {
            return Err(OblivionError::Corruption("unknown table version".to_owned()));
        }
        let n = read_u32_le(bytes, 12) as usize;
        let end = len - 4;
        let mut cursor: usize = 16;
        let mut out: Vec<(Vec<u8>, Option<Vec<u8>>)> = Vec::new();
        let mut i: usize = 0;
        assert(listing_of(out@) =~= Seq::<(Seq<u8>, Option<Seq<u8>>)>::empty());
        assert(bytes@.subrange(16, 16) =~= entries_bytes(listing_of(out@)));
        proof {
            if wfb {
                assert(s0.take(0) =~= Seq::<(Seq<u8>, Option<Seq<u8>>)>::empty());
            }
        }
        while i < n
            invariant
                20 <= len == bytes@.len(),
                end == len - 4,
                16 <= cursor <= end,
                n <= u32::MAX,
                bytes@.subrange(0, 8) == magic(),
                le32_value(bytes@.subrange(8, 12)) == TABLE_VERSION,
                le32_value(bytes@.subrange(12, 16)) == n,
                i <= n,
                out@.len() == i,
                sorted_keys(listing_of(out@)),
                forall|q: int| 0 <= q < i ==> entry_fits(#[trigger] listing_of(out@)[q]),
                bytes@.subrange(16, cursor as int) == entries_bytes(listing_of(out@)),
                wfb == is_table_file(bytes@),
                f0 == filter_block(m0, k0, b0),
                wfb ==> sorted_keys(s0) && all_fit(s0) && filter_holds(s0, m0, k0, b0) && table_bytes(
                    s0,
                    f0,
                ) == bytes@,
                wfb ==> s0.len() == n && listing_of(out@) == s0.take(i as int),
            decreases n - i,
        {
            let ghost l = listing_of(out@);
            proof {
                if wfb {
                    lemma_table_entry_at(s0, f0, i as int);
                    assert(entry_fits(s0[i as int]));
                }
            }
            match parse_entry(bytes, cursor, end) {
                None => {
                    return Err(OblivionError::Corruption("malformed table entry".to_owned()));
                },
                Some((k, v, next)) => {
                    let ghost e = (k@, slot_view(v));
                    proof {
                        if wfb {
                            lemma_entry_unique(bytes@, cursor as int, e, s0[i as int]);
                        }
                    }
                    if i > 0 {
                        let last = &out[i - 1].0;
                        assert(l[i - 1].0 == last@);
                        match crate::keys::compare_keys(last.as_slice(), k.as_slice()) {
                            core::cmp::Ordering::Less => {},
                            _ => {
                                proof {
                                    if wfb {
                                        assert(l[i - 1] == s0[i - 1]);
                                        assert(key_lt(s0[i - 1].0, s0[i as int].0));
                                    }
                                }
                                return Err(OblivionError::Corruption("table keys out of order".to_owned()));
                            },
                        }
                        proof {
                            assert forall|q: int| 0 <= q < l.len() implies key_lt(#[trigger] l[q].0, k@) by {
                                if q < i - 1 {
                                    crate::keys::lemma_key_lt_transitive(l[q].0, l[i - 1].0, k@);
                                }
                            }
                        }
                    }
                    out.push((k, v));
                    proof {
                        assert(listing_of(out@) =~= l.push(e));
                        assert forall|a: int, b: int|
                            #![trigger listing_of(out@)[a], listing_of(out@)[b]]
                            0 <= a < b < listing_of(out@).len() implies key_lt(
                            listing_of(out@)[a].0,
                            listing_of(out@)[b].0,
                        ) by {
                            if b < l.len() {
                                assert(listing_of(out@)[a] == l[a] && listing_of(out@)[b] == l[b]);
                            } else {
                                assert(listing_of(out@)[a] == l[a]);
                            }
                        }
                        lemma_entries_bytes_push(l, e);
                        assert(bytes@.subrange(16, next as int) =~= bytes@.subrange(16, cursor as int)
                            + bytes@.subrange(cursor as int, next as int));
                        if wfb {
                            assert(s0.take(i + 1) =~= s0.take(i as int).push(s0[i as int]));
                        }
                    }
                    cursor = next;
                },
            }
            i = i + 1;
        }
        let ghost l = listing_of(out@);
        proof {
            if wfb {
                assert(s0.take(n as int) =~= s0);
                assert(cursor == 16 + entries_bytes(s0).len());
            }
        }
        let (m, k, bits) = match parse_filter(bytes, cursor, end) {
            Some(parts) => parts,
            None => {
                return Err(OblivionError::Corruption("malformed filter block".to_owned()));
            },
        };
        let ghost bits_v = bits@;
        proof {
            if wfb {
                let f = filter_block(m, k, bits_v);
                lemma_filter_block_fields(m, k, bits_v);
                lemma_filter_block_fields(m0, k0, b0);
                lemma_halves(m);
                lemma_halves(m0);
                assert(bits_v =~= b0) by {
                    assert(f.subrange(12, 12 + bits_v.len() as int) == bits_v);
                    assert(f0.subrange(12, 12 + b0.len() as int) == b0);
                }
            }
        }
        let mut bloom = BloomFilter::from_parts(m, k, bits);
        let mut q: usize = 0;
        while q < out.len()
            invariant
                q <= out@.len(),
                l == listing_of(out@),
                bloom.wf(),
                bloom.bits_spec() == m,
                bloom.hashes_spec() == k,
                bloom.bit_array() == bits_v,
                bloom.count_spec() == q,
                forall|p: int| 0 <= p < q ==> bloom.inserted().contains(#[trigger] l[p].0),
                wfb == is_table_file(bytes@),
                wfb ==> m == m0 && k == k0 && bits_v == b0 && l == s0 && filter_holds(s0, m0, k0, b0),
            decreases out@.len() - q,
        {
            assert(l[q as int].0 == out@[q as int].0@);
            proof {
                if wfb {
                    assert(probes_set(b0, m0, k0 as nat, s0[q as int].0));
                    assert(bloom.bits_spec() as usize == m0);
                    assert(bloom.all_probes_set(out@[q as int].0@));
                }
            }
            if !bloom.accept_key(out[q].0.as_slice()) {
                return Err(OblivionError::Corruption("filter misses a key".to_owned()));
            }
            q = q + 1;
        }
        let stored = read_u32_le(bytes, end);
        let computed = crc32(&bytes[0..end]);
        if stored != computed {
            return Err(OblivionError::Corruption("table checksum mismatch".to_owned()));
        }
        let ghost filter = filter_block(m, k, bits_v);
        proof {
            lemma_le32_bytes(bytes@.subrange(8, 12));
            lemma_le32_bytes(bytes@.subrange(12, 16));
            lemma_le32_bytes(bytes@.subrange(end as int, len as int));
            lemma_le32_round_trip(TABLE_VERSION);
            assert(bytes@.subrange(0, end as int) =~= bytes@.subrange(0, 8) + bytes@.subrange(8, 12)
                + bytes@.subrange(12, 16) + bytes@.subrange(16, cursor as int) + bytes@.subrange(
                cursor as int,
                end as int,
            ));
            assert(bytes@.subrange(0, end as int) == table_body(l, filter));
            assert(bytes@ =~= bytes@.subrange(0, end as int) + bytes@.subrange(end as int, len as int));
        }
        let t = SSTable { path, entries: out, bloom, file_size: len as u64 };
        proof {
            assert forall|key: Seq<u8>| #[trigger] t@.contains_key(key) implies t.bloom.inserted().contains(
                key,
            ) by {
                let p = crate::keys::index_of(l, key);
            }
            assert(all_fit(l));
            assert(t.file_bytes() == bytes@);
        }
        Ok(t)
    }
}

/// A table file determines its entries: two lists that fit the format and whose
/// files are the same bytes are the same list. With the contracts of `encode` and
/// `decode`, a table read back from its file holds what was written.
pub proof fn lemma_table_bytes_injective(
    s: Seq<(Seq<u8>, Option<Seq<u8>>)>,
    f: Seq<u8>,
    t: Seq<(Seq<u8>, Option<Seq<u8>>)>,
    g: Seq<u8>,
)
    requires
        all_fit(s),
        all_fit(t),
        table_bytes(s, f) == table_bytes(t, g),
    ensures
        s == t,
{
    lemma_table_frame(s, f);
    lemma_table_frame(t, g);
    assert(s.len() == t.len());
    lemma_same_prefix(s, f, t, g, s.len() as int);
    assert(s.take(s.len() as int) =~= s);
    assert(t.take(t.len() as int) =~= t);
}

proof fn lemma_same_prefix(
    s: Seq<(Seq<u8>, Option<Seq<u8>>)>,
    f: Seq<u8>,
    t: Seq<(Seq<u8>, Option<Seq<u8>>)>,
    g: Seq<u8>,
    i: int,
)
    requires
        all_fit(s),
        all_fit(t),
        s.len() == t.len(),
        table_bytes(s, f) == table_bytes(t, g),
        0 <= i <= s.len(),
    ensures
        s.take(i) == t.take(i),
    decreases i,
{
    if i == 0 {
        assert(s.take(0) =~= t.take(0));
    } else {
        let j = i - 1;
        lemma_same_prefix(s, f, t, g, j);
        lemma_table_entry_at(s, f, j);
        lemma_table_entry_at(t, g, j);
        assert(entry_fits(s[j]) && entry_fits(t[j]));
        lemma_entry_unique(table_bytes(s, f), 16 + entries_bytes(s.take(j)).len() as int, s[j], t[j]);
        assert(s.take(i) =~= s.take(j).push(s[j]));
        assert(t.take(i) =~= t.take(j).push(t[j]));
    }
}

proof fn lemma_entry_bytes_len(e: (Seq<u8>, Option<Seq<u8>>))
    requires
        entry_fits(e),
    ensures
        entry_bytes(e).len() == 8 + e.0.len() + match e.1 {
            Some(v) => v.len(),
            None => 0,
        },
{
}

proof fn lemma_entries_bytes_push(s: Seq<(Seq<u8>, Option<Seq<u8>>)>, e: (Seq<u8>, Option<Seq<u8>>))
    ensures
        entries_bytes(s.push(e)) == entries_bytes(s) + entry_bytes(e),
    decreases s.len(),
{
    if s.len() == 0 {
        let none = Seq::<(Seq<u8>, Option<Seq<u8>>)>::empty();
        assert(s.push(e).drop_first() =~= none);
        assert(s.push(e)[0] == e);
        assert(entries_bytes(none) == Seq::<u8>::empty());
        assert(s =~= none);
        assert(entries_bytes(s.push(e)) =~= entries_bytes(s) + entry_bytes(e));
    } else {
        assert(s.push(e).drop_first() =~= s.drop_first().push(e));
        lemma_entries_bytes_push(s.drop_first(), e);
        assert(entries_bytes(s.push(e)) =~= entries_bytes(s) + entry_bytes(e));
    }
}

/// The bytes of a list split at `i`: those of the first `i` entries, of entry `i`,
/// then of the rest.
proof fn lemma_entries_bytes_at(s: Seq<(Seq<u8>, Option<Seq<u8>>)>, i: int)
    requires
        0 <= i < s.len(),
    ensures
        entries_bytes(s) == entries_bytes(s.take(i)) + entry_bytes(s[i]) + entries_bytes(
            s.skip(i + 1),
        ),
    decreases i,
{
    if i == 0 {
        assert(s.take(0) =~= Seq::<(Seq<u8>, Option<Seq<u8>>)>::empty());
        assert(s.drop_first() =~= s.skip(1));
        assert(entries_bytes(s) =~= entries_bytes(s.take(i)) + entry_bytes(s[i]) + entries_bytes(
            s.skip(i + 1),
        ));
    } else {
        let t = s.drop_first();
        lemma_entries_bytes_at(t, i - 1);
        assert(t.take(i - 1) =~= s.take(i).drop_first());
        assert(s.take(i)[0] == s[0]);
        assert(t.skip(i) =~= s.skip(i + 1));
        assert(t[i - 1] == s[i]);
        assert(entries_bytes(s) =~= entries_bytes(s.take(i)) + entry_bytes(s[i]) + entries_bytes(
            s.skip(i + 1),
        ));
    }
}

} // verus!
