//! A Bloom filter: a bit array that answers "maybe present" or "surely absent".
//!
//! Each key sets `k` bits, at `(h1 + i * h2) mod m` for `i < k`, where `h1` and `h2`
//! are the key's hashes under two seeds. The hash is fixed here rather than taken
//! from the standard library, whose hasher may change between releases: a filter
//! stored on disk must answer the same way in every later run.
use vstd::prelude::*;

verus! {

/// Seed of the first hash.
pub const SEED_PRIMARY: u64 = 0;

/// Seed of the second hash.
pub const SEED_SECONDARY: u64 = 0xDEADBEEF;

/// FNV-1a offset basis.
pub const FNV_OFFSET: u64 = 0xcbf29ce484222325;

/// FNV-1a prime.
pub const FNV_PRIME: u64 = 0x100000001b3;

/// First multiplier of the 64-bit finaliser.
pub const MIX_A: u64 = 0xff51afd7ed558ccd;

/// Second multiplier of the 64-bit finaliser.
pub const MIX_B: u64 = 0xc4ceb9fe1a85ec53;

/// Fewest hash functions a filter uses.
pub const MIN_HASHES: u32 = 2;

/// Most hash functions a filter uses.
pub const MAX_HASHES: u32 = 16;

/// The 64-bit finaliser: spreads every input bit over the output.
pub open spec fn mix(x: u64) -> u64 {
    let a = x ^ (x >> 33u64);
    let b = a.wrapping_mul(MIX_A);
    let c = b ^ (b >> 33u64);
    let d = c.wrapping_mul(MIX_B);
    d ^ (d >> 33u64)
}

/// One FNV-1a step.
pub open spec fn fnv_step(h: u64, b: u8) -> u64 {
    (h ^ (b as u64)).wrapping_mul(FNV_PRIME)
}

/// FNV-1a over `key`, from state `h`.
pub open spec fn fnv_from(h: u64, key: Seq<u8>) -> u64
    decreases key.len(),
{
    if key.len() == 0 {
        h
    } else {
        fnv_from(fnv_step(h, key[0]), key.drop_first())
    }
}

/// The keyed hash of `key` under `seed`.
pub open spec fn seeded_hash(seed: u64, key: Seq<u8>) -> u64 {
    mix(fnv_from(mix(FNV_OFFSET ^ seed), key))
}

/// The `i`-th bit position that `key` sets in a filter of `m` bits.
#[verifier::opaque]
pub open spec fn probe(key: Seq<u8>, i: u32, m: usize) -> int {
    let h1 = seeded_hash(SEED_PRIMARY, key);
    let h2 = seeded_hash(SEED_SECONDARY, key);
    (h1.wrapping_add((i as u64).wrapping_mul(h2)) % (m as u64)) as int
}

/// Every probe falls inside the filter.
pub proof fn lemma_probe_in_range(key: Seq<u8>, i: u32, m: usize)
    requires
        m > 0,
    ensures
        0 <= probe(key, i, m) < m,
{
    reveal(probe);
}

/// Bit `i` of a byte array, low bit of each byte first.
#[verifier::opaque]
pub open spec fn bit_set(bits: Seq<u8>, i: int) -> bool {
    (bits[i / 8] >> ((i % 8) as u8)) & 1u8 == 1u8
}

/// `v` clamped to `[lo, hi]`.
pub open spec fn clamp(v: u32, lo: u32, hi: u32) -> u32 {
    if v < lo {
        lo
    } else if v > hi {
        hi
    } else {
        v
    }
}

proof fn lemma_or_sets_bit(b: u8, o: u8)
    requires
        o < 8,
    ensures
        ((b | (1u8 << o)) >> o) & 1u8 == 1u8,
{
    assert(((b | (1u8 << o)) >> o) & 1u8 == 1u8) by (bit_vector)
        requires
            o < 8,
    ;
}

proof fn lemma_or_other_bit(b: u8, o: u8, p: u8)
    requires
        o < 8,
        p < 8,
        o != p,
    ensures
        ((b | (1u8 << o)) >> p) & 1u8 == (b >> p) & 1u8,
{
    assert(((b | (1u8 << o)) >> p) & 1u8 == (b >> p) & 1u8) by (bit_vector)
        requires
            o < 8,
            p < 8,
            o != p,
    ;
}

/// Sets bit `idx`, leaving every other bit as it was.
fn set_bit(bits: &mut Vec<u8>, idx: usize)
    requires
        idx / 8 < old(bits)@.len(),
    ensures
        final(bits)@.len() == old(bits)@.len(),
        forall|q: int|
            0 <= q < 8 * old(bits)@.len() ==> #[trigger] bit_set(final(bits)@, q) == (bit_set(
                old(bits)@,
                q,
            ) || q == idx),
{
    let byte = idx / 8;
    let off = (idx % 8) as u8;
    let v = bits[byte] | (1u8 << off);
    bits.set(byte, v);
    proof {
        let before = old(bits)@;
        assert forall|q: int| 0 <= q < 8 * before.len() implies #[trigger] bit_set(bits@, q) == (
        bit_set(before, q) || q == idx) by {
            reveal(bit_set);
            if q / 8 == byte as int {
                if q == idx {
                    lemma_or_sets_bit(before[byte as int], off);
                } else {
                    assert((q % 8) as u8 != off);
                    lemma_or_other_bit(before[byte as int], off, (q % 8) as u8);
                }
            } else {
                assert(bits@[q / 8] == before[q / 8]);
            }
        }
    }
}

/// In a bit array of `m` bits, each of the first `k` probes of `key` hits a set bit.
pub open spec fn probes_set(bits: Seq<u8>, m: usize, k: nat, key: Seq<u8>) -> bool {
    forall|i: u32| i < k ==> bit_set(bits, #[trigger] probe(key, i, m))
}

/// `m` bits held in whole bytes, with a number of hashes within bounds.
pub open spec fn filter_shape(m: usize, k: nat, bits: Seq<u8>) -> bool {
    m > 0 && bits.len() == (m - 1) / 8 + 1 && MIN_HASHES <= k <= MAX_HASHES
}

/// A Bloom filter over byte-string keys.
pub struct BloomFilter {
    bits: Vec<u8>,
    num_bits: usize,
    num_hashes: u32,
    count: usize,
    inserted: Ghost<Set<Seq<u8>>>,
}

impl BloomFilter {
    /// The bit array, eight bits to a byte.
    pub closed spec fn bit_array(&self) -> Seq<u8> {
        self.bits@
    }

    /// Every probe of `key` hits a set bit.
    pub open spec fn all_probes_set(&self, key: Seq<u8>) -> bool {
        probes_set(self.bit_array(), self.bits_spec() as usize, self.hashes_spec(), key)
    }

    /// Bit `j` is one that some probe of `key` hits.
    pub open spec fn probed_by(&self, key: Seq<u8>, j: int) -> bool {
        exists|i: u32| i < self.hashes_spec() && #[trigger] probe(key, i, self.bits_spec() as usize) == j
    }

    /// The keys inserted so far.
    pub closed spec fn inserted(&self) -> Set<Seq<u8>> {
        self.inserted@
    }

    /// Number of bits.
    pub closed spec fn bits_spec(&self) -> nat {
        self.num_bits as nat
    }

    /// Number of bits set per key.
    pub closed spec fn hashes_spec(&self) -> nat {
        self.num_hashes as nat
    }

    /// Number of keys inserted.
    pub closed spec fn count_spec(&self) -> nat {
        self.count as nat
    }

    /// The bit array has one bit per position, rounded up to whole bytes; the number of
    /// hashes is within bounds; every inserted key has all its bits set.
    pub closed spec fn wf(&self) -> bool {
        &&& self.num_bits > 0
        &&& self.bits@.len() == (self.num_bits - 1) / 8 + 1
        &&& MIN_HASHES <= self.num_hashes <= MAX_HASHES
        &&& forall|k: Seq<u8>| #[trigger] self.inserted@.contains(k) ==> self.all_probes_set(k)
    }

    /// An empty filter of `num_bits` bits that sets `num_hashes` bits per key,
    /// the latter clamped to `[2, 16]`.
    pub fn with_params(num_bits: usize, num_hashes: u32) -> (r: BloomFilter)
        requires
            num_bits > 0,
        ensures
            r.wf(),
            r.bits_spec() == num_bits,
            r.hashes_spec() == clamp(num_hashes, MIN_HASHES, MAX_HASHES),
            r.count_spec() == 0,
            r.inserted() == Set::<Seq<u8>>::empty(),
            forall|j: int| 0 <= j < num_bits ==> !#[trigger] bit_set(r.bit_array(), j),
    {
        let num_bytes = (num_bits - 1) / 8 + 1;
        let mut bits: Vec<u8> = Vec::new();
        while bits.len() < num_bytes
            invariant
                bits@.len() <= num_bytes,
                forall|q: int| 0 <= q < bits@.len() ==> #[trigger] bits@[q] == 0u8,
            decreases num_bytes - bits@.len(),
        {
            bits.push(0u8);
        }
        assert forall|j: int| 0 <= j < num_bits implies !#[trigger] bit_set(bits@, j) by {
            reveal(bit_set);
            let z = bits@[j / 8];
            let o = (j % 8) as u8;
            assert(z == 0u8);
            assert((z >> o) & 1u8 != 1u8) by (bit_vector)
                requires
                    z == 0u8,
            ;
        }
        let k = if num_hashes < MIN_HASHES {
            MIN_HASHES
        } else if num_hashes > MAX_HASHES {
            MAX_HASHES
        } else {
            num_hashes
        };
        BloomFilter { bits, num_bits, num_hashes: k, count: 0, inserted: Ghost(Set::empty()) }
    }

    /// The keyed hash of `key` under `seed`.
    fn hash_with_seed(key: &[u8], seed: u64) -> (r: u64)
        ensures
            r == seeded_hash(seed, key@),
    {
        let x = FNV_OFFSET ^ seed;
        let a = x ^ (x >> 33u64);
        let b = a.wrapping_mul(MIX_A);
        let c = b ^ (b >> 33u64);
        let d = c.wrapping_mul(MIX_B);
        let mut h: u64 = d ^ (d >> 33u64);
        let mut i: usize = 0;
        assert(key@.skip(0) =~= key@);
        while i < key.len()
            invariant
                i <= key@.len(),
                fnv_from(mix(FNV_OFFSET ^ seed), key@) == fnv_from(h, key@.skip(i as int)),
            decreases key@.len() - i,
        {
            assert(key@.skip(i as int).drop_first() =~= key@.skip(i + 1));
            h = (h ^ (key[i] as u64)).wrapping_mul(FNV_PRIME);
            i = i + 1;
        }
        assert(key@.skip(i as int).len() == 0);
        let a = h ^ (h >> 33u64);
        let b = a.wrapping_mul(MIX_A);
        let c = b ^ (b >> 33u64);
        let d = c.wrapping_mul(MIX_B);
        d ^ (d >> 33u64)
    }

    /// The `i`-th bit position of `key` in this filter.
    fn hash_index(&self, key: &[u8], i: u32) -> (r: usize)
        requires
            self.num_bits > 0,
        ensures
            r == probe(key@, i, self.num_bits),
            r < self.num_bits,
    {
        proof {
            reveal(probe);
        }
        let h1 = Self::hash_with_seed(key, SEED_PRIMARY);
        let h2 = Self::hash_with_seed(key, SEED_SECONDARY);
        let combined = h1.wrapping_add((i as u64).wrapping_mul(h2));
        (combined % (self.num_bits as u64)) as usize
    }

    /// Adds `key`: sets each of its bits.
    pub fn insert(&mut self, key: &[u8])
        requires
            old(self).wf(),
            old(self).count_spec() < usize::MAX,
        ensures
            final(self).wf(),
            final(self).inserted() == old(self).inserted().insert(key@),
            final(self).count_spec() == old(self).count_spec() + 1,
            final(self).bits_spec() == old(self).bits_spec(),
            final(self).hashes_spec() == old(self).hashes_spec(),
            forall|j: int|
                0 <= j < old(self).bits_spec() ==> #[trigger] bit_set(final(self).bit_array(), j) == (
                bit_set(old(self).bit_array(), j) || old(self).probed_by(key@, j)),
    {
        let ghost m = self.num_bits;
        let ghost orig = self.bits@;
        let mut i: u32 = 0;
        while i < self.num_hashes
            invariant
                i <= self.num_hashes,
                self.num_bits == m == old(self).num_bits,
                self.num_hashes == old(self).num_hashes,
                self.count == old(self).count,
                self.inserted@ == old(self).inserted@,
                orig == old(self).bits@,
                m > 0,
                self.bits@.len() == (m - 1) / 8 + 1,
                forall|q: int|
                    0 <= q < m ==> #[trigger] bit_set(self.bits@, q) == (bit_set(orig, q) || exists|
                        j: u32,
                    | j < i && #[trigger] probe(key@, j, m) == q),
            decreases self.num_hashes - i,
        {
            let idx = self.hash_index(key, i);
            let ghost before = self.bits@;
            set_bit(&mut self.bits, idx);
            proof {
                assert forall|q: int| 0 <= q < m implies #[trigger] bit_set(self.bits@, q) == (bit_set(
                    orig,
                    q,
                ) || exists|j: u32| j < i + 1 && #[trigger] probe(key@, j, m) == q) by {
                    assert(bit_set(self.bits@, q) == (bit_set(before, q) || q == idx));
                    if q == idx {
                        assert(probe(key@, i, m) == q);
                    }
                    if exists|j: u32| j < i + 1 && #[trigger] probe(key@, j, m) == q {
                        let j = choose|j: u32| j < i + 1 && #[trigger] probe(key@, j, m) == q;
                        if j < i {
                            assert(exists|j2: u32| j2 < i && #[trigger] probe(key@, j2, m) == q);
                        }
                    }
                }
            }
            i = i + 1;
        }
        self.count = self.count + 1;
        self.inserted = Ghost(self.inserted@.insert(key@));
        proof {
            assert forall|k: Seq<u8>| #[trigger] self.inserted@.contains(k) implies self.all_probes_set(
                k,
            ) by {
                assert forall|j: u32| j < self.hashes_spec() implies bit_set(
                    self.bit_array(),
                    #[trigger] probe(k, j, self.bits_spec() as usize),
                ) by {
                    let q = probe(k, j, m);
                    lemma_probe_in_range(k, j, m);
                    assert(self.bits_spec() as usize == m);
                    if k == key@ {
                        assert(probe(key@, j, m) == q);
                    } else {
                        assert(old(self).inserted@.contains(k));
                        assert(old(self).all_probes_set(k));
                        assert(old(self).bits_spec() as usize == m);
                        assert(bit_set(old(self).bit_array(), probe(k, j, old(self).bits_spec() as usize)));
                        assert(bit_set(orig, probe(k, j, m)));
                    }
                }
            }
            assert forall|q: int| 0 <= q < m implies #[trigger] bit_set(self.bit_array(), q) == (
            bit_set(orig, q) || old(self).probed_by(key@, q)) by {
                if bit_set(self.bits@, q) && !bit_set(orig, q) {
                    let j = choose|j: u32| j < i && #[trigger] probe(key@, j, m) == q;
                    assert(j < old(self).hashes_spec() && probe(key@, j, old(self).bits_spec() as usize) == q);
                }
                if old(self).probed_by(key@, q) {
                    let j = choose|j: u32| j < old(self).hashes_spec() && #[trigger] probe(key@, j, old(self).bits_spec() as usize) == q;
                    assert(j < i && probe(key@, j, m) == q);
                }
            }
        }
    }

    /// `false` only when `key` was surely never inserted.
    pub fn may_contain(&self, key: &[u8]) -> (r: bool)
        requires
            self.wf(),
        ensures
            r == self.all_probes_set(key@),
            self.inserted().contains(key@) ==> r,
    {
        let ghost m = self.num_bits;
        let mut i: u32 = 0;
        while i < self.num_hashes
            invariant
                i <= self.num_hashes,
                self.wf(),
                m == self.num_bits,
                m > 0,
                self.bits@.len() == (m - 1) / 8 + 1,
                forall|j: u32| j < i ==> bit_set(self.bits@, #[trigger] probe(key@, j, m)),
            decreases self.num_hashes - i,
        {
            let idx = self.hash_index(key, i);
            let byte = idx / 8;
            let off = (idx % 8) as u8;
            if self.bits[byte] & (1u8 << off) == 0 {
                proof {
                    let b = self.bits@[byte as int];
                    assert((b >> off) & 1u8 != 1u8) by (bit_vector)
                        requires
                            off < 8,
                            b & (1u8 << off) == 0,
                    ;
                    reveal(bit_set);
                    assert(!bit_set(self.bits@, probe(key@, i, m)));
                    assert(self.bits_spec() as usize == m);
                    assert(self.bit_array() == self.bits@);
                    assert(!bit_set(self.bit_array(), probe(key@, i, self.bits_spec() as usize)));
                    if self.inserted().contains(key@) {
                        assert(self.all_probes_set(key@));
                    }
                }
                return false;
            }
            proof {
                let b = self.bits@[byte as int];
                assert((b >> off) & 1u8 == 1u8) by (bit_vector)
                    requires
                        off < 8,
                        b & (1u8 << off) != 0,
                ;
                reveal(bit_set);
                assert(bit_set(self.bits@, probe(key@, i, m)));
            }
            i = i + 1;
        }
        proof {
            assert forall|j: u32| j < self.hashes_spec() implies bit_set(
                self.bit_array(),
                #[trigger] probe(key@, j, self.bits_spec() as usize),
            ) by {
                assert(bit_set(self.bits@, probe(key@, j, m)));
            }
        }
        true
    }

    /// A well-formed filter has its shape, and every inserted key has its bits set.
    pub proof fn lemma_shape(&self)
        requires
            self.wf(),
        ensures
            self.bits_spec() <= usize::MAX,
            self.hashes_spec() <= MAX_HASHES,
            filter_shape(self.bits_spec() as usize, self.hashes_spec(), self.bit_array()),
            forall|k: Seq<u8>| #[trigger] self.inserted().contains(k) ==> self.all_probes_set(k),
    {
    }

    /// The bit array.
    pub fn bit_bytes(&self) -> (r: &Vec<u8>)
        ensures
            r@ == self.bit_array(),
    {
        &self.bits
    }

    /// A filter over a stored bit array, with no key recorded as inserted yet.
    pub fn from_parts(num_bits: usize, num_hashes: u32, bits: Vec<u8>) -> (r: BloomFilter)
        requires
            filter_shape(num_bits, num_hashes as nat, bits@),
        ensures
            r.wf(),
            r.bits_spec() == num_bits,
            r.hashes_spec() == num_hashes,
            r.bit_array() == bits@,
            r.count_spec() == 0,
            r.inserted() == Set::<Seq<u8>>::empty(),
    {
        BloomFilter { bits, num_bits, num_hashes, count: 0, inserted: Ghost(Set::empty()) }
    }

    /// Records `key` as inserted where all its bits are already set; the bits stay
    /// as they are. Returns whether it did.
    pub fn accept_key(&mut self, key: &[u8]) -> (r: bool)
        requires
            old(self).wf(),
            old(self).count_spec() < usize::MAX,
        ensures
            final(self).wf(),
            r == old(self).all_probes_set(key@),
            final(self).bit_array() == old(self).bit_array(),
            final(self).bits_spec() == old(self).bits_spec(),
            final(self).hashes_spec() == old(self).hashes_spec(),
            final(self).inserted() == if r {
                old(self).inserted().insert(key@)
            } else {
                old(self).inserted()
            },
            final(self).count_spec() == old(self).count_spec() + if r {
                1int
            } else {
                0int
            },
    {
        if self.may_contain(key) {
            self.count = self.count + 1;
            self.inserted = Ghost(self.inserted@.insert(key@));
            true
        } else {
            false
        }
    }

    /// Number of keys inserted.
    pub fn count(&self) -> (r: usize)
        ensures
            r == self.count_spec(),
    {
        self.count
    }

    /// Number of bits.
    pub fn num_bits(&self) -> (r: usize)
        ensures
            r == self.bits_spec(),
    {
        self.num_bits
    }

    /// Number of bits set per key.
    pub fn num_hashes(&self) -> (r: u32)
        ensures
            r == self.hashes_spec(),
    {
        self.num_hashes
    }

    /// Bytes of the bit array: the bit count rounded up to whole bytes.
    pub fn memory_usage(&self) -> (r: usize)
        requires
            self.wf(),
        ensures
            r == (self.bits_spec() - 1) / 8 + 1,
    {
        self.bits.len()
    }
}

/// A key that was inserted into a filter is reported as maybe present, whatever
/// was inserted after it.
pub proof fn lemma_no_false_negatives(b: &BloomFilter, key: Seq<u8>)
    requires
        b.wf(),
        b.inserted().contains(key),
    ensures
        b.all_probes_set(key),
{
}

} // verus!
