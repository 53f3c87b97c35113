//! Size-tiered compaction: which tables to merge, and the merge itself.
use crate::keys::{assoc_map, compare_keys, key_le, sorted_keys};
use crate::memtable::{
    copy_bytes, listing_of, live_pairs, live_part, owned_view, pair_view, slot_view, store_slot,
};
use crate::types::{Key, Value};
use core::cmp::Ordering;
use std::path::PathBuf;
use vstd::prelude::*;

verus! {

/// Upper bound of tier 0, in bytes.
pub const BASE_TIER_BYTES: usize = 4194304;

/// Upper size bound of tier `t`: the base bound times `ratio` to the power `t`.
pub open spec fn tier_bound(ratio: nat, t: nat) -> nat
    decreases t,
{
    if t == 0 {
        BASE_TIER_BYTES as nat
    } else {
        tier_bound(ratio, (t - 1) as nat) * ratio
    }
}

/// `t` is the tier of a table of `size` bytes: the first whose bound holds it.
pub open spec fn is_tier(ratio: nat, size: nat, t: nat) -> bool {
    size <= tier_bound(ratio, t) && (t == 0 || size > tier_bound(ratio, (t - 1) as nat))
}

/// The tier of a table of `size` bytes.
pub open spec fn tier_of(ratio: nat, size: nat) -> nat {
    choose|t: nat| is_tier(ratio, size, t)
}

proof fn lemma_tier_bound_grows(ratio: nat, a: nat, b: nat)
    requires
        ratio >= 2,
        a < b,
    ensures
        tier_bound(ratio, a) < tier_bound(ratio, b),
    decreases b,
{
    let pb = tier_bound(ratio, (b - 1) as nat);
    assert(pb >= 1) by {
        lemma_tier_bound_positive(ratio, (b - 1) as nat);
    }
    assert(pb * ratio > pb) by (nonlinear_arith)
        requires
            pb >= 1,
            ratio >= 2,
    ;
    if a < b - 1 {
        lemma_tier_bound_grows(ratio, a, (b - 1) as nat);
    }
}

proof fn lemma_tier_bound_positive(ratio: nat, t: nat)
    requires
        ratio >= 2,
    ensures
        tier_bound(ratio, t) >= 1,
    decreases t,
{
    if t > 0 {
        lemma_tier_bound_positive(ratio, (t - 1) as nat);
        let p = tier_bound(ratio, (t - 1) as nat);
        assert(p * ratio >= 1) by (nonlinear_arith)
            requires
                p >= 1,
                ratio >= 2,
        ;
    }
}

proof fn lemma_tier_unique(ratio: nat, size: nat, t: nat)
    requires
        ratio >= 2,
        is_tier(ratio, size, t),
    ensures
        tier_of(ratio, size) == t,
{
    let u = tier_of(ratio, size);
    assert(is_tier(ratio, size, u));
    if u < t {
        if u < (t - 1) as nat {
            lemma_tier_bound_grows(ratio, u, (t - 1) as nat);
        }
    } else if t < u {
        if t < (u - 1) as nat {
            lemma_tier_bound_grows(ratio, t, (u - 1) as nat);
        }
    }
}

/// Metadata of an on-disk table.
#[derive(Debug, Clone)]
pub struct SStableInfo {
    /// The table's id.
    pub id: usize,
    /// Where the table's file lies.
    pub path: PathBuf,
    /// Approximate size in bytes.
    pub size: usize,
    /// Smallest key of the table.
    pub min_key: Key,
    /// Largest key of the table.
    pub max_key: Key,
}

impl SStableInfo {
    /// Whether the key ranges of the two tables meet.
    pub fn overlaps(&self, other: &SStableInfo) -> (r: bool)
        ensures
            r == (key_le(self.min_key@, other.max_key@) && key_le(other.min_key@, self.max_key@)),
    {
        let a = match compare_keys(self.min_key.as_slice(), other.max_key.as_slice()) {
            Ordering::Greater => false,
            _ => true,
        };
        let b = match compare_keys(other.min_key.as_slice(), self.max_key.as_slice()) {
            Ordering::Greater => false,
            _ => true,
        };
        a && b
    }
}

/// The sizes of a list of tables.
pub open spec fn sizes_of(tables: Seq<SStableInfo>) -> Seq<usize> {
    tables.map_values(|t: SStableInfo| t.size)
}

/// Positions, in ascending order, among the first `n` sizes, of those in tier `t`.
pub open spec fn tier_members(ratio: nat, sizes: Seq<usize>, t: nat, n: nat) -> Seq<usize>
    decreases n,
{
    if n == 0 {
        Seq::empty()
    } else {
        let prev = tier_members(ratio, sizes, t, (n - 1) as nat);
        if tier_of(ratio, sizes[n - 1] as nat) == t {
            prev.push((n - 1) as usize)
        } else {
            prev
        }
    }
}

/// Tier `t` holds at least one table and at least `threshold` of them.
pub open spec fn tier_full(ratio: nat, threshold: nat, sizes: Seq<usize>, t: nat) -> bool {
    let m = tier_members(ratio, sizes, t, sizes.len());
    m.len() > 0 && m.len() >= threshold
}

proof fn lemma_member_exists(ratio: nat, sizes: Seq<usize>, t: nat, n: nat)
    requires
        n <= sizes.len(),
        tier_members(ratio, sizes, t, n).len() > 0,
    ensures
        exists|j: int| 0 <= j < n && tier_of(ratio, sizes[j] as nat) == t,
    decreases n,
{
    if tier_of(ratio, sizes[n - 1] as nat) != t {
        lemma_member_exists(ratio, sizes, t, (n - 1) as nat);
    }
}

/// The model of a selection.
pub open spec fn picked_view(r: Option<Vec<usize>>) -> Option<Seq<usize>> {
    match r {
        Some(v) => Some(v@),
        None => None,
    }
}

/// A rule that picks which tables to merge.
pub trait CompactionStrategy {
    /// The selection that the rule makes among `tables`.
    spec fn picks(&self, tables: Seq<SStableInfo>, picked: Option<Seq<usize>>) -> bool;

    /// The ids of the tables to merge together; `None` for none.
    fn select_compaction(&self, sstables: &[SStableInfo]) -> (r: Option<Vec<usize>>)
        ensures
            self.picks(sstables@, picked_view(r)),
    ;

    /// The strategy's name.
    fn name(&self) -> &str;
}

/// Groups tables by size tier and merges a tier once it holds enough tables.
pub struct SizeTieredCompaction {
    threshold: usize,
    size_ratio: usize,
}

impl SizeTieredCompaction {
    #[verifier::type_invariant]
    spec fn ratio_grows(&self) -> bool {
        self.size_ratio >= 2
    }

    /// The number of tables that makes a tier due.
    pub closed spec fn threshold_spec(&self) -> nat {
        self.threshold as nat
    }

    /// The factor between the bounds of two neighbouring tiers.
    pub closed spec fn ratio_spec(&self) -> nat {
        self.size_ratio as nat
    }

    /// A strategy that merges a tier of `threshold` tables, the bounds of
    /// neighbouring tiers `size_ratio` apart.
    pub fn new(threshold: usize, size_ratio: usize) -> (r: SizeTieredCompaction)
        requires
            size_ratio >= 2,
        ensures
            r.threshold_spec() == threshold,
            r.ratio_spec() == size_ratio,
    {
        SizeTieredCompaction { threshold, size_ratio }
    }

    /// The tier of a table of `size` bytes.
    pub fn tier_for_size(&self, size: usize) -> (r: usize)
        ensures
            r == tier_of(self.ratio_spec(), size as nat),
    {
        proof {
            use_type_invariant(self);
        }
        let base = self.size_ratio as u128;
        let mut tier: usize = 0;
        let mut upper: u128 = BASE_TIER_BYTES as u128;
        proof {
            lemma_tier_bound_positive(base as nat, 0);
        }
        while size as u128 > upper
            invariant
                base == self.size_ratio,
                base >= 2,
                upper == tier_bound(base as nat, tier as nat),
                tier == 0 || size > tier_bound(base as nat, (tier - 1) as nat),
                tier_bound(base as nat, tier as nat) >= tier + 1,
            decreases if (size as int) > (upper as int) { (size as int) - (upper as int) } else { 0 },
        {
            let ghost t = tier;
            assert(upper * base <= u128::MAX) by (nonlinear_arith)
                requires
                    upper < size,
                    size <= usize::MAX,
                    base <= usize::MAX,
            ;
            proof {
                assert(upper * base >= upper + 1) by (nonlinear_arith)
                    requires
                        upper >= 1,
                        base >= 2,
                ;
            }
            let ghost prev = upper;
            upper = upper * base;
            tier = tier + 1;
            assert(upper >= prev + 1);
            assert(upper == tier_bound(base as nat, tier as nat));
        }
        proof {
            lemma_tier_unique(base as nat, size as nat, tier as nat);
        }
        tier
    }
}

/// The ids of the tables at the given positions, in that order.
pub open spec fn ids_at(tables: Seq<SStableInfo>, positions: Seq<usize>) -> Seq<usize> {
    positions.map_values(|p: usize| tables[p as int].id)
}

/// The selection of the size-tiered rule: the ids of the tables of the lowest tier
/// that is full, in input order, or `None` where no tier is.
pub open spec fn tier_selection(
    ratio: nat,
    threshold: nat,
    tables: Seq<SStableInfo>,
    picked: Option<Seq<usize>>,
) -> bool {
    match picked {
        Some(v) => exists|t: nat|
            {
                &&& tier_full(ratio, threshold, sizes_of(tables), t)
                &&& v == ids_at(tables, tier_members(ratio, sizes_of(tables), t, tables.len()))
                &&& forall|u: nat| u < t ==> !tier_full(ratio, threshold, sizes_of(tables), u)
            },
        None => forall|u: nat| !tier_full(ratio, threshold, sizes_of(tables), u),
    }
}

impl CompactionStrategy for SizeTieredCompaction {
    open spec fn picks(&self, tables: Seq<SStableInfo>, picked: Option<Seq<usize>>) -> bool {
        tier_selection(self.ratio_spec(), self.threshold_spec(), tables, picked)
    }

    fn select_compaction(&self, sstables: &[SStableInfo]) -> (r: Option<Vec<usize>>) {
        self.select_tier(sstables)
    }

    fn name(&self) -> &str {
        "SizeTieredCompaction"
    }
}

impl SizeTieredCompaction {
    /// The ids of the tables of the lowest tier that holds at least `threshold`
    /// tables (and at least one), in input order; `None` where no tier does.
    fn select_tier(&self, sstables: &[SStableInfo]) -> (r: Option<Vec<usize>>)
        ensures
            tier_selection(self.ratio_spec(), self.threshold_spec(), sstables@, picked_view(r)),
    {
        proof {
            use_type_invariant(self);
        }
        let ghost ratio = self.ratio_spec();
        let ghost sizes = sizes_of(sstables@);
        let n = sstables.len();
        let mut tiers: Vec<usize> = Vec::new();
        let mut i: usize = 0;
        while i < n
            invariant
                n == sstables@.len(),
                i <= n,
                ratio == self.ratio_spec(),
                ratio >= 2,
                sizes == sizes_of(sstables@),
                tiers@.len() == i,
                forall|j: int| 0 <= j < i ==> tiers@[j] == tier_of(ratio, #[trigger] sizes[j] as nat),
            decreases n - i,
        {
            let t = self.tier_for_size(sstables[i].size);
            tiers.push(t);
            i = i + 1;
        }
        // the lowest tier, among those present, that is full
        let mut best: Option<usize> = None;
        let mut i: usize = 0;
        while i < n
            invariant
                n == sstables@.len() == tiers@.len(),
                i <= n,
                ratio == self.ratio_spec(),
                sizes == sizes_of(sstables@),
                forall|j: int| 0 <= j < n ==> tiers@[j] == tier_of(ratio, #[trigger] sizes[j] as nat),
                match best {
                    Some(b) => tier_full(ratio, self.threshold_spec(), sizes, b as nat) && forall|
                        j: int,
                    |
                        0 <= j < i && tier_full(ratio, self.threshold_spec(), sizes, tiers@[j] as nat)
                            ==> b <= #[trigger] tiers@[j],
                    None => forall|j: int|
                        0 <= j < i ==> !tier_full(
                            ratio,
                            self.threshold_spec(),
                            sizes,
                            #[trigger] tiers@[j] as nat,
                        ),
                },
            decreases n - i,
        {
            let t = tiers[i];
            let count = Self::count_tier(&tiers, t);
            proof {
                self.lemma_positions_match(&tiers, sizes, t);
            }
            if count > 0 && count >= self.threshold {
                match best {
                    Some(b) => {
                        if t < b {
                            best = Some(t);
                        }
                    },
                    None => {
                        best = Some(t);
                    },
                }
            }
            i = i + 1;
        }
        match best {
            None => {
                proof {
                    assert forall|u: nat| !tier_full(ratio, self.threshold_spec(), sizes, u) by {
                        if tier_full(ratio, self.threshold_spec(), sizes, u) {
                            lemma_member_exists(ratio, sizes, u, sizes.len());
                            let j = choose|j: int|
                                0 <= j < sizes.len() && tier_of(ratio, sizes[j] as nat) == u;
                            assert(tiers@[j] == u);
                        }
                    }
                }
                None
            },
            Some(b) => {
                let members = Self::collect_tier(&tiers, b);
                let mut ids: Vec<usize> = Vec::new();
                let mut j: usize = 0;
                while j < members.len()
                    invariant
                        j <= members@.len(),
                        n == sstables@.len() == tiers@.len(),
                        forall|q: int| 0 <= q < members@.len() ==> #[trigger] members@[q] < n,
                        ids@ == ids_at(sstables@, members@.take(j as int)),
                    decreases members@.len() - j,
                {
                    ids.push(sstables[members[j]].id);
                    assert(members@.take(j + 1) =~= members@.take(j as int).push(members@[j as int]));
                    assert(ids_at(sstables@, members@.take(j + 1)) =~= ids_at(
                        sstables@,
                        members@.take(j as int),
                    ).push(sstables@[members@[j as int] as int].id));
                    j = j + 1;
                }
                assert(members@.take(j as int) =~= members@);
                proof {
                    self.lemma_positions_match(&tiers, sizes, b);
                    assert forall|u: nat| u < b implies !tier_full(
                        ratio,
                        self.threshold_spec(),
                        sizes,
                        u,
                    ) by {
                        if tier_full(ratio, self.threshold_spec(), sizes, u) {
                            lemma_member_exists(ratio, sizes, u, sizes.len());
                            let j = choose|j: int|
                                0 <= j < sizes.len() && tier_of(ratio, sizes[j] as nat) == u;
                            assert(tiers@[j] == u);
                        }
                    }
                }
                Some(ids)
            },
        }
    }

    /// Positions, in ascending order among the first `n`, whose tier is `t`.
    closed spec fn tier_positions(tiers: Seq<usize>, t: usize, n: nat) -> Seq<usize>
        decreases n,
    {
        if n == 0 {
            Seq::empty()
        } else {
            let prev = Self::tier_positions(tiers, t, (n - 1) as nat);
            if tiers[n - 1] == t {
                prev.push((n - 1) as usize)
            } else {
                prev
            }
        }
    }

    proof fn lemma_positions_are_members(
        &self,
        tiers: Seq<usize>,
        sizes: Seq<usize>,
        t: usize,
        n: nat,
    )
        requires
            n <= tiers.len() == sizes.len(),
            forall|j: int|
                0 <= j < tiers.len() ==> tiers[j] == tier_of(self.ratio_spec(), #[trigger] sizes[j] as nat),
        ensures
            Self::tier_positions(tiers, t, n) == tier_members(self.ratio_spec(), sizes, t as nat, n),
        decreases n,
    {
        if n > 0 {
            self.lemma_positions_are_members(tiers, sizes, t, (n - 1) as nat);
            assert(tiers[n - 1] == tier_of(self.ratio_spec(), sizes[n - 1] as nat));
        }
    }

    proof fn lemma_positions_match(&self, tiers: &Vec<usize>, sizes: Seq<usize>, t: usize)
        requires
            tiers@.len() == sizes.len(),
            forall|j: int|
                0 <= j < tiers@.len() ==> tiers@[j] == tier_of(self.ratio_spec(), #[trigger] sizes[j] as nat),
        ensures
            Self::tier_positions(tiers@, t, tiers@.len()) == tier_members(
                self.ratio_spec(),
                sizes,
                t as nat,
                sizes.len(),
            ),
    {
        self.lemma_positions_are_members(tiers@, sizes, t, tiers@.len());
    }

    fn count_tier(tiers: &Vec<usize>, t: usize) -> (r: usize)
        ensures
            r == Self::tier_positions(tiers@, t, tiers@.len()).len(),
    {
        let mut count: usize = 0;
        let mut i: usize = 0;
        while i < tiers.len()
            invariant
                i <= tiers@.len(),
                count == Self::tier_positions(tiers@, t, i as nat).len(),
                count <= i,
            decreases tiers@.len() - i,
        {
            if tiers[i] == t {
                count = count + 1;
            }
            i = i + 1;
        }
        count
    }

    fn collect_tier(tiers: &Vec<usize>, t: usize) -> (r: Vec<usize>)
        ensures
            r@ == Self::tier_positions(tiers@, t, tiers@.len()),
            forall|q: int| 0 <= q < r@.len() ==> #[trigger] r@[q] < tiers@.len(),
    {
        let mut out: Vec<usize> = Vec::new();
        let mut i: usize = 0;
        while i < tiers.len()
            invariant
                i <= tiers@.len(),
                out@ == Self::tier_positions(tiers@, t, i as nat),
                forall|q: int| 0 <= q < out@.len() ==> #[trigger] out@[q] < i,
            decreases tiers@.len() - i,
        {
            if tiers[i] == t {
                out.push(i);
            }
            i = i + 1;
        }
        out
    }
}

/// A map after the pairs of one table, in order; a later pair overrides an earlier one.
pub open spec fn fold_pairs(
    t: Map<Seq<u8>, Option<Seq<u8>>>,
    s: Seq<(Seq<u8>, Option<Seq<u8>>)>,
) -> Map<Seq<u8>, Option<Seq<u8>>>
    decreases s.len(),
{
    if s.len() == 0 {
        t
    } else {
        fold_pairs(t.insert(s[0].0, s[0].1), s.drop_first())
    }
}

/// A map after tables given oldest first: the newest entry of each key wins.
pub open spec fn fold_tables(
    t: Map<Seq<u8>, Option<Seq<u8>>>,
    ts: Seq<Seq<(Seq<u8>, Option<Seq<u8>>)>>,
) -> Map<Seq<u8>, Option<Seq<u8>>>
    decreases ts.len(),
{
    if ts.len() == 0 {
        t
    } else {
        fold_tables(fold_pairs(t, ts[0]), ts.drop_first())
    }
}

/// The model of a list of tables.
pub open spec fn tables_view(ts: Seq<Vec<(Key, Option<Value>)>>) -> Seq<
    Seq<(Seq<u8>, Option<Seq<u8>>)>,
> {
    ts.map_values(|t: Vec<(Key, Option<Value>)>| listing_of(t@))
}

/// Folds the pairs of `table`, in order, into a sorted list.
fn fold_into(acc: &mut Vec<(Vec<u8>, Option<Vec<u8>>)>, table: &Vec<(Key, Option<Value>)>)
    requires
        sorted_keys(listing_of(old(acc)@)),
    ensures
        sorted_keys(listing_of(final(acc)@)),
        assoc_map(listing_of(final(acc)@)) == fold_pairs(
            assoc_map(listing_of(old(acc)@)),
            listing_of(table@),
        ),
{
    let ghost s = listing_of(table@);
    let ghost start = assoc_map(listing_of(acc@));
    let mut i: usize = 0;
    assert(s.skip(0) =~= s);
    while i < table.len()
        invariant
            i <= table@.len(),
            s == listing_of(table@),
            sorted_keys(listing_of(acc@)),
            fold_pairs(start, s) == fold_pairs(assoc_map(listing_of(acc@)), s.skip(i as int)),
        decreases table@.len() - i,
    {
        let ghost before = assoc_map(listing_of(acc@));
        let k = copy_bytes(&table[i].0);
        let v = match &table[i].1 {
            Some(x) => Some(copy_bytes(x)),
            None => None,
        };
        assert(s[i as int] == pair_view(table@[i as int]));
        assert(slot_view(v) == s[i as int].1);
        store_slot(acc, k, v);
        assert(s.skip(i as int).drop_first() =~= s.skip(i + 1));
        assert(s.skip(i as int)[0] == s[i as int]);
        i = i + 1;
    }
}

/// Merges tables given oldest first: of each key the newest entry wins, keys whose
/// newest entry is a tombstone are dropped, and the result comes in key order.
pub fn compact_sstables(sstables: Vec<Vec<(Key, Option<Value>)>>) -> (r: Vec<(Key, Value)>)
    ensures
        sorted_keys(owned_view(r@)),
        assoc_map(owned_view(r@)) == live_part(
            fold_tables(Map::empty(), tables_view(sstables@)),
        ),
{
    let ghost tv = tables_view(sstables@);
    let mut acc: Vec<(Vec<u8>, Option<Vec<u8>>)> = Vec::new();
    assert(listing_of(acc@) =~= Seq::<(Seq<u8>, Option<Seq<u8>>)>::empty());
    assert(assoc_map(listing_of(acc@)) =~= Map::<Seq<u8>, Option<Seq<u8>>>::empty());
    assert(tv.skip(0) =~= tv);
    let mut i: usize = 0;
    while i < sstables.len()
        invariant
            i <= sstables@.len(),
            tv == tables_view(sstables@),
            sorted_keys(listing_of(acc@)),
            fold_tables(Map::empty(), tv) == fold_tables(
                assoc_map(listing_of(acc@)),
                tv.skip(i as int),
            ),
        decreases sstables@.len() - i,
    {
        fold_into(&mut acc, &sstables[i]);
        assert(tv.skip(i as int).drop_first() =~= tv.skip(i + 1));
        assert(tv.skip(i as int)[0] == listing_of(sstables@[i as int]@));
        i = i + 1;
    }
    live_pairs(&acc)
}

} // verus!
