//! Byte-string keys: their order, and sorted association lists keyed by them.
use core::cmp::Ordering;
use vstd::prelude::*;

verus! {

/// Strict lexicographic order on unsigned bytes; a proper prefix sorts first.
pub open spec fn key_lt(a: Seq<u8>, b: Seq<u8>) -> bool
    decreases a.len(),
{
    if a.len() == 0 {
        b.len() > 0
    } else if b.len() == 0 {
        false
    } else if a[0] != b[0] {
        a[0] < b[0]
    } else {
        key_lt(a.drop_first(), b.drop_first())
    }
}

/// Non-strict version of [`key_lt`].
pub open spec fn key_le(a: Seq<u8>, b: Seq<u8>) -> bool {
    a == b || key_lt(a, b)
}

pub proof fn lemma_key_lt_irreflexive(a: Seq<u8>)
    ensures
        !key_lt(a, a),
    decreases a.len(),
{
    if a.len() > 0 {
        lemma_key_lt_irreflexive(a.drop_first());
    }
}

pub proof fn lemma_key_lt_transitive(a: Seq<u8>, b: Seq<u8>, c: Seq<u8>)
    requires
        key_lt(a, b),
        key_lt(b, c),
    ensures
        key_lt(a, c),
    decreases a.len(),
{
    if a.len() > 0 && b.len() > 0 && c.len() > 0 && a[0] == b[0] && b[0] == c[0] {
        lemma_key_lt_transitive(a.drop_first(), b.drop_first(), c.drop_first());
    }
}

pub proof fn lemma_key_lt_asymmetric(a: Seq<u8>, b: Seq<u8>)
    requires
        key_lt(a, b),
    ensures
        !key_lt(b, a),
        a != b,
{
    lemma_key_lt_irreflexive(a);
    if key_lt(b, a) {
        lemma_key_lt_transitive(a, b, a);
    }
}

/// Three-way comparison of two keys in the order of [`key_lt`].
pub fn compare_keys(a: &[u8], b: &[u8]) -> (r: Ordering)
    ensures
        (r == Ordering::Less) == key_lt(a@, b@),
        (r == Ordering::Equal) == (a@ == b@),
        (r == Ordering::Greater) == key_lt(b@, a@),
{
    let mut i: usize = 0;
    assert(a@.skip(0) =~= a@);
    assert(b@.skip(0) =~= b@);
    while i < a.len() && i < b.len() && a[i] == b[i]
        invariant
            i <= a.len(),
            i <= b.len(),
            a@.subrange(0, i as int) == b@.subrange(0, i as int),
            key_lt(a@, b@) == key_lt(a@.skip(i as int), b@.skip(i as int)),
            key_lt(b@, a@) == key_lt(b@.skip(i as int), a@.skip(i as int)),
        decreases a.len() - i,
    {
        assert(a@.skip(i as int).drop_first() =~= a@.skip(i + 1));
        assert(b@.skip(i as int).drop_first() =~= b@.skip(i + 1));
        assert(a@.subrange(0, i + 1) =~= a@.subrange(0, i as int).push(a[i as int]));
        assert(b@.subrange(0, i + 1) =~= b@.subrange(0, i as int).push(b[i as int]));
        i = i + 1;
    }
    if i == a.len() && i == b.len() {
        assert(a@ =~= a@.subrange(0, i as int));
        assert(b@ =~= b@.subrange(0, i as int));
        assert(a@.skip(i as int) =~= Seq::<u8>::empty());
        assert(b@.skip(i as int) =~= Seq::<u8>::empty());
        Ordering::Equal
    } else if i == a.len() || (i < b.len() && a[i] < b[i]) {
        assert(a@.skip(i as int).len() == 0 || a@.skip(i as int)[0] == a[i as int]);
        assert(b@.skip(i as int)[0] == b[i as int]);
        proof {
            lemma_key_lt_asymmetric(a@, b@);
        }
        Ordering::Less
    } else {
        assert(b@.skip(i as int).len() == 0 || b@.skip(i as int)[0] == b[i as int]);
        assert(a@.skip(i as int)[0] == a[i as int]);
        proof {
            lemma_key_lt_asymmetric(b@, a@);
        }
        Ordering::Greater
    }
}

/// A list of `(key, value)` pairs whose keys ascend strictly.
pub open spec fn sorted_keys<W>(s: Seq<(Seq<u8>, W)>) -> bool {
    forall|i: int, j: int| #![trigger s[i], s[j]] 0 <= i < j < s.len() ==> key_lt(s[i].0, s[j].0)
}

/// Some pair of the list has key `k`.
pub open spec fn has_key<W>(s: Seq<(Seq<u8>, W)>, k: Seq<u8>) -> bool {
    exists|i: int| 0 <= i < s.len() && s[i].0 == k
}

/// A position of the list that holds key `k`.
pub open spec fn index_of<W>(s: Seq<(Seq<u8>, W)>, k: Seq<u8>) -> int {
    choose|i: int| 0 <= i < s.len() && s[i].0 == k
}

/// The map that an association list stands for.
pub open spec fn assoc_map<W>(s: Seq<(Seq<u8>, W)>) -> Map<Seq<u8>, W> {
    Map::new(|k: Seq<u8>| has_key(s, k), |k: Seq<u8>| s[index_of(s, k)].1)
}

/// `p` is where `k` would stand in the sorted list `s`.
pub open spec fn insertion_point<W>(s: Seq<(Seq<u8>, W)>, k: Seq<u8>, p: int) -> bool {
    &&& 0 <= p <= s.len()
    &&& forall|j: int| 0 <= j < p ==> key_lt(#[trigger] s[j].0, k)
    &&& forall|j: int| p <= j < s.len() ==> key_lt(k, #[trigger] s[j].0)
}

pub proof fn lemma_sorted_unique<W>(s: Seq<(Seq<u8>, W)>, i: int, j: int)
    requires
        sorted_keys(s),
        0 <= i < s.len(),
        0 <= j < s.len(),
        s[i].0 == s[j].0,
    ensures
        i == j,
{
    lemma_key_lt_irreflexive(s[i].0);
    if i < j {
        assert(key_lt(s[i].0, s[j].0));
    } else if j < i {
        assert(key_lt(s[j].0, s[i].0));
    }
}

/// In a sorted list the map holds, at each key of the list, the value beside it.
pub proof fn lemma_assoc_at<W>(s: Seq<(Seq<u8>, W)>, i: int)
    requires
        sorted_keys(s),
        0 <= i < s.len(),
    ensures
        assoc_map(s).contains_key(s[i].0),
        assoc_map(s)[s[i].0] == s[i].1,
{
    let k = s[i].0;
    assert(has_key(s, k));
    let j = index_of(s, k);
    lemma_sorted_unique(s, i, j);
}

/// A key with an insertion point is in no pair of the list.
pub proof fn lemma_assoc_absent<W>(s: Seq<(Seq<u8>, W)>, k: Seq<u8>, p: int)
    requires
        insertion_point(s, k, p),
    ensures
        !assoc_map(s).contains_key(k),
{
    lemma_key_lt_irreflexive(k);
    if has_key(s, k) {
        let j = index_of(s, k);
        if j < p {
            assert(key_lt(s[j].0, k));
        } else {
            assert(key_lt(k, s[j].0));
        }
    }
}

pub proof fn lemma_assoc_insert<W>(s: Seq<(Seq<u8>, W)>, k: Seq<u8>, w: W, p: int)
    requires
        sorted_keys(s),
        insertion_point(s, k, p),
    ensures
        sorted_keys(s.insert(p, (k, w))),
        assoc_map(s.insert(p, (k, w))) == assoc_map(s).insert(k, w),
{
    let t = s.insert(p, (k, w));
    assert forall|i: int, j: int| #![trigger t[i], t[j]] 0 <= i < j < t.len() implies key_lt(
        t[i].0,
        t[j].0,
    ) by {
        if j < p {
            assert(t[i] == s[i] && t[j] == s[j]);
        } else if j == p {
            assert(t[i] == s[i]);
        } else if i < p {
            assert(t[i] == s[i] && t[j] == s[j - 1]);
            lemma_key_lt_transitive(s[i].0, k, s[j - 1].0);
        } else if i == p {
            assert(t[j] == s[j - 1]);
        } else {
            assert(t[i] == s[i - 1] && t[j] == s[j - 1]);
        }
    }
    lemma_assoc_absent(s, k, p);
    assert forall|q: Seq<u8>| #[trigger] assoc_map(t).contains_key(q) == assoc_map(s).insert(
        k,
        w,
    ).contains_key(q) by {
        if has_key(t, q) {
            let j = index_of(t, q);
            if j < p {
                assert(s[j].0 == q);
            } else if j > p {
                assert(s[j - 1].0 == q);
            }
        }
        if has_key(s, q) {
            let j = index_of(s, q);
            if j < p {
                assert(t[j].0 == q);
            } else {
                assert(t[j + 1].0 == q);
            }
        }
        if q == k {
            assert(t[p].0 == q);
        }
    }
    assert forall|q: Seq<u8>| #[trigger] assoc_map(t).contains_key(q) implies assoc_map(t)[q]
        == assoc_map(s).insert(k, w)[q] by {
        let j = index_of(t, q);
        lemma_assoc_at(t, j);
        if j < p {
            assert(t[j] == s[j]);
            lemma_assoc_at(s, j);
        } else if j > p {
            assert(t[j] == s[j - 1]);
            lemma_assoc_at(s, j - 1);
        }
    }
    assert(assoc_map(t) =~= assoc_map(s).insert(k, w));
}

pub proof fn lemma_assoc_update<W>(s: Seq<(Seq<u8>, W)>, p: int, w: W)
    requires
        sorted_keys(s),
        0 <= p < s.len(),
    ensures
        sorted_keys(s.update(p, (s[p].0, w))),
        assoc_map(s.update(p, (s[p].0, w))) == assoc_map(s).insert(s[p].0, w),
{
    let k = s[p].0;
    let t = s.update(p, (k, w));
    assert forall|i: int, j: int| #![trigger t[i], t[j]] 0 <= i < j < t.len() implies key_lt(
        t[i].0,
        t[j].0,
    ) by {
        assert(t[i].0 == s[i].0 && t[j].0 == s[j].0);
    }
    assert forall|q: Seq<u8>| #[trigger] assoc_map(t).contains_key(q) == assoc_map(s).insert(
        k,
        w,
    ).contains_key(q) by {
        if has_key(t, q) {
            let j = index_of(t, q);
            assert(s[j].0 == q);
        }
        if has_key(s, q) {
            let j = index_of(s, q);
            assert(t[j].0 == q);
        }
    }
    assert forall|q: Seq<u8>| #[trigger] assoc_map(t).contains_key(q) implies assoc_map(t)[q]
        == assoc_map(s).insert(k, w)[q] by {
        let j = index_of(t, q);
        lemma_assoc_at(t, j);
        if j != p {
            lemma_assoc_at(s, j);
            if q == k {
                lemma_sorted_unique(s, j, p);
            }
        }
    }
    assert(assoc_map(t) =~= assoc_map(s).insert(k, w));
}

pub proof fn lemma_assoc_remove<W>(s: Seq<(Seq<u8>, W)>, p: int)
    requires
        sorted_keys(s),
        0 <= p < s.len(),
    ensures
        sorted_keys(s.remove(p)),
        assoc_map(s.remove(p)) == assoc_map(s).remove(s[p].0),
{
    let k = s[p].0;
    let t = s.remove(p);
    assert forall|i: int, j: int| #![trigger t[i], t[j]] 0 <= i < j < t.len() implies key_lt(
        t[i].0,
        t[j].0,
    ) by {
        if j < p {
            assert(t[i] == s[i] && t[j] == s[j]);
        } else if i < p {
            assert(t[i] == s[i] && t[j] == s[j + 1]);
        } else {
            assert(t[i] == s[i + 1] && t[j] == s[j + 1]);
        }
    }
    assert forall|q: Seq<u8>| #[trigger] assoc_map(t).contains_key(q) == assoc_map(s).remove(
        k,
    ).contains_key(q) by {
        if has_key(t, q) {
            let j = index_of(t, q);
            if j < p {
                assert(s[j].0 == q);
                if q == k {
                    lemma_sorted_unique(s, j, p);
                }
            } else {
                assert(s[j + 1].0 == q);
                if q == k {
                    lemma_sorted_unique(s, j + 1, p);
                }
            }
        }
        if has_key(s, q) && q != k {
            let j = index_of(s, q);
            if j < p {
                assert(t[j].0 == q);
            } else {
                assert(j != p);
                assert(t[j - 1].0 == q);
            }
        }
    }
    assert forall|q: Seq<u8>| #[trigger] assoc_map(t).contains_key(q) implies assoc_map(t)[q]
        == assoc_map(s).remove(k)[q] by {
        let j = index_of(t, q);
        lemma_assoc_at(t, j);
        if j < p {
            lemma_assoc_at(s, j);
        } else {
            lemma_assoc_at(s, j + 1);
        }
    }
    assert(assoc_map(t) =~= assoc_map(s).remove(k));
}

/// A sorted list has as many pairs as its map has keys.
pub proof fn lemma_assoc_len<W>(s: Seq<(Seq<u8>, W)>)
    requires
        sorted_keys(s),
    ensures
        assoc_map(s).len() == s.len(),
        assoc_map(s).dom().finite(),
{
    let ks = s.map_values(|p: (Seq<u8>, W)| p.0);
    assert forall|i: int, j: int| 0 <= i < ks.len() && 0 <= j < ks.len() && i != j implies ks[i]
        != ks[j] by {
        if ks[i] == ks[j] {
            lemma_sorted_unique(s, i, j);
        }
    }
    assert(ks.no_duplicates());
    assert forall|k: Seq<u8>| #[trigger] ks.to_set().contains(k) == assoc_map(s).dom().contains(
        k,
    ) by {
        if ks.to_set().contains(k) {
            let i = choose|i: int| 0 <= i < ks.len() && ks[i] == k;
            assert(s[i].0 == k);
        }
        if has_key(s, k) {
            let i = index_of(s, k);
            assert(ks[i] == k);
        }
    }
    assert(ks.to_set() =~= assoc_map(s).dom());
    ks.unique_seq_to_set();
}

/// Appending a key larger than all others adds it to the map.
pub proof fn lemma_assoc_push<W>(s: Seq<(Seq<u8>, W)>, k: Seq<u8>, w: W)
    requires
        sorted_keys(s),
        forall|j: int| 0 <= j < s.len() ==> key_lt(#[trigger] s[j].0, k),
    ensures
        sorted_keys(s.push((k, w))),
        assoc_map(s.push((k, w))) == assoc_map(s).insert(k, w),
{
    assert(s.insert(s.len() as int, (k, w)) =~= s.push((k, w)));
    lemma_assoc_insert(s, k, w, s.len() as int);
}

/// Binary search for `key` among entries whose keys ascend strictly:
/// `Ok` with its position, or `Err` with the position where it would stand.
pub fn locate<V>(entries: &Vec<(Vec<u8>, V)>, key: &[u8]) -> (r: Result<usize, usize>)
    requires
        forall|i: int, j: int|
            #![trigger entries@[i], entries@[j]]
            0 <= i < j < entries@.len() ==> key_lt(entries@[i].0@, entries@[j].0@),
    ensures
        match r {
            Ok(i) => i < entries@.len() && entries@[i as int].0@ == key@,
            Err(i) => {
                &&& i <= entries@.len()
                &&& forall|j: int| 0 <= j < i ==> key_lt(#[trigger] entries@[j].0@, key@)
                &&& forall|j: int| i <= j < entries@.len() ==> key_lt(key@, #[trigger] entries@[j].0@)
            },
        },
{
    let mut lo: usize = 0;
    let mut hi: usize = entries.len();
    while lo < hi
        invariant
            lo <= hi <= entries@.len(),
            forall|i: int, j: int|
                #![trigger entries@[i], entries@[j]]
                0 <= i < j < entries@.len() ==> key_lt(entries@[i].0@, entries@[j].0@),
            forall|j: int| 0 <= j < lo ==> key_lt(#[trigger] entries@[j].0@, key@),
            forall|j: int| hi <= j < entries@.len() ==> key_lt(key@, #[trigger] entries@[j].0@),
        decreases hi - lo,
    {
        let mid = lo + (hi - lo) / 2;
        match compare_keys(entries[mid].0.as_slice(), key) {
            Ordering::Less => {
                assert forall|j: int| 0 <= j < mid + 1 implies key_lt(
                    #[trigger] entries@[j].0@,
                    key@,
                ) by {
                    if j < mid {
                        lemma_key_lt_transitive(entries@[j].0@, entries@[mid as int].0@, key@);
                    }
                }
                lo = mid + 1;
            },
            Ordering::Equal => {
                return Ok(mid);
            },
            Ordering::Greater => {
                assert forall|j: int| mid <= j < entries@.len() implies key_lt(
                    key@,
                    #[trigger] entries@[j].0@,
                ) by {
                    if j > mid {
                        lemma_key_lt_transitive(key@, entries@[mid as int].0@, entries@[j].0@);
                    }
                }
                hi = mid;
            },
        }
    }
    Err(lo)
}

} // verus!
