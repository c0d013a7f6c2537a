//! An in-memory key-value storage for tests of contracts: byte keys map to
//! byte values, reads and writes report their gas cost, and keys can be
//! iterated in ascending or descending byte order over a half-open range.
use crate::key_order::{
    compare_bytes, lemma_lex_irreflexive, lemma_lex_strict_total_order, lex_le, lex_lt, Comparison,
};
use vstd::prelude::*;

verus! {

/// A key and its value, as handed out by an iteration.
pub type KV = (Vec<u8>, Vec<u8>);

/// Direction in which a range of keys is iterated.
#[derive(Clone, Copy, Debug, PartialEq, Eq, Structural)]
pub enum Order {
    Ascending,
    Descending,
}

/// One end of a range of keys.
#[derive(Debug)]
pub enum Bound {
    Included(Vec<u8>),
    Excluded(Vec<u8>),
    Unbounded,
}

/// The entries of a storage as a sequence of (key, value) pairs.
pub open spec fn pairs_of(v: Seq<KV>) -> Seq<(Seq<u8>, Seq<u8>)> {
    v.map_values(|e: KV| (e.0@, e.1@))
}

/// Keys strictly increase along the sequence (so no key occurs twice).
pub open spec fn key_sorted(s: Seq<(Seq<u8>, Seq<u8>)>) -> bool {
    forall|i: int, j: int| 0 <= i < j < s.len() ==> lex_lt(#[trigger] s[i].0, #[trigger] s[j].0)
}

/// Keys strictly decrease along the sequence.
pub open spec fn key_sorted_desc(s: Seq<(Seq<u8>, Seq<u8>)>) -> bool {
    forall|i: int, j: int| 0 <= i < j < s.len() ==> lex_lt(#[trigger] s[j].0, #[trigger] s[i].0)
}

/// The map that a sequence of (key, value) pairs with distinct keys stands for.
pub open spec fn pairs_to_map(s: Seq<(Seq<u8>, Seq<u8>)>) -> Map<Seq<u8>, Seq<u8>> {
    Map::new(
        |k: Seq<u8>| exists|i: int| 0 <= i < s.len() && #[trigger] s[i].0 == k,
        |k: Seq<u8>| s[choose|i: int| 0 <= i < s.len() && #[trigger] s[i].0 == k].1,
    )
}

/// What a lookup of `k` in `m` gives.
pub open spec fn spec_get(m: Map<Seq<u8>, Seq<u8>>, k: Seq<u8>) -> Option<Seq<u8>> {
    if m.contains_key(k) {
        Some(m[k])
    } else {
        None
    }
}

pub open spec fn opt_bytes_view(o: Option<Vec<u8>>) -> Option<Seq<u8>> {
    match o {
        Some(v) => Some(v@),
        None => None,
    }
}

pub open spec fn opt_slice_view(o: Option<&[u8]>) -> Option<Seq<u8>> {
    match o {
        Some(v) => Some(v@),
        None => None,
    }
}

/// `k` lies on or above the lower end `b` of a range.
pub open spec fn above_lower(b: Bound, k: Seq<u8>) -> bool {
    match b {
        Bound::Included(s) => lex_le(s@, k),
        Bound::Excluded(s) => lex_lt(s@, k),
        Bound::Unbounded => true,
    }
}

/// `k` lies on or below the upper end `b` of a range.
pub open spec fn below_upper(b: Bound, k: Seq<u8>) -> bool {
    match b {
        Bound::Included(e) => lex_le(k, e@),
        Bound::Excluded(e) => lex_lt(k, e@),
        Bound::Unbounded => true,
    }
}

/// `k` lies in the half-open range from `start` (included) to `end`
/// (excluded); a missing end leaves that side open.
pub open spec fn in_key_range(k: Seq<u8>, start: Option<Seq<u8>>, end: Option<Seq<u8>>) -> bool {
    &&& match start {
        Some(s) => lex_le(s, k),
        None => true,
    }
    &&& match end {
        Some(e) => lex_lt(k, e),
        None => true,
    }
}

/// `items` holds exactly the entries of `m` whose keys lie in the range,
/// with their values.
pub open spec fn range_contents(
    m: Map<Seq<u8>, Seq<u8>>,
    start: Option<Seq<u8>>,
    end: Option<Seq<u8>>,
    items: Seq<(Seq<u8>, Seq<u8>)>,
) -> bool {
    &&& forall|i: int|
        0 <= i < items.len() ==> {
            &&& in_key_range(#[trigger] items[i].0, start, end)
            &&& m.contains_key(items[i].0)
            &&& m[items[i].0] == items[i].1
        }
    &&& forall|k: Seq<u8>|
        #[trigger] m.contains_key(k) && in_key_range(k, start, end) ==> exists|i: int|
            0 <= i < items.len() && #[trigger] items[i].0 == k
}

/// `items` is what iterating the range of `m` in `order` yields: every entry
/// in the range once, keys ascending or descending.
pub open spec fn range_result(
    m: Map<Seq<u8>, Seq<u8>>,
    start: Option<Seq<u8>>,
    end: Option<Seq<u8>>,
    order: Order,
    items: Seq<(Seq<u8>, Seq<u8>)>,
) -> bool {
    &&& range_contents(m, start, end, items)
    &&& match order {
        Order::Ascending => key_sorted(items),
        Order::Descending => key_sorted_desc(items),
    }
}

/// The (key, value) pairs of the items that an iteration hands out.
pub open spec fn items_view(items: Seq<(KV, u64)>) -> Seq<(Seq<u8>, Seq<u8>)> {
    items.map_values(|it: (KV, u64)| (it.0.0@, it.0.1@))
}

/// Each item carries the gas cost of reading it: its key's length plus its
/// value's length.
pub open spec fn items_gas_ok(items: Seq<(KV, u64)>) -> bool {
    forall|i: int|
        0 <= i < items.len() ==> #[trigger] items[i].1 == items[i].0.0@.len()
            + items[i].0.1@.len()
}

/// A storage of byte values under byte keys, kept in key order.
#[derive(Debug)]
pub struct MockStorage {
    entries: Vec<KV>,
}

impl View for MockStorage {
    type V = Map<Seq<u8>, Seq<u8>>;

    closed spec fn view(&self) -> Map<Seq<u8>, Seq<u8>> {
        pairs_to_map(pairs_of(self.entries@))
    }
}

proof fn lemma_map_at(s: Seq<(Seq<u8>, Seq<u8>)>, i: int)
    requires
        key_sorted(s),
        0 <= i < s.len(),
    ensures
        pairs_to_map(s).contains_key(s[i].0),
        pairs_to_map(s)[s[i].0] == s[i].1,
{
    let k = s[i].0;
    assert(exists|j: int| 0 <= j < s.len() && #[trigger] s[j].0 == k);
    let j = choose|j: int| 0 <= j < s.len() && #[trigger] s[j].0 == k;
    lemma_lex_irreflexive(k);
    if j < i {
        assert(lex_lt(s[j].0, s[i].0));
    } else if i < j {
        assert(lex_lt(s[i].0, s[j].0));
    }
}

proof fn lemma_map_absent(s: Seq<(Seq<u8>, Seq<u8>)>, k: Seq<u8>)
    requires
        forall|i: int| 0 <= i < s.len() ==> #[trigger] s[i].0 != k,
    ensures
        !pairs_to_map(s).contains_key(k),
{
}

/// A key-sorted sequence stands for `m` when its pairs are those of `m`.
proof fn lemma_map_equiv(s: Seq<(Seq<u8>, Seq<u8>)>, m: Map<Seq<u8>, Seq<u8>>)
    requires
        key_sorted(s),
        forall|i: int|
            0 <= i < s.len() ==> #[trigger] m.contains_key(s[i].0) && m[s[i].0] == s[i].1,
        forall|k: Seq<u8>|
            #[trigger] m.contains_key(k) ==> exists|i: int| 0 <= i < s.len() && #[trigger] s[i].0 == k,
    ensures
        pairs_to_map(s) =~= m,
{
    assert forall|k: Seq<u8>| #[trigger] m.contains_key(k) implies pairs_to_map(s).contains_key(k)
        && pairs_to_map(s)[k] == m[k] by {
        let i = choose|i: int| 0 <= i < s.len() && #[trigger] s[i].0 == k;
        lemma_map_at(s, i);
    }
    assert forall|k: Seq<u8>| #[trigger] pairs_to_map(s).contains_key(k) implies m.contains_key(
        k,
    ) by {
        let i = choose|i: int| 0 <= i < s.len() && #[trigger] s[i].0 == k;
        assert(m.contains_key(s[i].0));
    }
}

/// Copies a byte slice into a new vector.
fn copy_bytes(s: &[u8]) -> (v: Vec<u8>)
    ensures
        v@ == s@,
{
    let mut v: Vec<u8> = Vec::new();
    let mut i: usize = 0;
    while i < s.len()
        invariant
            i <= s@.len(),
            v@ == s@.subrange(0, i as int),
        decreases s@.len() - i,
    {
        v.push(s[i]);
        i = i + 1;
        proof {
            assert(v@ =~= s@.subrange(0, i as int));
        }
    }
    proof {
        assert(v@ =~= s@);
    }
    v
}

/// The position at which `key` stands, or would be inserted, in a key-sorted
/// list of entries.
fn find_position(entries: &Vec<KV>, key: &[u8]) -> (p: usize)
    requires
        key_sorted(pairs_of(entries@)),
    ensures
        p <= entries@.len(),
        forall|i: int| 0 <= i < p ==> lex_lt(#[trigger] pairs_of(entries@)[i].0, key@),
        forall|i: int| p <= i < entries@.len() ==> lex_le(key@, #[trigger] pairs_of(entries@)[i].0),
{
    let ghost s = pairs_of(entries@);
    proof {
        lemma_lex_strict_total_order();
    }
    let mut lo: usize = 0;
    let mut hi: usize = entries.len();
    while lo < hi
        invariant
            s == pairs_of(entries@),
            key_sorted(s),
            lo <= hi <= entries@.len(),
            forall|i: int| 0 <= i < lo ==> lex_lt(#[trigger] s[i].0, key@),
            forall|i: int| hi <= i < entries@.len() ==> lex_le(key@, #[trigger] s[i].0),
        decreases hi - lo,
    {
        let mid = lo + (hi - lo) / 2;
        let c = compare_bytes(entries[mid].0.as_slice(), key);
        proof {
            lemma_lex_strict_total_order();
            assert(s[mid as int].0 == entries@[mid as int].0@);
        }
        match c {
            Comparison::Less => {
                proof {
                    assert forall|i: int| 0 <= i < mid + 1 implies lex_lt(#[trigger] s[i].0, key@) by {
                        if i < mid {
                            assert(lex_lt(s[i].0, s[mid as int].0));
                        }
                    }
                }
                lo = mid + 1;
            },
            _ => {
                proof {
                    assert forall|i: int| mid <= i < entries@.len() implies lex_le(
                        key@,
                        #[trigger] s[i].0,
                    ) by {
                        if i > mid {
                            assert(lex_lt(s[mid as int].0, s[i].0));
                        }
                    }
                }
                hi = mid;
            },
        }
    }
    lo
}

/// The two ends of the range that an iteration covers: from `start`
/// (included) to `end` (excluded); a missing end leaves that side open.
pub fn range_bounds(start: Option<&[u8]>, end: Option<&[u8]>) -> (bounds: (Bound, Bound))
    ensures
        match start {
            Some(s) => bounds.0 matches Bound::Included(v) && v@ == s@,
            None => bounds.0 is Unbounded,
        },
        match end {
            Some(e) => bounds.1 matches Bound::Excluded(v) && v@ == e@,
            None => bounds.1 is Unbounded,
        },
{
    let lower = match start {
        Some(s) => Bound::Included(copy_bytes(s)),
        None => Bound::Unbounded,
    };
    let upper = match end {
        Some(e) => Bound::Excluded(copy_bytes(e)),
        None => Bound::Unbounded,
    };
    (lower, upper)
}

fn admits_lower(b: &Bound, k: &[u8]) -> (r: bool)
    ensures
        r == above_lower(*b, k@),
{
    match b {
        Bound::Included(s) => !matches!(compare_bytes(s.as_slice(), k), Comparison::Greater),
        Bound::Excluded(s) => matches!(compare_bytes(s.as_slice(), k), Comparison::Less),
        Bound::Unbounded => true,
    }
}

fn admits_upper(b: &Bound, k: &[u8]) -> (r: bool)
    ensures
        r == below_upper(*b, k@),
{
    match b {
        Bound::Included(e) => !matches!(compare_bytes(k, e.as_slice()), Comparison::Greater),
        Bound::Excluded(e) => matches!(compare_bytes(k, e.as_slice()), Comparison::Less),
        Bound::Unbounded => true,
    }
}

/// Reverses a list of items.
fn reverse_items(v: Vec<(KV, u64)>) -> (r: Vec<(KV, u64)>)
    ensures
        r@ == v@.reverse(),
{
    let ghost orig = v@;
    let mut v = v;
    let mut r: Vec<(KV, u64)> = Vec::new();
    while v.len() > 0
        invariant
            v@.len() <= orig.len(),
            v@ == orig.subrange(0, v@.len() as int),
            r@.len() == orig.len() - v@.len(),
            forall|i: int| 0 <= i < r@.len() ==> #[trigger] r@[i] == orig[orig.len() - 1 - i],
        decreases v@.len(),
    {
        let x = v.pop().unwrap();
        r.push(x);
        proof {
            assert(v@ =~= orig.subrange(0, v@.len() as int));
        }
    }
    proof {
        assert(r@ =~= orig.reverse());
    }
    r
}

/// Each entry's key and value lengths add up to a `usize`.
pub open spec fn entry_sizes_ok(v: Seq<KV>) -> bool {
    forall|i: int| 0 <= i < v.len() ==> #[trigger] v[i].0@.len() + v[i].1@.len() <= usize::MAX
}

proof fn lemma_sizes_update(v: Seq<KV>, p: int, kv: KV)
    requires
        entry_sizes_ok(v),
        0 <= p < v.len(),
        kv.0@.len() + kv.1@.len() <= usize::MAX,
    ensures
        entry_sizes_ok(v.update(p, kv)),
{
    let w = v.update(p, kv);
    assert forall|i: int| 0 <= i < w.len() implies #[trigger] w[i].0@.len() + w[i].1@.len()
        <= usize::MAX by {
        if i != p {
            assert(w[i] == v[i]);
        }
    }
}

proof fn lemma_sizes_insert(v: Seq<KV>, p: int, kv: KV)
    requires
        entry_sizes_ok(v),
        0 <= p <= v.len(),
        kv.0@.len() + kv.1@.len() <= usize::MAX,
    ensures
        entry_sizes_ok(v.insert(p, kv)),
{
    let w = v.insert(p, kv);
    assert forall|i: int| 0 <= i < w.len() implies #[trigger] w[i].0@.len() + w[i].1@.len()
        <= usize::MAX by {
        if i < p {
            assert(w[i] == v[i]);
        } else if i > p {
            assert(w[i] == v[i - 1]);
        }
    }
}

proof fn lemma_sizes_remove(v: Seq<KV>, p: int)
    requires
        entry_sizes_ok(v),
        0 <= p < v.len(),
    ensures
        entry_sizes_ok(v.remove(p)),
{
    let w = v.remove(p);
    assert forall|i: int| 0 <= i < w.len() implies #[trigger] w[i].0@.len() + w[i].1@.len()
        <= usize::MAX by {
        if i >= p {
            assert(w[i] == v[i + 1]);
        }
    }
}

/// Replacing the value of an entry stores the new value under its key.
proof fn lemma_replace_value(s: Seq<(Seq<u8>, Seq<u8>)>, p: int, key: Seq<u8>, value: Seq<u8>)
    requires
        key_sorted(s),
        0 <= p < s.len(),
        s[p].0 == key,
    ensures
        key_sorted(s.update(p, (key, value))),
        pairs_to_map(s.update(p, (key, value))) == pairs_to_map(s).insert(key, value),
{
    lemma_lex_strict_total_order();
    let t = s.update(p, (key, value));
    let target = pairs_to_map(s).insert(key, value);
    assert forall|i: int| 0 <= i < t.len() implies #[trigger] t[i].0 == s[i].0 by {}
    assert forall|i: int| 0 <= i < t.len() implies #[trigger] target.contains_key(t[i].0)
        && target[t[i].0] == t[i].1 by {
        if i != p {
            lemma_map_at(s, i);
            if i < p {
                assert(lex_lt(s[i].0, s[p].0));
            } else {
                assert(lex_lt(s[p].0, s[i].0));
            }
        }
    }
    assert forall|k: Seq<u8>| #[trigger] target.contains_key(k) implies exists|i: int|
        0 <= i < t.len() && #[trigger] t[i].0 == k by {
        if k == key {
            assert(t[p].0 == k);
        } else {
            let i = choose|i: int| 0 <= i < s.len() && #[trigger] s[i].0 == k;
            assert(t[i].0 == k);
        }
    }
    lemma_map_equiv(t, target);
}

/// Inserting a new key at its place in key order stores its value and
/// keeps the order.
proof fn lemma_insert_key(s: Seq<(Seq<u8>, Seq<u8>)>, p: int, key: Seq<u8>, value: Seq<u8>)
    requires
        key_sorted(s),
        0 <= p <= s.len(),
        forall|i: int| 0 <= i < p ==> lex_lt(#[trigger] s[i].0, key),
        forall|i: int| p <= i < s.len() ==> lex_le(key, #[trigger] s[i].0),
        p < s.len() ==> s[p].0 != key,
    ensures
        key_sorted(s.insert(p, (key, value))),
        pairs_to_map(s.insert(p, (key, value))) == pairs_to_map(s).insert(key, value),
{
    lemma_lex_strict_total_order();
    let t = s.insert(p, (key, value));
    let target = pairs_to_map(s).insert(key, value);
    assert forall|i: int| p < i < t.len() implies lex_lt(key, #[trigger] t[i].0) by {
        assert(t[i] == s[i - 1]);
        assert(lex_le(key, s[p].0));
        if i - 1 > p {
            assert(lex_lt(s[p].0, s[i - 1].0));
        }
    }
    assert forall|i: int, j: int| 0 <= i < j < t.len() implies lex_lt(
        #[trigger] t[i].0,
        #[trigger] t[j].0,
    ) by {
        if j < p {
        } else if j == p {
        } else if i < p {
            assert(lex_lt(t[i].0, key));
        } else if i == p {
        } else {
            assert(t[i] == s[i - 1]);
            assert(t[j] == s[j - 1]);
        }
    }
    assert forall|i: int| 0 <= i < s.len() implies #[trigger] s[i].0 != key by {
        if i > p {
            assert(lex_lt(s[p].0, s[i].0));
        }
    }
    assert forall|i: int| 0 <= i < t.len() implies #[trigger] target.contains_key(t[i].0)
        && target[t[i].0] == t[i].1 by {
        if i < p {
            lemma_map_at(s, i);
            assert(t[i] == s[i]);
        } else if i > p {
            lemma_map_at(s, i - 1);
            assert(t[i] == s[i - 1]);
        }
    }
    assert forall|k: Seq<u8>| #[trigger] target.contains_key(k) implies exists|i: int|
        0 <= i < t.len() && #[trigger] t[i].0 == k by {
        if k == key {
            assert(t[p].0 == k);
        } else {
            let i = choose|i: int| 0 <= i < s.len() && #[trigger] s[i].0 == k;
            if i < p {
                assert(t[i].0 == k);
            } else {
                assert(t[i + 1].0 == k);
            }
        }
    }
    lemma_map_equiv(t, target);
}

/// Removing an entry removes its key and keeps the order.
proof fn lemma_remove_key(s: Seq<(Seq<u8>, Seq<u8>)>, p: int)
    requires
        key_sorted(s),
        0 <= p < s.len(),
    ensures
        key_sorted(s.remove(p)),
        pairs_to_map(s.remove(p)) == pairs_to_map(s).remove(s[p].0),
{
    lemma_lex_strict_total_order();
    let key = s[p].0;
    let t = s.remove(p);
    let target = pairs_to_map(s).remove(key);
    assert forall|i: int| 0 <= i < s.len() && i != p implies #[trigger] s[i].0 != key by {
        if i > p {
            assert(lex_lt(s[p].0, s[i].0));
        } else {
            assert(lex_lt(s[i].0, s[p].0));
        }
    }
    assert forall|i: int, j: int| 0 <= i < j < t.len() implies lex_lt(
        #[trigger] t[i].0,
        #[trigger] t[j].0,
    ) by {
        if j < p {
        } else if i < p {
            assert(t[j] == s[j + 1]);
        } else {
            assert(t[i] == s[i + 1]);
            assert(t[j] == s[j + 1]);
        }
    }
    assert forall|i: int| 0 <= i < t.len() implies #[trigger] target.contains_key(t[i].0)
        && target[t[i].0] == t[i].1 by {
        if i < p {
            lemma_map_at(s, i);
            assert(t[i] == s[i]);
        } else {
            lemma_map_at(s, i + 1);
            assert(t[i] == s[i + 1]);
        }
    }
    assert forall|k: Seq<u8>| #[trigger] target.contains_key(k) implies exists|i: int|
        0 <= i < t.len() && #[trigger] t[i].0 == k by {
        let i = choose|i: int| 0 <= i < s.len() && #[trigger] s[i].0 == k;
        if i < p {
            assert(t[i].0 == k);
        } else {
            assert(t[i - 1].0 == k);
        }
    }
    lemma_map_equiv(t, target);
}

/// A key that is not at its place in key order is not stored.
proof fn lemma_absent_key(s: Seq<(Seq<u8>, Seq<u8>)>, p: int, key: Seq<u8>)
    requires
        key_sorted(s),
        0 <= p <= s.len(),
        forall|i: int| 0 <= i < p ==> lex_lt(#[trigger] s[i].0, key),
        forall|i: int| p <= i < s.len() ==> lex_le(key, #[trigger] s[i].0),
        p < s.len() ==> s[p].0 != key,
    ensures
        pairs_to_map(s).remove(key) == pairs_to_map(s),
{
    lemma_lex_strict_total_order();
    assert forall|i: int| 0 <= i < s.len() implies #[trigger] s[i].0 != key by {
        if i > p {
            assert(lex_lt(s[p].0, s[i].0));
        }
    }
    lemma_map_absent(s, key);
    assert(pairs_to_map(s).remove(key) =~= pairs_to_map(s));
}

impl MockStorage {
    #[verifier::type_invariant]
    spec fn well_formed(&self) -> bool {
        &&& key_sorted(pairs_of(self.entries@))
        &&& entry_sizes_ok(self.entries@)
    }

    /// An empty storage.
    pub fn new() -> (s: Self)
        ensures
            s@ == Map::<Seq<u8>, Seq<u8>>::empty(),
    {
        let s = MockStorage { entries: Vec::new() };
        proof {
            assert(pairs_of(s.entries@) =~= Seq::empty());
            assert(s@ =~= Map::<Seq<u8>, Seq<u8>>::empty());
        }
        s
    }

    /// The value stored under `key`, if any, and the gas cost of the read:
    /// the length of the key.
    pub fn get(&self, key: &[u8]) -> (res: (Option<Vec<u8>>, u64))
        ensures
            opt_bytes_view(res.0) == spec_get(self@, key@),
            res.1 == key@.len(),
    {
        proof {
            use_type_invariant(self);
            lemma_lex_strict_total_order();
        }
        let ghost s = pairs_of(self.entries@);
        let p = find_position(&self.entries, key);
        let mut value: Option<Vec<u8>> = None;
        if p < self.entries.len() {
            let c = compare_bytes(self.entries[p].0.as_slice(), key);
            if let Comparison::Equal = c {
                proof {
                    assert(s[p as int].0 == key@);
                    lemma_map_at(s, p as int);
                }
                value = Some(copy_bytes(self.entries[p].1.as_slice()));
            }
        }
        proof {
            if value is None {
                assert forall|i: int| 0 <= i < s.len() implies #[trigger] s[i].0 != key@ by {
                    if i > p {
                        assert(lex_lt(s[p as int].0, s[i].0));
                    }
                }
                lemma_map_absent(s, key@);
            }
        }
        (value, key.len() as u64)
    }

    /// Stores `value` under `key`, replacing any value stored there. Returns
    /// the gas cost of the write: the key's length plus the value's length.
    pub fn set(&mut self, key: &[u8], value: &[u8]) -> (gas: u64)
        requires
            key@.len() + value@.len() <= usize::MAX,
        ensures
            final(self)@ == old(self)@.insert(key@, value@),
            gas == key@.len() + value@.len(),
    {
        proof {
            use_type_invariant(&*self);
        }
        let mut entries: Vec<KV> = Vec::new();
        std::mem::swap(&mut entries, &mut self.entries);
        let ghost old_entries = entries@;
        let ghost s = pairs_of(entries@);
        let p = find_position(&entries, key);
        let mut found = false;
        if p < entries.len() {
            if let Comparison::Equal = compare_bytes(entries[p].0.as_slice(), key) {
                found = true;
            }
        }
        let kv: KV = (copy_bytes(key), copy_bytes(value));
        let ghost kv_g = kv;
        if found {
            entries.set(p, kv);
            proof {
                assert(pairs_of(entries@) =~= s.update(p as int, (key@, value@)));
                lemma_replace_value(s, p as int, key@, value@);
                lemma_sizes_update(old_entries, p as int, kv_g);
            }
        } else {
            entries.insert(p, kv);
            proof {
                assert(pairs_of(entries@) =~= s.insert(p as int, (key@, value@)));
                lemma_insert_key(s, p as int, key@, value@);
                lemma_sizes_insert(old_entries, p as int, kv_g);
            }
        }
        self.entries = entries;
        (key.len() + value.len()) as u64
    }

    /// Removes whatever is stored under `key`. Returns the gas cost of the
    /// removal: the length of the key.
    pub fn remove(&mut self, key: &[u8]) -> (gas: u64)
        ensures
            final(self)@ == old(self)@.remove(key@),
            gas == key@.len(),
    {
        proof {
            use_type_invariant(&*self);
        }
        let mut entries: Vec<KV> = Vec::new();
        std::mem::swap(&mut entries, &mut self.entries);
        let ghost old_entries = entries@;
        let ghost s = pairs_of(entries@);
        let p = find_position(&entries, key);
        let mut found = false;
        if p < entries.len() {
            if let Comparison::Equal = compare_bytes(entries[p].0.as_slice(), key) {
                found = true;
            }
        }
        if found {
            entries.remove(p);
            proof {
                assert(pairs_of(entries@) =~= s.remove(p as int));
                lemma_remove_key(s, p as int);
                lemma_sizes_remove(old_entries, p as int);
            }
        } else {
            proof {
                lemma_absent_key(s, p as int, key@);
            }
        }
        self.entries = entries;
        key.len() as u64
    }

    /// The entries whose keys lie between `lower` and `upper`, in ascending
    /// key order, each with its gas cost.
    fn collect_range(&self, lower: &Bound, upper: &Bound) -> (items: Vec<(KV, u64)>)
        ensures
            key_sorted(items_view(items@)),
            items_gas_ok(items@),
            forall|i: int|
                0 <= i < items@.len() ==> {
                    let k = #[trigger] items_view(items@)[i].0;
                    &&& above_lower(*lower, k)
                    &&& below_upper(*upper, k)
                    &&& self@.contains_key(k)
                    &&& self@[k] == items_view(items@)[i].1
                },
            forall|k: Seq<u8>|
                #[trigger] self@.contains_key(k) && above_lower(*lower, k) && below_upper(*upper, k)
                    ==> exists|i: int|
                    0 <= i < items@.len() && #[trigger] items_view(items@)[i].0 == k,
    {
        proof {
            use_type_invariant(self);
            lemma_lex_strict_total_order();
        }
        let ghost s = pairs_of(self.entries@);
        let n = self.entries.len();
        let mut out: Vec<(KV, u64)> = Vec::new();
        let ghost mut idxs: Seq<int> = Seq::empty();
        let mut i: usize = 0;
        while i < n
            invariant
                s == pairs_of(self.entries@),
                key_sorted(s),
                n == self.entries@.len(),
                entry_sizes_ok(self.entries@),
                i <= n,
                out@.len() == idxs.len(),
                items_gas_ok(out@),
                forall|j: int|
                    0 <= j < idxs.len() ==> {
                        &&& 0 <= #[trigger] idxs[j] < i
                        &&& items_view(out@)[j] == s[idxs[j]]
                        &&& above_lower(*lower, s[idxs[j]].0)
                        &&& below_upper(*upper, s[idxs[j]].0)
                    },
                forall|j1: int, j2: int|
                    0 <= j1 < j2 < idxs.len() ==> #[trigger] idxs[j1] < #[trigger] idxs[j2],
                forall|t: int|
                    0 <= t < i && above_lower(*lower, #[trigger] s[t].0) && below_upper(
                        *upper,
                        s[t].0,
                    ) ==> exists|j: int| 0 <= j < idxs.len() && #[trigger] idxs[j] == t,
            decreases n - i,
        {
            let key = self.entries[i].0.as_slice();
            let value = self.entries[i].1.as_slice();
            proof {
                assert(s[i as int] == (key@, value@));
            }
            if admits_lower(lower, key) && admits_upper(upper, key) {
                let gas = (key.len() + value.len()) as u64;
                let item: (KV, u64) = ((copy_bytes(key), copy_bytes(value)), gas);
                let ghost old_out = out@;
                let ghost old_idxs = idxs;
                out.push(item);
                proof {
                    idxs = idxs.push(i as int);
                    assert forall|j: int| 0 <= j < out@.len() implies #[trigger] items_view(out@)[j]
                        == (if j < old_out.len() {
                        items_view(old_out)[j]
                    } else {
                        (key@, value@)
                    }) by {
                        if j < old_out.len() {
                            assert(out@[j] == old_out[j]);
                        }
                    }
                    assert forall|t: int|
                        0 <= t < i + 1 && above_lower(*lower, #[trigger] s[t].0) && below_upper(
                            *upper,
                            s[t].0,
                        ) implies exists|j: int| 0 <= j < idxs.len() && #[trigger] idxs[j] == t by {
                        if t == i {
                            assert(idxs[old_idxs.len() as int] == t);
                        } else {
                            let j = choose|j: int| 0 <= j < old_idxs.len() && #[trigger] old_idxs[j] == t;
                            assert(idxs[j] == t);
                        }
                    }
                    assert forall|j: int| 0 <= j < out@.len() implies #[trigger] out@[j].1
                        == out@[j].0.0@.len() + out@[j].0.1@.len() by {
                        if j < old_out.len() {
                            assert(out@[j] == old_out[j]);
                        }
                    }
                }
            }
            i = i + 1;
        }
        proof {
            let iv = items_view(out@);
            assert forall|a: int, b: int| 0 <= a < b < iv.len() implies lex_lt(
                #[trigger] iv[a].0,
                #[trigger] iv[b].0,
            ) by {
                assert(idxs[a] < idxs[b]);
            }
            assert forall|j: int| 0 <= j < out@.len() implies {
                let k = #[trigger] items_view(out@)[j].0;
                &&& above_lower(*lower, k)
                &&& below_upper(*upper, k)
                &&& self@.contains_key(k)
                &&& self@[k] == items_view(out@)[j].1
            } by {
                lemma_map_at(s, idxs[j]);
            }
            assert forall|k: Seq<u8>|
                #[trigger] self@.contains_key(k) && above_lower(*lower, k) && below_upper(*upper, k)
                    implies exists|j: int|
                    0 <= j < out@.len() && #[trigger] items_view(out@)[j].0 == k by {
                let t = choose|t: int| 0 <= t < s.len() && #[trigger] s[t].0 == k;
                let j = choose|j: int| 0 <= j < idxs.len() && #[trigger] idxs[j] == t;
                assert(items_view(out@)[j].0 == k);
            }
        }
        out
    }

    /// Iterates over the entries whose keys lie from `start` (included) to
    /// `end` (excluded), a missing end leaving that side open, in ascending or
    /// descending key order. Each item carries the gas cost of reading it; the
    /// iteration itself costs no gas. A start above the end gives no items.
    pub fn range(&self, start: Option<&[u8]>, end: Option<&[u8]>, order: Order) -> (res: (
        Vec<(KV, u64)>,
        u64,
    ))
        ensures
            range_result(
                self@,
                opt_slice_view(start),
                opt_slice_view(end),
                order,
                items_view(res.0@),
            ),
            items_gas_ok(res.0@),
            res.1 == 0,
    {
        proof {
            lemma_lex_strict_total_order();
        }
        let ghost st = opt_slice_view(start);
        let ghost en = opt_slice_view(end);
        let bounds = range_bounds(start, end);
        proof {
            assert forall|k: Seq<u8>|
                above_lower(bounds.0, k) && below_upper(bounds.1, k) <==> #[trigger] in_key_range(
                    k,
                    st,
                    en,
                ) by {}
        }
        if let Bound::Included(s) = &bounds.0 {
            if let Bound::Excluded(e) = &bounds.1 {
                if let Comparison::Greater = compare_bytes(s.as_slice(), e.as_slice()) {
                    let empty: Vec<(KV, u64)> = Vec::new();
                    proof {
                        assert(items_view(empty@) =~= Seq::empty());
                        assert forall|k: Seq<u8>| !#[trigger] in_key_range(k, st, en) by {
                            if lex_le(s@, k) && lex_lt(k, e@) {
                                assert(lex_lt(e@, s@));
                                if s@ != k {
                                    assert(lex_lt(e@, k));
                                }
                            }
                        }
                    }
                    return (empty, 0);
                }
            }
        }
        let items = self.collect_range(&bounds.0, &bounds.1);
        match order {
            Order::Ascending => (items, 0),
            Order::Descending => {
                let rev = reverse_items(items);
                proof {
                    let iv = items_view(items@);
                    let rv = items_view(rev@);
                    assert(rv =~= iv.reverse());
                    assert forall|a: int, b: int| 0 <= a < b < rv.len() implies lex_lt(
                        #[trigger] rv[b].0,
                        #[trigger] rv[a].0,
                    ) by {
                        assert(rv[a] == iv[iv.len() - 1 - a]);
                        assert(rv[b] == iv[iv.len() - 1 - b]);
                    }
                    assert forall|j: int| 0 <= j < rv.len() implies {
                        &&& in_key_range(#[trigger] rv[j].0, st, en)
                        &&& self@.contains_key(rv[j].0)
                        &&& self@[rv[j].0] == rv[j].1
                    } by {
                        assert(rv[j] == iv[iv.len() - 1 - j]);
                    }
                    assert forall|k: Seq<u8>|
                        #[trigger] self@.contains_key(k) && in_key_range(k, st, en) implies exists|
                        j: int,
                    | 0 <= j < rv.len() && #[trigger] rv[j].0 == k by {
                        let i = choose|i: int| 0 <= i < iv.len() && #[trigger] iv[i].0 == k;
                        assert(rv[iv.len() - 1 - i] == iv[i]);
                    }
                    assert forall|j: int| 0 <= j < rev@.len() implies #[trigger] rev@[j].1
                        == rev@[j].0.0@.len() + rev@[j].0.1@.len() by {
                        assert(rev@[j] == items@[items@.len() - 1 - j]);
                    }
                }
                (rev, 0)
            },
        }
    }
}

impl Default for MockStorage {
    fn default() -> (s: Self)
        ensures
            s@ == Map::<Seq<u8>, Seq<u8>>::empty(),
    {
        MockStorage::new()
    }
}

/// Two key-sorted sequences holding the same pairs are equal.
proof fn lemma_sorted_unique(a: Seq<(Seq<u8>, Seq<u8>)>, b: Seq<(Seq<u8>, Seq<u8>)>)
    requires
        key_sorted(a),
        key_sorted(b),
        forall|x: (Seq<u8>, Seq<u8>)| a.contains(x) <==> b.contains(x),
    ensures
        a == b,
    decreases a.len(),
{
    lemma_lex_strict_total_order();
    if a.len() == 0 {
        if b.len() > 0 {
            assert(b.contains(b[0]));
        }
        assert(a =~= b);
    } else {
        assert(a.contains(a[0]));
        let j = choose|j: int| 0 <= j < b.len() && b[j] == a[0];
        assert(b.contains(b[0]));
        let i = choose|i: int| 0 <= i < a.len() && a[i] == b[0];
        if j > 0 {
            assert(lex_lt(b[0].0, b[j].0));
            if i > 0 {
                assert(lex_lt(a[0].0, a[i].0));
            }
        }
        assert(b[0] == a[0]);
        let a1 = a.drop_first();
        let b1 = b.drop_first();
        assert forall|x: (Seq<u8>, Seq<u8>)| a1.contains(x) implies b1.contains(x) by {
            let t = choose|t: int| 0 <= t < a1.len() && a1[t] == x;
            assert(a[t + 1] == x);
            assert(lex_lt(a[0].0, x.0));
            assert(b.contains(x));
            let u = choose|u: int| 0 <= u < b.len() && b[u] == x;
            assert(u != 0);
            assert(b1[u - 1] == x);
        }
        assert forall|x: (Seq<u8>, Seq<u8>)| b1.contains(x) implies a1.contains(x) by {
            let t = choose|t: int| 0 <= t < b1.len() && b1[t] == x;
            assert(b[t + 1] == x);
            assert(lex_lt(b[0].0, x.0));
            assert(a.contains(x));
            let u = choose|u: int| 0 <= u < a.len() && a[u] == x;
            assert(u != 0);
            assert(a1[u - 1] == x);
        }
        lemma_sorted_unique(a1, b1);
        assert(a =~= b) by {
            assert forall|k: int| 0 <= k < a.len() implies a[k] == b[k] by {
                if k > 0 {
                    assert(a[k] == a1[k - 1]);
                    assert(b[k] == b1[k - 1]);
                }
            }
        }
    }
}

proof fn lemma_range_contents_same_pairs(
    m: Map<Seq<u8>, Seq<u8>>,
    start: Option<Seq<u8>>,
    end: Option<Seq<u8>>,
    a: Seq<(Seq<u8>, Seq<u8>)>,
    b: Seq<(Seq<u8>, Seq<u8>)>,
)
    requires
        range_contents(m, start, end, a),
        range_contents(m, start, end, b),
    ensures
        forall|x: (Seq<u8>, Seq<u8>)| a.contains(x) <==> b.contains(x),
{
    assert forall|x: (Seq<u8>, Seq<u8>)| a.contains(x) implies b.contains(x) by {
        let i = choose|i: int| 0 <= i < a.len() && a[i] == x;
        assert(m.contains_key(a[i].0) && in_key_range(a[i].0, start, end));
        let j = choose|j: int| 0 <= j < b.len() && #[trigger] b[j].0 == x.0;
        assert(b[j] == x);
    }
    assert forall|x: (Seq<u8>, Seq<u8>)| b.contains(x) implies a.contains(x) by {
        let i = choose|i: int| 0 <= i < b.len() && b[i] == x;
        assert(m.contains_key(b[i].0) && in_key_range(b[i].0, start, end));
        let j = choose|j: int| 0 <= j < a.len() && #[trigger] a[j].0 == x.0;
        assert(a[j] == x);
    }
}

/// A read gives back what the last write under the same key stored, and a
/// write under one key leaves what a read under any other key gives.
pub proof fn law_get_after_set(m: Map<Seq<u8>, Seq<u8>>, k: Seq<u8>, v: Seq<u8>, other: Seq<u8>)
    requires
        other != k,
    ensures
        spec_get(m.insert(k, v), k) == Some(v),
        spec_get(m.insert(k, v), other) == spec_get(m, other),
{
}

/// After a removal nothing is found under the key, and what a read under
/// any other key gives is unchanged.
pub proof fn law_get_after_remove(m: Map<Seq<u8>, Seq<u8>>, k: Seq<u8>, other: Seq<u8>)
    requires
        other != k,
    ensures
        spec_get(m.remove(k), k) == None::<Seq<u8>>,
        spec_get(m.remove(k), other) == spec_get(m, other),
{
}

/// A second write under the same key replaces the first.
pub proof fn law_set_overwrites(m: Map<Seq<u8>, Seq<u8>>, k: Seq<u8>, v1: Seq<u8>, v2: Seq<u8>)
    ensures
        m.insert(k, v1).insert(k, v2) == m.insert(k, v2),
{
    assert(m.insert(k, v1).insert(k, v2) =~= m.insert(k, v2));
}

/// Storing under a key that held nothing and then removing that key gives
/// back the storage as it was.
pub proof fn law_set_then_remove_restores(m: Map<Seq<u8>, Seq<u8>>, k: Seq<u8>, v: Seq<u8>)
    requires
        !m.contains_key(k),
    ensures
        m.insert(k, v).remove(k) == m,
{
    assert(m.insert(k, v).remove(k) =~= m);
}

/// Removing a key that holds nothing changes nothing.
pub proof fn law_remove_absent(m: Map<Seq<u8>, Seq<u8>>, k: Seq<u8>)
    requires
        !m.contains_key(k),
    ensures
        m.remove(k) == m,
{
    assert(m.remove(k) =~= m);
}

/// An iteration is determined by the storage, the range and the order: any
/// two results that meet `range_result` are equal.
pub proof fn law_range_deterministic(
    m: Map<Seq<u8>, Seq<u8>>,
    start: Option<Seq<u8>>,
    end: Option<Seq<u8>>,
    order: Order,
    a: Seq<(Seq<u8>, Seq<u8>)>,
    b: Seq<(Seq<u8>, Seq<u8>)>,
)
    requires
        range_result(m, start, end, order, a),
        range_result(m, start, end, order, b),
    ensures
        a == b,
{
    lemma_range_contents_same_pairs(m, start, end, a, b);
    match order {
        Order::Ascending => {
            lemma_sorted_unique(a, b);
        },
        Order::Descending => {
            let ra = a.reverse();
            let rb = b.reverse();
            assert forall|x: (Seq<u8>, Seq<u8>)| ra.contains(x) <==> rb.contains(x) by {
                if ra.contains(x) {
                    let i = choose|i: int| 0 <= i < ra.len() && ra[i] == x;
                    assert(a[a.len() - 1 - i] == x);
                    assert(b.contains(x));
                    let j = choose|j: int| 0 <= j < b.len() && b[j] == x;
                    assert(rb[b.len() - 1 - j] == x);
                }
                if rb.contains(x) {
                    let i = choose|i: int| 0 <= i < rb.len() && rb[i] == x;
                    assert(b[b.len() - 1 - i] == x);
                    assert(a.contains(x));
                    let j = choose|j: int| 0 <= j < a.len() && a[j] == x;
                    assert(ra[a.len() - 1 - j] == x);
                }
            }
            assert forall|i: int, j: int| 0 <= i < j < ra.len() implies lex_lt(
                #[trigger] ra[i].0,
                #[trigger] ra[j].0,
            ) by {
                assert(ra[i] == a[a.len() - 1 - i]);
                assert(ra[j] == a[a.len() - 1 - j]);
            }
            assert forall|i: int, j: int| 0 <= i < j < rb.len() implies lex_lt(
                #[trigger] rb[i].0,
                #[trigger] rb[j].0,
            ) by {
                assert(rb[i] == b[b.len() - 1 - i]);
                assert(rb[j] == b[b.len() - 1 - j]);
            }
            lemma_sorted_unique(ra, rb);
            assert(a =~= ra.reverse());
            assert(b =~= rb.reverse());
        },
    }
}

/// Iterating a range in descending order yields the items of the ascending
/// iteration in reverse.
pub proof fn law_descending_reverses_ascending(
    m: Map<Seq<u8>, Seq<u8>>,
    start: Option<Seq<u8>>,
    end: Option<Seq<u8>>,
    asc: Seq<(Seq<u8>, Seq<u8>)>,
    desc: Seq<(Seq<u8>, Seq<u8>)>,
)
    requires
        range_result(m, start, end, Order::Ascending, asc),
        range_result(m, start, end, Order::Descending, desc),
    ensures
        desc == asc.reverse(),
{
    let r = asc.reverse();
    assert forall|i: int, j: int| 0 <= i < j < r.len() implies lex_lt(
        #[trigger] r[j].0,
        #[trigger] r[i].0,
    ) by {
        assert(r[i] == asc[asc.len() - 1 - i]);
        assert(r[j] == asc[asc.len() - 1 - j]);
    }
    assert forall|i: int| 0 <= i < r.len() implies {
        &&& in_key_range(#[trigger] r[i].0, start, end)
        &&& m.contains_key(r[i].0)
        &&& m[r[i].0] == r[i].1
    } by {
        assert(r[i] == asc[asc.len() - 1 - i]);
    }
    assert forall|k: Seq<u8>| #[trigger] m.contains_key(k) && in_key_range(k, start, end) implies exists|
        j: int,
    | 0 <= j < r.len() && #[trigger] r[j].0 == k by {
        let i = choose|i: int| 0 <= i < asc.len() && #[trigger] asc[i].0 == k;
        assert(r[asc.len() - 1 - i] == asc[i]);
    }
    law_range_deterministic(m, start, end, Order::Descending, r, desc);
}

/// A range whose end does not lie above its start holds no items.
pub proof fn law_empty_range(
    m: Map<Seq<u8>, Seq<u8>>,
    start: Seq<u8>,
    end: Seq<u8>,
    order: Order,
    items: Seq<(Seq<u8>, Seq<u8>)>,
)
    requires
        lex_le(end, start),
        range_result(m, Some(start), Some(end), order, items),
    ensures
        items.len() == 0,
{
    lemma_lex_strict_total_order();
    if items.len() > 0 {
        let k = items[0].0;
        assert(in_key_range(k, Some(start), Some(end)));
        if start != k {
            if end != start {
                assert(lex_lt(end, k));
            }
        }
    }
}

/// An unbounded iteration visits every stored key, and nothing else.
pub proof fn law_full_range_covers_storage(
    m: Map<Seq<u8>, Seq<u8>>,
    order: Order,
    items: Seq<(Seq<u8>, Seq<u8>)>,
)
    requires
        range_result(m, None, None, order, items),
    ensures
        forall|k: Seq<u8>| m.contains_key(k) <==> exists|i: int| 0 <= i < items.len() && #[trigger] items[i].0 == k,
{
    assert forall|k: Seq<u8>| m.contains_key(k) <==> exists|i: int| 0 <= i < items.len() && #[trigger] items[i].0 == k by {
        if exists|i: int| 0 <= i < items.len() && #[trigger] items[i].0 == k {
            let i = choose|i: int| 0 <= i < items.len() && #[trigger] items[i].0 == k;
            assert(m.contains_key(items[i].0));
        }
        if m.contains_key(k) {
            assert(in_key_range(k, None, None));
        }
    }
}

} // verus!
