use crate::chunk_pointer::ChunkHandler;
use crate::key::{ids, lemma_lt_lt, lemma_trichotomy, BPlusKey, KeyOrder, Ordered};
use crate::model::{sorted_entries, sorted_keys};
use crate::steps::{entry_place, key_place};
use vstd::prelude::*;

verus! {

/// Child slot `j` of an internal node with the separators `s` is the one
/// to follow for `k`: the separator left of it, if any, is at most `k`,
/// and the one right of it, if any, is above `k`. Equal keys route right.
pub open spec fn routes<K: Ordered>(s: Seq<K>, j: int, k: K) -> bool {
    &&& 0 <= j <= s.len()
    &&& j > 0 ==> !k.key_lt(s[j - 1])
    &&& j < s.len() ==> k.key_lt(s[j])
}

/// The entries with each key replaced by its identity.
pub open spec fn entry_ids<K: BPlusKey>(entries: Seq<(K, ChunkHandler)>) -> Seq<
    (K::Id, ChunkHandler),
> {
    entries.map_values(|e: (K, ChunkHandler)| (e.0.id(), e.1))
}

/// Binary search for `key` among sorted keys: `Ok` with the position of
/// the key where it is present, else `Err` with the position at which it
/// would have to be inserted.
pub fn search_keys<K: BPlusKey>(keys: &Vec<K>, key: &K) -> (r: Result<usize, usize>)
    requires
        sorted_keys(ids(keys@)),
    ensures
        match r {
            Ok(p) => p < keys@.len() && keys@[p as int].id() == key.id() && key_place(
                ids(keys@),
                p as int,
                key.id(),
            ),
            Err(p) => key_place(ids(keys@), p as int, key.id()) && (p < keys@.len()
                ==> keys@[p as int].id() != key.id()),
        },
{
    let ghost s = ids(keys@);
    let ghost k = key.id();
    let mut lo: usize = 0;
    let mut hi: usize = keys.len();
    while lo < hi
        invariant
            s == ids(keys@),
            k == key.id(),
            sorted_keys(s),
            0 <= lo <= hi <= s.len(),
            forall|i: int| 0 <= i < lo ==> (#[trigger] s[i]).key_lt(k),
            forall|i: int| hi <= i < s.len() ==> !(#[trigger] s[i]).key_lt(k),
        decreases hi - lo,
    {
        let mid: usize = lo + (hi - lo) / 2;
        proof {
            assert(s[mid as int] == keys@[mid as int].id());
        }
        match keys[mid].compare(key) {
            KeyOrder::Less => {
                assert forall|i: int| 0 <= i < mid + 1 implies (#[trigger] s[i]).key_lt(k) by {
                    if i < mid {
                        assert(s[i].key_lt(s[mid as int]));
                        lemma_lt_lt(s[i], s[mid as int], k);
                    }
                }
                lo = mid + 1;
            },
            _ => {
                assert forall|i: int| mid <= i < s.len() implies !(#[trigger] s[i]).key_lt(k) by {
                    if i > mid && s[i].key_lt(k) {
                        assert(s[mid as int].key_lt(s[i]));
                        lemma_lt_lt(s[mid as int], s[i], k);
                    }
                }
                hi = mid;
            },
        }
    }
    if lo < keys.len() {
        proof {
            assert(s[lo as int] == keys@[lo as int].id());
        }
        match keys[lo].compare(key) {
            KeyOrder::Equal => {
                return Ok(lo);
            },
            _ => {},
        }
    }
    Err(lo)
}

/// Binary search for `key` among entries sorted by key: `Ok` with the
/// position of the entry with that key where there is one, else `Err` with
/// the position at which it would have to be inserted.
pub fn search_entries<K: BPlusKey>(entries: &Vec<(K, ChunkHandler)>, key: &K) -> (r: Result<
    usize,
    usize,
>)
    requires
        sorted_entries(entry_ids(entries@)),
    ensures
        match r {
            Ok(p) => p < entries@.len() && entries@[p as int].0.id() == key.id() && entry_place(
                entry_ids(entries@),
                p as int,
                key.id(),
            ),
            Err(p) => entry_place(entry_ids(entries@), p as int, key.id()) && forall|i: int|
                0 <= i < entries@.len() ==> (#[trigger] entry_ids(entries@)[i]).0 != key.id(),
        },
{
    let ghost s = entry_ids(entries@);
    let ghost k = key.id();
    let mut lo: usize = 0;
    let mut hi: usize = entries.len();
    while lo < hi
        invariant
            s == entry_ids(entries@),
            k == key.id(),
            sorted_entries(s),
            0 <= lo <= hi <= s.len(),
            forall|i: int| 0 <= i < lo ==> (#[trigger] s[i]).0.key_lt(k),
            forall|i: int| hi <= i < s.len() ==> !(#[trigger] s[i]).0.key_lt(k),
        decreases hi - lo,
    {
        let mid: usize = lo + (hi - lo) / 2;
        proof {
            assert(s[mid as int].0 == entries@[mid as int].0.id());
        }
        match entries[mid].0.compare(key) {
            KeyOrder::Less => {
                assert forall|i: int| 0 <= i < mid + 1 implies (#[trigger] s[i]).0.key_lt(k) by {
                    if i < mid {
                        assert(s[i].0.key_lt(s[mid as int].0));
                        lemma_lt_lt(s[i].0, s[mid as int].0, k);
                    }
                }
                lo = mid + 1;
            },
            _ => {
                assert forall|i: int| mid <= i < s.len() implies !(#[trigger] s[i]).0.key_lt(k) by {
                    if i > mid && s[i].0.key_lt(k) {
                        assert(s[mid as int].0.key_lt(s[i].0));
                        lemma_lt_lt(s[mid as int].0, s[i].0, k);
                    }
                }
                hi = mid;
            },
        }
    }
    if lo < entries.len() {
        proof {
            assert(s[lo as int].0 == entries@[lo as int].0.id());
        }
        match entries[lo].0.compare(key) {
            KeyOrder::Equal => {
                return Ok(lo);
            },
            _ => {},
        }
    }
    proof {
        assert forall|i: int| 0 <= i < entries@.len() implies (#[trigger] s[i]).0 != k by {
            lemma_trichotomy(k, k);
            if i > lo {
                assert(s[lo as int].0.key_lt(s[i].0));
                if s[i].0 == k {
                    lemma_trichotomy(s[lo as int].0, k);
                }
            }
        }
    }
    Err(lo)
}

/// The child slot to follow for `key` in an internal node with the sorted
/// separators `keys`: one right of the separator equal to `key` where
/// there is one, else the slot at the place of `key`.
pub fn child_slot<K: BPlusKey>(keys: &Vec<K>, key: &K) -> (slot: usize)
    requires
        sorted_keys(ids(keys@)),
    ensures
        routes(ids(keys@), slot as int, key.id()),
{
    let ghost s = ids(keys@);
    let ghost k = key.id();
    let len = keys.len();
    match search_keys(keys, key) {
        Ok(p) => {
            proof {
                assert(p < len);
                assert(s[p as int] == k);
                lemma_trichotomy(k, k);
                if p + 1 < s.len() {
                    assert(s[p as int].key_lt(s[p + 1]));
                }
            }
            p + 1
        },
        Err(p) => {
            proof {
                if p > 0 {
                    assert(s[p - 1].key_lt(k));
                    lemma_trichotomy(s[p - 1], k);
                }
                if p < s.len() {
                    assert(!s[p as int].key_lt(k));
                    assert(s[p as int] == keys@[p as int].id());
                    lemma_trichotomy(s[p as int], k);
                }
            }
            p
        },
    }
}

/// Of sorted keys at most one slot routes a key.
pub proof fn lemma_routes_unique<K: Ordered>(s: Seq<K>, j1: int, j2: int, k: K)
    requires
        sorted_keys(s),
        routes(s, j1, k),
        routes(s, j2, k),
    ensures
        j1 == j2,
{
    if j1 < j2 {
        if j1 < j2 - 1 {
            assert(s[j1].key_lt(s[j2 - 1]));
            lemma_lt_lt(k, s[j1], s[j2 - 1]);
        }
    } else if j2 < j1 {
        if j2 < j1 - 1 {
            assert(s[j2].key_lt(s[j1 - 1]));
            lemma_lt_lt(k, s[j2], s[j1 - 1]);
        }
    }
}

} // verus!
