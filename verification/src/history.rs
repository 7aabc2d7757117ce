use vstd::prelude::*;

verus! {

/// The map that `start` becomes when the pairs are inserted one after the
/// other: each insertion puts its value under its key, over the value that
/// was there.
pub open spec fn inserted<K, V>(start: Map<K, V>, pairs: Seq<(K, V)>) -> Map<K, V>
    decreases pairs.len(),
{
    if pairs.len() == 0 {
        start
    } else {
        inserted(start, pairs.drop_last()).insert(pairs.last().0, pairs.last().1)
    }
}

/// After any sequence of insertions, a key that was inserted maps to the
/// value of its last insertion.
pub proof fn lemma_last_insert_wins<K, V>(start: Map<K, V>, pairs: Seq<(K, V)>, i: int)
    requires
        0 <= i < pairs.len(),
        forall|j: int| i < j < pairs.len() ==> (#[trigger] pairs[j]).0 != pairs[i].0,
    ensures
        inserted(start, pairs).contains_key(pairs[i].0),
        inserted(start, pairs)[pairs[i].0] == pairs[i].1,
    decreases pairs.len(),
{
    if i < pairs.len() - 1 {
        let rest = pairs.drop_last();
        assert(pairs.last() == pairs[pairs.len() - 1]);
        assert forall|j: int| i < j < rest.len() implies (#[trigger] rest[j]).0 != rest[i].0 by {
            assert(rest[j] == pairs[j]);
        }
        lemma_last_insert_wins(start, rest, i);
    }
}

/// After any sequence of insertions, a key that was not inserted is as it
/// was at the start: absent if it was absent, and with its value if it had
/// one.
pub proof fn lemma_not_inserted_is_kept<K, V>(start: Map<K, V>, pairs: Seq<(K, V)>, k: K)
    requires
        forall|j: int| 0 <= j < pairs.len() ==> (#[trigger] pairs[j]).0 != k,
    ensures
        inserted(start, pairs).contains_key(k) == start.contains_key(k),
        start.contains_key(k) ==> inserted(start, pairs)[k] == start[k],
    decreases pairs.len(),
{
    if pairs.len() > 0 {
        let rest = pairs.drop_last();
        assert(pairs.last() == pairs[pairs.len() - 1]);
        assert forall|j: int| 0 <= j < rest.len() implies (#[trigger] rest[j]).0 != k by {
            assert(rest[j] == pairs[j]);
        }
        lemma_not_inserted_is_kept(start, rest, k);
    }
}

} // verus!
