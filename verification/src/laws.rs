//! Laws that the tree's operations obey, stated once over the map model that
//! every operation's contract speaks of.
//!
//! Each operation of [`crate::SGTree`](crate::SGTree) pins its effect on the
//! tree's abstract map (`insert` yields `old@.insert(key, val)`, `remove`
//! yields `old@.remove(*key)`, and iteration lists exactly the map's pairs in
//! ascending key order). The proof functions below state the laws any
//! sequence of such calls therefore obeys.

use vstd::prelude::*;

verus! {

/// The map obtained by performing a sequence of insertions, oldest first.
pub open spec fn map_of_pairs<V>(s: Seq<(u64, V)>) -> Map<u64, V>
    decreases s.len(),
{
    if s.len() == 0 {
        Map::empty()
    } else {
        map_of_pairs(s.drop_last()).insert(s.last().0, s.last().1)
    }
}

/// The map left after removing a sequence of keys, oldest first.
pub open spec fn map_less_keys<V>(m: Map<u64, V>, s: Seq<u64>) -> Map<u64, V>
    decreases s.len(),
{
    if s.len() == 0 {
        m
    } else {
        map_less_keys(m.remove(s[0]), s.subrange(1, s.len() as int))
    }
}

/// Key ordering: for every insertion sequence, the resulting tree holds
/// exactly the distinct keys of that sequence, each mapped to its last
/// inserted value, so iterating yields those keys in ascending order with no
/// duplicate.
pub proof fn lemma_insert_fold_keys<V>(s: Seq<(u64, V)>)
    ensures
        map_of_pairs(s).dom() == s.map_values(|p: (u64, V)| p.0).to_set(),
        map_of_pairs(s).dom().finite(),
    decreases s.len(),
{
    let keys = s.map_values(|p: (u64, V)| p.0);
    if s.len() == 0 {
        assert(map_of_pairs(s).dom() =~= keys.to_set());
    } else {
        lemma_insert_fold_keys(s.drop_last());
        let kpre = s.drop_last().map_values(|p: (u64, V)| p.0);
        assert(kpre =~= keys.drop_last());
        assert(keys.drop_last().to_set().insert(keys.last()) =~= keys.to_set()) by {
            assert forall|k: u64| #[trigger] keys.to_set().contains(k) implies keys.drop_last()
                .to_set().insert(keys.last()).contains(k) by {
                let t = choose|t: int| 0 <= t < keys.len() && keys[t] == k;
                if t < keys.len() - 1 {
                    assert(keys.drop_last()[t] == k);
                }
            }
            assert forall|k: u64| #[trigger]
                keys.drop_last().to_set().contains(k) implies keys.to_set().contains(k) by {
                let t = choose|t: int|
                    0 <= t < keys.drop_last().len() && keys.drop_last()[t] == k;
                assert(keys[t] == k);
            }
            assert(keys.to_set().contains(keys.last()));
        }
        assert(map_of_pairs(s).dom() =~= keys.to_set());
    }
}

/// Size consistency: inserting a fresh key grows the map by one entry,
/// overwriting an existing key keeps the size, and removing a present key
/// shrinks it by one; removing an absent key changes nothing. Together with
/// `len() == self@.dom().len()`, the length always equals the number of
/// distinct keys inserted minus the number removed.
pub proof fn lemma_size_consistency<V>(m: Map<u64, V>, k: u64, v: V)
    requires
        m.dom().finite(),
    ensures
        !m.dom().contains(k) ==> m.insert(k, v).dom().len() == m.dom().len() + 1,
        m.dom().contains(k) ==> m.insert(k, v).dom().len() == m.dom().len(),
        m.dom().contains(k) ==> m.remove(k).dom().len() + 1 == m.dom().len(),
        !m.dom().contains(k) ==> m.remove(k) == m,
{
    assert(m.insert(k, v).dom() =~= m.dom().insert(k));
    assert(m.remove(k).dom() =~= m.dom().remove(k));
    if !m.dom().contains(k) {
        assert(m.remove(k) =~= m);
    }
}

/// Round trip: building a map by insertions and then removing every inserted
/// key, in any order and with repetitions allowed, leaves the empty map.
pub proof fn lemma_round_trip<V>(m: Map<u64, V>, s: Seq<u64>)
    requires
        m.dom().subset_of(s.to_set()),
    ensures
        map_less_keys(m, s) == Map::<u64, V>::empty(),
    decreases s.len(),
{
    if s.len() == 0 {
        assert(m =~= Map::<u64, V>::empty());
    } else {
        let rest = s.subrange(1, s.len() as int);
        assert forall|k: u64| #[trigger] m.remove(s[0]).dom().contains(k) implies rest
            .to_set().contains(k) by {
            assert(s.to_set().contains(k));
            let t = choose|t: int| 0 <= t < s.len() && s[t] == k;
            assert(t != 0);
            assert(rest[t - 1] == k);
        }
        lemma_round_trip(m.remove(s[0]), rest);
    }
}

/// Idempotent insert: inserting the same key twice leaves the map of the
/// second insert alone; the first insert determines the value the second
/// call displaces, and the size is unchanged by the second call.
pub proof fn lemma_idempotent_insert<V>(m: Map<u64, V>, k: u64, v1: V, v2: V)
    requires
        m.dom().finite(),
    ensures
        m.insert(k, v1).insert(k, v2) == m.insert(k, v2),
        m.insert(k, v1).insert(k, v2).dom().len() == m.insert(k, v1).dom().len(),
        m.insert(k, v1)[k] == v1,
        m.insert(k, v1).dom().contains(k),
{
    assert(m.insert(k, v1).insert(k, v2) =~= m.insert(k, v2));
    assert(m.insert(k, v1).dom() =~= m.dom().insert(k));
    assert(m.insert(k, v2).dom() =~= m.dom().insert(k));
}

} // verus!
