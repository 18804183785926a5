//! Tiers that keep what they are given.
//!
//! Laws about one operation after another speak of what the tiers hold: a
//! *world* is the contents of every tier, topmost first. A tier is honest if
//! it answers for its contents, and loses an entry only by reporting it as
//! displaced.
use vstd::prelude::*;

verus! {

/// The keys of some entries.
pub open spec fn keys<K, V>(entries: Seq<(K, V)>) -> Seq<K> {
    entries.map_values(|entry: (K, V)| entry.0)
}

/// Whether an honest tier that held `before` holds `after` once it wrote an
/// entry and reported `displaced`: those entries have left it, and nothing
/// else has.
pub open spec fn accepts<K, V>(
    before: Map<K, V>,
    key: K,
    value: V,
    displaced: Seq<(K, V)>,
    after: Map<K, V>,
) -> bool {
    let full = before.insert(key, value);
    &&& forall|i: int|
        0 <= i < displaced.len() ==> full.contains_pair(
            (#[trigger] displaced[i]).0,
            displaced[i].1,
        )
    &&& forall|k: K| #[trigger]
        after.contains_key(k) <==> full.contains_key(k) && !keys(displaced).contains(k)
    &&& forall|k: K| #[trigger] after.contains_key(k) ==> after[k] == full[k]
}

/// Whether writing the entry into the honest tier number `tier` turns the
/// world `before` into `after`.
pub open spec fn writes<K, V>(
    before: Seq<Map<K, V>>,
    tier: int,
    key: K,
    value: V,
    displaced: Seq<(K, V)>,
    after: Seq<Map<K, V>>,
) -> bool {
    &&& 0 <= tier < before.len()
    &&& after.len() == before.len()
    &&& accepts(before[tier], key, value, displaced, after[tier])
    &&& forall|t: int|
        0 <= t < before.len() && t != tier ==> #[trigger] after[t] == before[t]
}

/// The last value that `entries` give `key`.
pub open spec fn last_of<K, V>(entries: Seq<(K, V)>, key: K) -> Option<V>
    decreases entries.len(),
{
    if entries.len() == 0 {
        None
    } else if entries.last().0 == key {
        Some(entries.last().1)
    } else {
        last_of(entries.drop_last(), key)
    }
}

/// Whether an honest tier that held `before` holds `after` once it wrote the
/// entries in turn and reported `displaced`, in the order they left it.
pub open spec fn accepts_all<K, V>(
    before: Map<K, V>,
    entries: Seq<(K, V)>,
    displaced: Seq<(K, V)>,
    after: Map<K, V>,
) -> bool
    decreases entries.len(),
{
    if entries.len() == 0 {
        displaced.len() == 0 && after == before
    } else {
        exists|count: int, between: Map<K, V>|
            0 <= count <= displaced.len() && accepts_all(
                before,
                entries.drop_last(),
                displaced.take(count),
                between,
            ) && #[trigger] accepts(
                between,
                entries.last().0,
                entries.last().1,
                displaced.skip(count),
                after,
            )
    }
}

/// Whether writing the entries into the honest tier number `tier` turns the
/// world `before` into `after`.
pub open spec fn writes_all<K, V>(
    before: Seq<Map<K, V>>,
    tier: int,
    entries: Seq<(K, V)>,
    displaced: Seq<(K, V)>,
    after: Seq<Map<K, V>>,
) -> bool {
    &&& 0 <= tier < before.len()
    &&& after.len() == before.len()
    &&& accepts_all(before[tier], entries, displaced, after[tier])
    &&& forall|t: int|
        0 <= t < before.len() && t != tier ==> #[trigger] after[t] == before[t]
}

/// Whether deleting the key from the honest tier number `tier` turns the
/// world `before` into `after`.
pub open spec fn deletes<K, V>(
    before: Seq<Map<K, V>>,
    tier: int,
    key: K,
    after: Seq<Map<K, V>>,
) -> bool {
    &&& 0 <= tier < before.len()
    &&& after == before.update(tier, before[tier].remove(key))
}

} // verus!
