//! What calls of memory tiers do, entry by entry.
//!
//! Everything here is said of the entries themselves: which stay, which leave,
//! and where they stand in the order in which they would leave.
use vstd::prelude::*;

use crate::memory::state;
use crate::memory::state::{Held, Limits, MemoryState};
use crate::policy::Eviction;

verus! {

/// What the entries weigh together.
pub open spec fn weight_of<K, V>(entries: Seq<Held<K, V>>) -> int {
    entries.fold_left(0, |sum: int, held: Held<K, V>| sum + held.weight)
}

/// Whether entries fit the bounds.
pub open spec fn fits<K, V>(entries: Seq<Held<K, V>>, limits: Limits) -> bool {
    &&& limits.entries matches Some(most) ==> entries.len() <= most
    &&& limits.bytes matches Some(budget) ==> weight_of(entries) <= budget
}

/// Whether the entry at `at` is the one for `key`.
pub open spec fn stands_at<K, V>(entries: Seq<Held<K, V>>, key: K, at: int) -> bool {
    0 <= at < entries.len() && entries[at].key == key
}

/// The entries with `held` among them: a new key goes last; a known key keeps
/// its place, and goes last where uses refresh recency.
pub open spec fn rearranged<K, V>(
    entries: Seq<Held<K, V>>,
    held: Held<K, V>,
    eviction: Eviction,
) -> Seq<Held<K, V>> {
    if exists|at: int| stands_at(entries, held.key, at) {
        let at = choose|at: int| stands_at(entries, held.key, at);
        match eviction {
            Eviction::Fifo => entries.update(at, held),
            Eviction::Lru => entries.remove(at).push(held),
        }
    } else {
        entries.push(held)
    }
}

proof fn lemma_weight<K, V>(entries: Seq<Held<K, V>>)
    ensures
        weight_of(entries) == state::total_weight(entries),
    decreases entries.len(),
{
    let step = |sum: int, held: Held<K, V>| sum + held.weight;
    if entries.len() > 0 {
        lemma_weight(entries.drop_last());
        assert(entries.fold_left(0, step) == step(
            entries.drop_last().fold_left(0, step),
            entries.last(),
        ));
    }
}

/// At most one entry is for a key.
proof fn lemma_stands_once<K, V>(entries: Seq<Held<K, V>>, key: K, a: int, b: int)
    requires
        state::keys_of(entries).no_duplicates(),
        stands_at(entries, key, a),
        stands_at(entries, key, b),
    ensures
        a == b,
{
    assert(state::keys_of(entries)[a] == state::keys_of(entries)[b]);
}

/// What is found for a key is the entry that has it.
pub proof fn law_lookup_finds_the_entry<K, V>(tier: MemoryState<K, V>, key: K, held: Held<K, V>)
    requires
        tier.valid(),
    ensures
        tier.lookup(key) == Some(held) <==> held.key == key && tier.entries.contains(held),
        tier.lookup(key) is None <==> forall|i: int|
            0 <= i < tier.entries.len() ==> (#[trigger] tier.entries[i]).key != key,
{
    state::lemma_lookup_found(tier.entries, key);
    if held.key == key && tier.entries.contains(held) {
        let i = choose|i: int| 0 <= i < tier.entries.len() && tier.entries[i] == held;
        let found = tier.lookup(key).unwrap();
        let j = choose|j: int| 0 <= j < tier.entries.len() && tier.entries[j] == found;
        lemma_stands_once(tier.entries, key, i, j);
    }
}

proof fn lemma_without<K, V>(entries: Seq<Held<K, V>>, key: K, at: int)
    requires
        state::keys_of(entries).no_duplicates(),
        stands_at(entries, key, at),
    ensures
        state::without(entries, key) == entries.remove(at),
        state::lookup(entries, key) == Some(entries[at]),
    decreases entries.len(),
{
    let rest = entries.drop_last();
    assert(state::keys_of(rest) =~= state::keys_of(entries).drop_last());
    if at == entries.len() - 1 {
        lemma_without_absent(rest, key, entries);
        assert(entries.remove(at) =~= rest);
    } else {
        assert(entries.last().key != key) by {
            if entries.last().key == key {
                lemma_stands_once(entries, key, at, entries.len() - 1);
            }
        }
        lemma_without(rest, key, at);
        assert(entries.remove(at) =~= rest.remove(at).push(entries.last()));
    }
}

proof fn lemma_without_absent<K, V>(
    entries: Seq<Held<K, V>>,
    key: K,
    all: Seq<Held<K, V>>,
)
    requires
        state::keys_of(all).no_duplicates(),
        all.len() > entries.len(),
        all.last().key == key,
        entries == all.take(entries.len() as int),
    ensures
        state::without(entries, key) == entries,
    decreases entries.len(),
{
    if entries.len() > 0 {
        let last = entries.len() - 1;
        assert(entries.drop_last() =~= all.take(last as int));
        lemma_without_absent(entries.drop_last(), key, all);
        if entries.last().key == key {
            lemma_stands_once(all, key, last as int, all.len() - 1);
        }
    }
}

proof fn lemma_placed<K, V>(tier: MemoryState<K, V>, held: Held<K, V>, eviction: Eviction)
    requires
        tier.valid(),
    ensures
        tier.placed(held, eviction).entries == rearranged(tier.entries, held, eviction),
{
    let entries = tier.entries;
    let key = held.key;
    state::lemma_lookup_found(entries, key);
    if exists|at: int| stands_at(entries, key, at) {
        let at = choose|at: int| stands_at(entries, key, at);
        lemma_without(entries, key, at);
        let swapped = state::replaced(entries, held);
        assert(swapped =~= entries.update(at, held)) by {
            assert forall|i: int| 0 <= i < entries.len() implies swapped[i] == entries.update(
                at,
                held,
            )[i] by {
                if entries[i].key == key {
                    lemma_stands_once(entries, key, at, i);
                }
            }
        }
    } else {
        if let Some(old) = tier.lookup(key) {
            let i = choose|i: int| 0 <= i < entries.len() && entries[i] == old;
            assert(stands_at(entries, key, i));
        }
    }
}

proof fn lemma_shed<K, V>(tier: MemoryState<K, V>, limits: Limits, count: nat)
    requires
        tier.weight == state::total_weight(tier.entries),
        count <= tier.excess(limits),
    ensures
        count <= tier.entries.len(),
        tier.shed(count).entries == tier.entries.skip(count as int),
        tier.shed(count).weight == weight_of(tier.entries.skip(count as int)),
        count < tier.excess(limits) ==> !fits(tier.entries.skip(count as int), limits),
        count == tier.excess(limits) ==> tier.shed(count).over(limits) ==> tier.shed(
            count,
        ).entries.len() == 0,
        tier.shed(count).over(limits) <==> !fits(tier.entries.skip(count as int), limits),
    decreases count,
{
    lemma_weight(tier.entries);
    assert(tier.entries.skip(0) =~= tier.entries);
    if count > 0 {
        let first = tier.entries[0];
        let rest = tier.entries.skip(1);
        state::lemma_total_first(tier.entries);
        lemma_shed(tier.shifted(), limits, (count - 1) as nat);
        assert(rest.skip(count - 1) =~= tier.entries.skip(count as int));
    }
}

/// A write takes out as few entries as fit, first to leave first. With the
/// written entry among the others in its place, a run of entries from the
/// front is displaced, in order, and the rest stays, in order; the rest fits
/// the bounds, and as long as one more of the displaced entries was there it
/// did not fit. So nothing leaves while everything fits, and under a byte
/// budget alone the number of entries does not matter.
pub proof fn law_write_displaces_until_the_rest_fits<K, V>(
    tier: MemoryState<K, V>,
    held: Held<K, V>,
    limits: Limits,
    eviction: Eviction,
)
    requires
        tier.valid(),
        held.weight >= 0,
    ensures
        ({
            let all = rearranged(tier.entries, held, eviction);
            let after = tier.inserted(held, limits, eviction);
            let displaced = tier.displaced(held, limits, eviction);
            let count = displaced.len() as int;
            &&& count + after.entries.len() == all.len()
            &&& after.entries == all.skip(count)
            &&& forall|i: int|
                0 <= i < count ==> #[trigger] displaced[i] == (all[i].key, all[i].value)
            &&& fits(after.entries, limits)
            &&& forall|i: int| 0 <= i < count ==> !fits(#[trigger] all.skip(i), limits)
            &&& after.weight == weight_of(after.entries)
            &&& fits(all, limits) ==> count == 0
        }),
{
    let all = rearranged(tier.entries, held, eviction);
    let placed = tier.placed(held, eviction);
    let count = placed.excess(limits);
    let displaced = tier.displaced(held, limits, eviction);
    state::lemma_placed_valid(tier, held, eviction);
    lemma_placed(tier, held, eviction);
    lemma_shed(placed, limits, count);
    assert(all.skip(0) =~= all);
    assert forall|i: int| 0 <= i < count implies !fits(#[trigger] all.skip(i), limits) by {
        lemma_shed(placed, limits, i as nat);
    }
    state::lemma_shed_excess(placed, limits);
    assert(displaced.len() == count);
}

/// Writing entries in turn is writing them one after the other.
pub proof fn law_batched_writes_go_in_turn<K, V>(
    tier: MemoryState<K, V>,
    items: Seq<Held<K, V>>,
    held: Held<K, V>,
    limits: Limits,
    eviction: Eviction,
)
    ensures
        tier.inserted_all(Seq::empty(), limits, eviction) == tier,
        tier.displaced_all(Seq::empty(), limits, eviction) == Seq::<(K, V)>::empty(),
        tier.inserted_all(items.push(held), limits, eviction) == tier.inserted_all(
            items,
            limits,
            eviction,
        ).inserted(held, limits, eviction),
        tier.displaced_all(items.push(held), limits, eviction) == tier.displaced_all(
            items,
            limits,
            eviction,
        ) + tier.inserted_all(items, limits, eviction).displaced(held, limits, eviction),
{
    assert(items.push(held).drop_last() =~= items);
}

/// A read under LRU moves the entry that was read to the end and leaves the
/// others in order; it changes nothing if the key is not held. Under FIFO a
/// read changes nothing.
pub proof fn law_read_moves_the_entry_to_the_end<K, V>(tier: MemoryState<K, V>, key: K, at: int)
    requires
        tier.valid(),
    ensures
        tier.read(key, Eviction::Fifo) == tier,
        stands_at(tier.entries, key, at) ==> {
            &&& tier.read(key, Eviction::Lru).entries == tier.entries.remove(at).push(
                tier.entries[at],
            )
            &&& tier.read(key, Eviction::Lru).weight == tier.weight
            &&& tier.read_uses(key, Eviction::Lru) == 1
        },
        (forall|i: int| !stands_at(tier.entries, key, i)) ==> {
            &&& tier.read(key, Eviction::Lru) == tier
            &&& tier.read_uses(key, Eviction::Lru) == 0
        },
        tier.read_uses(key, Eviction::Fifo) == 0,
{
    state::lemma_lookup_found(tier.entries, key);
    if stands_at(tier.entries, key, at) {
        lemma_without(tier.entries, key, at);
    }
    if forall|i: int| !stands_at(tier.entries, key, i) {
        if let Some(old) = tier.lookup(key) {
            let i = choose|i: int| 0 <= i < tier.entries.len() && tier.entries[i] == old;
            assert(stands_at(tier.entries, key, i));
        }
    }
}

/// Reading keys in turn is reading them one after the other: a batched read
/// leaves the tier as that does, and records as many uses.
pub proof fn law_batched_reads_go_in_turn<K, V>(
    tier: MemoryState<K, V>,
    keys: Seq<K>,
    key: K,
    eviction: Eviction,
)
    requires
        tier.valid(),
    ensures
        tier.read_all(Seq::empty(), eviction) == tier,
        tier.read_all(keys.push(key), eviction) == tier.read_all(keys, eviction).read(
            key,
            eviction,
        ),
        tier.read_all_uses(Seq::empty(), eviction) == 0,
        tier.read_all_uses(keys.push(key), eviction) == tier.read_all_uses(keys, eviction)
            + tier.read_all(keys, eviction).read_uses(key, eviction),
{
    assert(keys.push(key).drop_last() =~= keys);
    lemma_read_all_lookup(tier, keys, eviction, key);
}

proof fn lemma_read_all_lookup<K, V>(
    tier: MemoryState<K, V>,
    keys: Seq<K>,
    eviction: Eviction,
    key: K,
)
    ensures
        tier.read_all(keys, eviction).lookup(key) == tier.lookup(key),
    decreases keys.len(),
{
    if keys.len() > 0 {
        lemma_read_all_lookup(tier, keys.drop_last(), eviction, key);
        state::lemma_lookup_touched(
            tier.read_all(keys.drop_last(), eviction),
            keys.last(),
            key,
        );
    }
}

/// Whether the entry for `first` would leave before the one for `second`.
pub open spec fn leaves_before<K, V>(tier: MemoryState<K, V>, first: K, second: K) -> bool {
    exists|i: int, j: int|
        i < j && #[trigger] stands_at(tier.entries, first, i) && #[trigger] stands_at(
            tier.entries,
            second,
            j,
        )
}

/// Under LRU every key that a batched read names, and that is held, would
/// afterwards leave later than every held key that it does not name; keys
/// that it does not name stay in order among themselves.
pub proof fn law_batched_reads_save_what_they_name<K, V>(
    tier: MemoryState<K, V>,
    keys: Seq<K>,
    named: K,
    other: K,
    third: K,
)
    requires
        tier.valid(),
        tier.lookup(named) is Some,
        tier.lookup(other) is Some,
        tier.lookup(third) is Some,
        keys.contains(named),
        !keys.contains(other),
        !keys.contains(third),
    ensures
        leaves_before(tier.read_all(keys, Eviction::Lru), other, named),
        leaves_before(tier.read_all(keys, Eviction::Lru), other, third) <==> leaves_before(
            tier,
            other,
            third,
        ),
    decreases keys.len(),
{
    let earlier = keys.drop_last();
    let last = keys.last();
    let before = tier.read_all(earlier, Eviction::Lru);
    let after = before.read(last, Eviction::Lru);
    lemma_read_all_valid(tier, earlier);
    lemma_read_all_lookup(tier, earlier, Eviction::Lru, last);
    lemma_read_all_lookup(tier, earlier, Eviction::Lru, named);
    lemma_read_all_lookup(tier, earlier, Eviction::Lru, other);
    assert(keys[keys.len() - 1] == last);
    assert(!earlier.contains(other)) by {
        if earlier.contains(other) {
            let p = choose|p: int| 0 <= p < earlier.len() && earlier[p] == other;
            assert(keys[p] == other);
        }
    }
    lemma_one_read_order(before, last, other, third);
    if earlier.contains(named) {
        assert(!earlier.contains(third)) by {
            if earlier.contains(third) {
                let p = choose|p: int| 0 <= p < earlier.len() && earlier[p] == third;
                assert(keys[p] == third);
            }
        }
        law_batched_reads_save_what_they_name(tier, earlier, named, other, third);
        if named != last {
            lemma_one_read_order(before, last, other, named);
        } else {
            lemma_last_leaves_last(before, last, other);
        }
    } else {
        let p = choose|p: int| 0 <= p < keys.len() && keys[p] == named;
        if p < earlier.len() {
            assert(earlier[p] == named);
        }
        assert(named == last);
        lemma_last_leaves_last(before, last, other);
        lemma_unnamed_order(tier, earlier, other, third, keys);
    }
}

proof fn lemma_unnamed_order<K, V>(
    tier: MemoryState<K, V>,
    keys: Seq<K>,
    other: K,
    third: K,
    all: Seq<K>,
)
    requires
        tier.valid(),
        !all.contains(other),
        !all.contains(third),
        keys.len() <= all.len(),
        keys == all.take(keys.len() as int),
    ensures
        leaves_before(tier.read_all(keys, Eviction::Lru), other, third) <==> leaves_before(
            tier,
            other,
            third,
        ),
    decreases keys.len(),
{
    if keys.len() > 0 {
        let earlier = keys.drop_last();
        assert(earlier =~= all.take(earlier.len() as int));
        lemma_unnamed_order(tier, earlier, other, third, all);
        lemma_read_all_valid(tier, earlier);
        assert(all[keys.len() - 1] == keys.last());
        lemma_one_read_order(tier.read_all(earlier, Eviction::Lru), keys.last(), other, third);
    }
}

proof fn lemma_read_all_valid<K, V>(tier: MemoryState<K, V>, keys: Seq<K>)
    requires
        tier.valid(),
    ensures
        tier.read_all(keys, Eviction::Lru).valid(),
    decreases keys.len(),
{
    if keys.len() > 0 {
        lemma_read_all_valid(tier, keys.drop_last());
        state::lemma_touched_valid(tier.read_all(keys.drop_last(), Eviction::Lru), keys.last());
    }
}

/// One read keeps the order of the keys that it does not name.
proof fn lemma_one_read_order<K, V>(tier: MemoryState<K, V>, key: K, a: K, b: K)
    requires
        tier.valid(),
        a != key,
        b != key,
    ensures
        leaves_before(tier.read(key, Eviction::Lru), a, b) <==> leaves_before(tier, a, b),
{
    let after = tier.read(key, Eviction::Lru);
    if exists|at: int| stands_at(tier.entries, key, at) {
        let at = choose|at: int| stands_at(tier.entries, key, at);
        law_read_moves_the_entry_to_the_end(tier, key, at);
        if leaves_before(tier, a, b) {
            let (i, j) = choose|i: int, j: int|
                i < j && #[trigger] stands_at(tier.entries, a, i) && #[trigger] stands_at(
                    tier.entries,
                    b,
                    j,
                );
            let x = if i < at {
                i
            } else {
                i - 1
            };
            let y = if j < at {
                j
            } else {
                j - 1
            };
            assert(stands_at(after.entries, a, x) && stands_at(after.entries, b, y));
        }
        if leaves_before(after, a, b) {
            let (i, j) = choose|i: int, j: int|
                i < j && #[trigger] stands_at(after.entries, a, i) && #[trigger] stands_at(
                    after.entries,
                    b,
                    j,
                );
            let x = if i < at {
                i
            } else {
                i + 1
            };
            let y = if j < at {
                j
            } else {
                j + 1
            };
            assert(stands_at(tier.entries, a, x) && stands_at(tier.entries, b, y));
        }
    } else {
        law_read_moves_the_entry_to_the_end(tier, key, 0);
    }
}

/// What was read last leaves last.
proof fn lemma_last_leaves_last<K, V>(tier: MemoryState<K, V>, key: K, other: K)
    requires
        tier.valid(),
        tier.lookup(key) is Some,
        tier.lookup(other) is Some,
        key != other,
    ensures
        leaves_before(tier.read(key, Eviction::Lru), other, key),
{
    let after = tier.read(key, Eviction::Lru);
    let entries = tier.entries;
    state::lemma_lookup_found(entries, key);
    state::lemma_lookup_found(entries, other);
    let at = choose|i: int| 0 <= i < entries.len() && entries[i] == tier.lookup(key).unwrap();
    let i = choose|i: int| 0 <= i < entries.len() && entries[i] == tier.lookup(other).unwrap();
    assert(stands_at(entries, key, at));
    law_read_moves_the_entry_to_the_end(tier, key, at);
    let x = if i < at {
        i
    } else {
        i - 1
    };
    assert(stands_at(after.entries, other, x));
    assert(stands_at(after.entries, key, entries.len() - 1));
}

/// A delete takes out the entry for the key and leaves the others in order.
pub proof fn law_delete_takes_out_the_entry<K, V>(tier: MemoryState<K, V>, key: K, at: int)
    requires
        tier.valid(),
    ensures
        stands_at(tier.entries, key, at) ==> {
            &&& tier.removed(key).entries == tier.entries.remove(at)
            &&& tier.removed(key).weight == weight_of(tier.entries.remove(at))
        },
        (forall|i: int| !stands_at(tier.entries, key, i)) ==> tier.removed(key) == tier,
{
    state::lemma_lookup_found(tier.entries, key);
    if stands_at(tier.entries, key, at) {
        lemma_without(tier.entries, key, at);
        state::lemma_removed_valid(tier, key);
        lemma_weight(tier.entries.remove(at));
    }
    if forall|i: int| !stands_at(tier.entries, key, i) {
        if let Some(old) = tier.lookup(key) {
            let i = choose|i: int| 0 <= i < tier.entries.len() && tier.entries[i] == old;
            assert(stands_at(tier.entries, key, i));
        }
    }
}

/// Deleting keys in turn is deleting them one after the other.
pub proof fn law_batched_deletes_go_in_turn<K, V>(tier: MemoryState<K, V>, keys: Seq<K>, key: K)
    ensures
        tier.removed_all(Seq::empty()) == tier,
        tier.removed_all(keys.push(key)) == tier.removed_all(keys).removed(key),
{
    assert(keys.push(key).drop_last() =~= keys);
}

/// A page shows the keys from its offset on, as many as it may and there are.
pub proof fn law_page_shows_the_next_keys<K>(keys: Seq<K>, offset: int, limit: int)
    requires
        0 <= offset,
        0 <= limit,
    ensures
        ({
            let page = state::paged(keys, offset, limit);
            &&& page.len() <= limit
            &&& page.len() == limit || offset + page.len() >= keys.len()
            &&& page.len() > 0 ==> offset + page.len() <= keys.len()
            &&& forall|i: int| 0 <= i < page.len() ==> #[trigger] page[i] == keys[offset + i]
        }),
{
}

} // verus!
